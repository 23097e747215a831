use vstd::prelude::*;

use crate::textnum::line_values;
use crate::textnum::parse_number_lines;
use crate::textnum::wf_number_lines;
use vstd::string::StringSliceAdditionalSpecFns;

verus! {

/// The sentinel for "cannot be formed": one more stamp than any count that
/// fits the machine word.
pub open spec fn unmakeable() -> int {
    usize::MAX as int
}

/// One more, saturating at the sentinel.
pub open spec fn satp1(x: int) -> int {
    if x >= unmakeable() {
        unmakeable()
    } else {
        x + 1
    }
}

pub open spec fn int_min(a: int, b: int) -> int {
    if a <= b {
        a
    } else {
        b
    }
}

/// The fewest stamps from `stamps` that sum to exactly `t`, or the
/// sentinel when no combination does. Mutually recursive with `mc_min`,
/// which takes the cheapest choice of a first stamp.
pub open spec fn mc(stamps: Seq<int>, t: int) -> int
    decreases t, stamps.len() + 1,
{
    if t <= 0 {
        if t == 0 {
            0
        } else {
            unmakeable()
        }
    } else {
        mc_min(stamps, t, 0)
    }
}

/// The cheapest way to cover `t` choosing the first stamp among
/// `stamps[i..]`.
pub open spec fn mc_min(stamps: Seq<int>, t: int, i: int) -> int
    decreases t, stamps.len() - i,
{
    if t <= 0 || i < 0 || i >= stamps.len() {
        unmakeable()
    } else {
        let cand = if 1 <= stamps[i] <= t {
            satp1(mc(stamps, t - stamps[i]))
        } else {
            unmakeable()
        };
        int_min(cand, mc_min(stamps, t, i + 1))
    }
}

/// Stamp counts stay within 0 and the sentinel.
proof fn lemma_mc_bounds(stamps: Seq<int>, t: int)
    ensures
        0 <= mc(stamps, t) <= unmakeable(),
    decreases t, stamps.len() + 1,
{
    if t > 0 {
        lemma_mc_min_bounds(stamps, t, 0);
    }
}

proof fn lemma_mc_min_bounds(stamps: Seq<int>, t: int, i: int)
    ensures
        0 <= mc_min(stamps, t, i) <= unmakeable(),
    decreases t, stamps.len() - i,
{
    if !(t <= 0 || i < 0 || i >= stamps.len()) {
        if 1 <= stamps[i] <= t {
            lemma_mc_bounds(stamps, t - stamps[i]);
        }
        lemma_mc_min_bounds(stamps, t, i + 1);
    }
}

/// The choice starting at `i` is no cheaper than any single candidate at
/// `j >= i`.
proof fn lemma_mc_min_le_cand(stamps: Seq<int>, t: int, i: int, j: int)
    requires
        t > 0,
        0 <= i <= j < stamps.len(),
        1 <= stamps[j] <= t,
    ensures
        mc_min(stamps, t, i) <= satp1(mc(stamps, t - stamps[j])),
    decreases j - i,
{
    if i < j {
        lemma_mc_min_le_cand(stamps, t, i + 1, j);
    }
}

/// With a 1-stamp available, every non-negative value can be formed with
/// at most `t` stamps.
pub proof fn lemma_mc_le_t(stamps: Seq<int>, t: int, one_at: int)
    requires
        0 <= t,
        0 <= one_at < stamps.len(),
        stamps[one_at] == 1,
        t <= unmakeable(),
    ensures
        mc(stamps, t) <= t,
    decreases t,
{
    if t > 0 {
        lemma_mc_le_t(stamps, t - 1, one_at);
        lemma_mc_min_le_cand(stamps, t, 0, one_at);
        lemma_mc_bounds(stamps, t - 1);
    }
}

/// The sum of the fewest-stamp counts of every target.
pub open spec fn mc_total(stamps: Seq<int>, targets: Seq<int>) -> int
    decreases targets.len(),
{
    if targets.len() == 0 {
        0
    } else {
        mc_total(stamps, targets.drop_last()) + mc(stamps, targets.last())
    }
}

/// A dynamic-programming table of fewest-stamp counts for every value up
/// to `max_target`. Entry `t >= 1` holds the fewest stamps summing to `t`,
/// with `usize::MAX` standing for "cannot be formed"; entry 0 is unused
/// and holds the sentinel.
pub fn solve_for_all_targets(stamps: &Vec<usize>, max_target: usize) -> (table: Vec<usize>)
    requires
        max_target < usize::MAX,
        forall|j: int| 0 <= j < stamps@.len() ==> 1 <= (#[trigger] stamps@[j]),
    ensures
        table@.len() == max_target + 1,
        forall|t: int|
            1 <= t <= max_target ==> (#[trigger] table@[t]) as int == mc(
                stamps@.map_values(|x: usize| x as int),
                t,
            ),
{
    let ghost sview = stamps@.map_values(|x: usize| x as int);
    let mut table: Vec<usize> = Vec::new();
    let mut k: usize = 0;
    while k < max_target + 1
        invariant
            max_target < usize::MAX,
            0 <= k <= max_target + 1,
            table@.len() == k,
        decreases max_target + 1 - k,
    {
        table.push(usize::MAX);
        k += 1;
    }
    let mut t: usize = 1;
    while t < max_target + 1
        invariant
            max_target < usize::MAX,
            1 <= t <= max_target + 1,
            table@.len() == max_target + 1,
            sview == stamps@.map_values(|x: usize| x as int),
            forall|j: int| 0 <= j < stamps@.len() ==> 1 <= (#[trigger] stamps@[j]),
            forall|x: int| 1 <= x < t ==> (#[trigger] table@[x]) as int == mc(sview, x),
        decreases max_target + 1 - t,
    {
        let mut cur: usize = usize::MAX;
        let mut j: usize = 0;
        proof {
            lemma_mc_min_bounds(sview, t as int, 0);
        }
        while j < stamps.len()
            invariant
                max_target < usize::MAX,
                1 <= t <= max_target,
                0 <= j <= stamps@.len(),
                table@.len() == max_target + 1,
                sview == stamps@.map_values(|x: usize| x as int),
                forall|jj: int| 0 <= jj < stamps@.len() ==> 1 <= (#[trigger] stamps@[jj]),
                forall|x: int| 1 <= x < t ==> (#[trigger] table@[x]) as int == mc(sview, x),
                int_min(cur as int, mc_min(sview, t as int, j as int)) == mc_min(
                    sview,
                    t as int,
                    0,
                ),
            decreases stamps@.len() - j,
        {
            let s = stamps[j];
            proof {
                assert(sview[j as int] == s as int);
                lemma_mc_min_bounds(sview, t as int, j as int + 1);
                if 1 <= s < t {
                    assert(mc(sview, t as int - s as int) == mc(sview, (t - s) as int));
                }
            }
            let cand: usize = if s == t {
                1
            } else if s < t {
                let prior = table[t - s];
                proof {
                    assert(table@[(t - s) as int] as int == mc(sview, (t - s) as int));
                }
                if prior == usize::MAX {
                    usize::MAX
                } else {
                    prior + 1
                }
            } else {
                usize::MAX
            };
            proof {
                if s == t {
                    assert(mc(sview, t as int - s as int) == 0);
                    assert(satp1(mc(sview, t as int - sview[j as int])) == 1);
                }
                assert(cand as int == (if 1 <= sview[j as int] <= t as int {
                    satp1(mc(sview, t as int - sview[j as int]))
                } else {
                    unmakeable()
                }));
            }
            if cand < cur {
                cur = cand;
            }
            j += 1;
        }
        proof {
            assert(mc_min(sview, t as int, stamps@.len() as int) == unmakeable());
            assert(cur as int == mc_min(sview, t as int, 0));
            assert(mc(sview, t as int) == mc_min(sview, t as int, 0));
        }
        table[t] = cur;
        t += 1;
    }
    table
}

/// The stamp denominations of the first counter.
pub open spec fn stamps_a() -> Seq<int> {
    seq![1, 3, 5, 10]
}

/// The stamp denominations of the second counter.
pub open spec fn stamps_b() -> Seq<int> {
    seq![1, 3, 5, 10, 15, 16, 20, 24, 25, 30]
}

/// The stamp denominations of the third counter.
pub open spec fn stamps_c() -> Seq<int> {
    seq![1, 3, 5, 10, 15, 16, 20, 24, 25, 30, 37, 38, 49, 50, 74, 75, 100, 101]
}

/// Every partial total of stamp counts is bounded by the whole.
proof fn lemma_mc_total_prefix(stamps: Seq<int>, targets: Seq<int>, i: int)
    requires
        0 <= i <= targets.len(),
    ensures
        0 <= mc_total(stamps, targets.take(i)) <= mc_total(stamps, targets),
    decreases targets.len() - i,
{
    if i == targets.len() {
        assert(targets.take(i) =~= targets);
        lemma_mc_total_nonneg(stamps, targets);
    } else {
        lemma_mc_total_prefix(stamps, targets, i + 1);
        let t1 = targets.take(i + 1);
        assert(t1.drop_last() =~= targets.take(i));
        assert(t1.last() == targets[i]);
        lemma_mc_bounds(stamps, targets[i]);
        lemma_mc_total_nonneg(stamps, targets.take(i));
    }
}

proof fn lemma_mc_total_nonneg(stamps: Seq<int>, targets: Seq<int>)
    ensures
        mc_total(stamps, targets) >= 0,
    decreases targets.len(),
{
    if targets.len() > 0 {
        lemma_mc_total_nonneg(stamps, targets.drop_last());
        lemma_mc_bounds(stamps, targets.last());
    }
}

/// Sums the fewest-stamp counts of every parsed target, using a shared
/// dynamic-programming table.
fn sum_counts(stamps: &Vec<usize>, input: &str) -> (r: usize)
    requires
        wf_number_lines(input.spec_bytes(), usize::MAX as int - 1),
        forall|j: int| 0 <= j < stamps@.len() ==> 1 <= (#[trigger] stamps@[j]),
        forall|i: int| 1 <= #[trigger] line_values(input.spec_bytes())[i]
            || !(0 <= i < line_values(input.spec_bytes()).len()),
        mc_total(
            stamps@.map_values(|x: usize| x as int),
            line_values(input.spec_bytes()),
        ) <= usize::MAX,
    ensures
        r as int == mc_total(
            stamps@.map_values(|x: usize| x as int),
            line_values(input.spec_bytes()),
        ),
{
    let bytes = input.as_bytes();
    let ghost bview = input.spec_bytes();
    let values = parse_number_lines(bytes);
    let ghost sview = stamps@.map_values(|x: usize| x as int);
    let ghost vals = line_values(bview);
    let mx64 = max_value(&values);
    let mx = mx64 as usize;
    let table = solve_for_all_targets(stamps, mx);
    let mut total: usize = 0;
    let mut i: usize = 0;
    proof {
        assert(vals.take(0) =~= Seq::<int>::empty());
    }
    while i < values.len()
        invariant
            values@.len() == vals.len(),
            forall|k: int| 0 <= k < vals.len() ==> (#[trigger] values@[k]) as int == vals[k],
            forall|k: int| 0 <= k < vals.len() ==> 1 <= #[trigger] vals[k],
            forall|k: int| 0 <= k < values@.len() ==> (#[trigger] values@[k]) <= mx64,
            mx == mx64 as usize,
            mx64 <= usize::MAX - 1,
            table@.len() == mx + 1,
            sview == stamps@.map_values(|x: usize| x as int),
            forall|x: int| 1 <= x <= mx ==> (#[trigger] table@[x]) as int == mc(sview, x),
            mc_total(sview, vals) <= usize::MAX,
            0 <= i <= values@.len(),
            total as int == mc_total(sview, vals.take(i as int)),
        decreases values@.len() - i,
    {
        let v = values[i] as usize;
        proof {
            assert(values@[i as int] as int == vals[i as int]);
            assert(1 <= v <= mx);
            assert(table@[v as int] as int == mc(sview, v as int));
            lemma_mc_total_prefix(sview, vals, i as int + 1);
            let t1 = vals.take(i as int + 1);
            assert(t1.drop_last() =~= vals.take(i as int));
            assert(t1.last() == vals[i as int]);
            assert(mc_total(sview, t1) == total as int + mc(sview, v as int));
        }
        total = total + table[v];
        i += 1;
    }
    proof {
        assert(vals.take(values@.len() as int) =~= vals);
    }
    total
}

/// Builds the first stamp set.
fn stamps_a_vec() -> (r: Vec<usize>)
    ensures
        r@.map_values(|x: usize| x as int) == stamps_a(),
        forall|j: int| 0 <= j < r@.len() ==> 1 <= (#[trigger] r@[j]),
        r@[0] == 1,
{
    let mut v: Vec<usize> = Vec::new();
    v.push(1);
    v.push(3);
    v.push(5);
    v.push(10);
    proof {
        assert(v@.map_values(|x: usize| x as int) =~= stamps_a());
    }
    v
}

/// Builds the second stamp set.
fn stamps_b_vec() -> (r: Vec<usize>)
    ensures
        r@.map_values(|x: usize| x as int) == stamps_b(),
        forall|j: int| 0 <= j < r@.len() ==> 1 <= (#[trigger] r@[j]),
        r@[0] == 1,
{
    let mut v: Vec<usize> = Vec::new();
    v.push(1);
    v.push(3);
    v.push(5);
    v.push(10);
    v.push(15);
    v.push(16);
    v.push(20);
    v.push(24);
    v.push(25);
    v.push(30);
    proof {
        assert(v@.map_values(|x: usize| x as int) =~= stamps_b());
    }
    v
}

/// Builds the third stamp set.
fn stamps_c_vec() -> (r: Vec<usize>)
    ensures
        r@.map_values(|x: usize| x as int) == stamps_c(),
        forall|j: int| 0 <= j < r@.len() ==> 1 <= (#[trigger] r@[j]),
        r@[0] == 1,
{
    let mut v: Vec<usize> = Vec::new();
    v.push(1);
    v.push(3);
    v.push(5);
    v.push(10);
    v.push(15);
    v.push(16);
    v.push(20);
    v.push(24);
    v.push(25);
    v.push(30);
    v.push(37);
    v.push(38);
    v.push(49);
    v.push(50);
    v.push(74);
    v.push(75);
    v.push(100);
    v.push(101);
    proof {
        assert(v@.map_values(|x: usize| x as int) =~= stamps_c());
    }
    v
}

/// The total stamp count over all targets of the input, with the first
/// stamp set: one target per line, each counted at its fewest stamps.
pub fn solve_part1(input: &str) -> (r: usize)
    requires
        wf_number_lines(input.spec_bytes(), usize::MAX as int - 1),
        forall|i: int|
            0 <= i < line_values(input.spec_bytes()).len() ==> 1 <= #[trigger] line_values(
                input.spec_bytes(),
            )[i],
        mc_total(stamps_a(), line_values(input.spec_bytes())) <= usize::MAX,
    ensures
        r as int == mc_total(stamps_a(), line_values(input.spec_bytes())),
{
    let stamps = stamps_a_vec();
    sum_counts(&stamps, input)
}

/// The same total with the second, larger stamp set.
pub fn solve_part2(input: &str) -> (r: usize)
    requires
        wf_number_lines(input.spec_bytes(), usize::MAX as int - 1),
        forall|i: int|
            0 <= i < line_values(input.spec_bytes()).len() ==> 1 <= #[trigger] line_values(
                input.spec_bytes(),
            )[i],
        mc_total(stamps_b(), line_values(input.spec_bytes())) <= usize::MAX,
    ensures
        r as int == mc_total(stamps_b(), line_values(input.spec_bytes())),
{
    let stamps = stamps_b_vec();
    sum_counts(&stamps, input)
}

/// The cheapest near-even split of target `t`: the least combined stamp
/// count over the pairs (a, t - a) with `a` within 50 of the halfway
/// point, choosing the first summand among offsets `k..`.
pub open spec fn split_min(stamps: Seq<int>, t: int, k: int) -> int
    decreases 51 - k,
{
    if k < 0 || k >= 51 {
        unmakeable()
    } else {
        int_min(
            mc(stamps, t / 2 + k) + mc(stamps, t - (t / 2 + k)),
            split_min(stamps, t, k + 1),
        )
    }
}

/// The sum of the cheapest near-even splits of every target.
pub open spec fn split_total(stamps: Seq<int>, targets: Seq<int>) -> int
    decreases targets.len(),
{
    if targets.len() == 0 {
        0
    } else {
        split_total(stamps, targets.drop_last()) + split_min(stamps, targets.last(), 0)
    }
}

proof fn lemma_split_min_bounds(stamps: Seq<int>, t: int, k: int)
    ensures
        0 <= split_min(stamps, t, k),
    decreases 51 - k,
{
    if !(k < 0 || k >= 51) {
        lemma_mc_bounds(stamps, t / 2 + k);
        lemma_mc_bounds(stamps, t - (t / 2 + k));
        lemma_split_min_bounds(stamps, t, k + 1);
    }
}

/// With a 1-stamp available, the cheapest split of `t` costs at most `t`.
proof fn lemma_split_min_le(stamps: Seq<int>, t: int, k: int)
    requires
        0 <= k <= 50,
        101 <= t <= unmakeable(),
        stamps.len() > 0,
        stamps[0] == 1,
    ensures
        split_min(stamps, t, k) <= t,
{
    let a = t / 2 + k;
    let b = t - a;
    assert(0 <= t / 2 && t / 2 + 50 <= t);
    lemma_mc_le_t(stamps, a, 0);
    lemma_mc_le_t(stamps, b, 0);
    lemma_split_min_bounds(stamps, t, k + 1);
}

proof fn lemma_split_total_nonneg(stamps: Seq<int>, targets: Seq<int>)
    ensures
        split_total(stamps, targets) >= 0,
    decreases targets.len(),
{
    if targets.len() > 0 {
        lemma_split_total_nonneg(stamps, targets.drop_last());
        lemma_split_min_bounds(stamps, targets.last(), 0);
    }
}

proof fn lemma_split_total_prefix(stamps: Seq<int>, targets: Seq<int>, i: int)
    requires
        0 <= i <= targets.len(),
    ensures
        0 <= split_total(stamps, targets.take(i)) <= split_total(stamps, targets),
    decreases targets.len() - i,
{
    if i == targets.len() {
        assert(targets.take(i) =~= targets);
        lemma_split_total_nonneg(stamps, targets);
    } else {
        lemma_split_total_prefix(stamps, targets, i + 1);
        let t1 = targets.take(i + 1);
        assert(t1.drop_last() =~= targets.take(i));
        assert(t1.last() == targets[i]);
        lemma_split_min_bounds(stamps, targets[i], 0);
        lemma_split_total_nonneg(stamps, targets.take(i));
    }
}

/// The total over all targets of the cheapest near-even two-way split,
/// with the third stamp set. Every target must exceed 100, so that both
/// summands of every considered split are positive.
pub fn solve_part3(input: &str) -> (r: usize)
    requires
        wf_number_lines(input.spec_bytes(), usize::MAX as int - 1),
        forall|i: int|
            0 <= i < line_values(input.spec_bytes()).len() ==> 101 <= #[trigger] line_values(
                input.spec_bytes(),
            )[i],
        split_total(stamps_c(), line_values(input.spec_bytes())) <= usize::MAX,
    ensures
        r as int == split_total(stamps_c(), line_values(input.spec_bytes())),
{
    let stamps = stamps_c_vec();
    let bytes = input.as_bytes();
    let ghost bview = input.spec_bytes();
    let values = parse_number_lines(bytes);
    let ghost sview = stamps@.map_values(|x: usize| x as int);
    let ghost vals = line_values(bview);
    let mx64 = max_value(&values);
    let mx = mx64 as usize;
    let table = solve_for_all_targets(&stamps, mx);
    let mut total: usize = 0;
    let mut i: usize = 0;
    proof {
        assert(vals.take(0) =~= Seq::<int>::empty());
    }
    while i < values.len()
        invariant
            values@.len() == vals.len(),
            sview == stamps@.map_values(|x: usize| x as int),
            sview == stamps_c(),
            stamps@[0] == 1,
            stamps@.len() > 0,
            forall|k: int| 0 <= k < vals.len() ==> (#[trigger] values@[k]) as int == vals[k],
            forall|k: int| 0 <= k < vals.len() ==> 101 <= #[trigger] vals[k],
            forall|k: int| 0 <= k < values@.len() ==> (#[trigger] values@[k]) <= mx64,
            mx == mx64 as usize,
            mx64 <= usize::MAX - 1,
            table@.len() == mx + 1,
            forall|x: int| 1 <= x <= mx ==> (#[trigger] table@[x]) as int == mc(sview, x),
            split_total(sview, vals) <= usize::MAX,
            0 <= i <= values@.len(),
            total as int == split_total(sview, vals.take(i as int)),
        decreases values@.len() - i,
    {
        let t = values[i] as usize;
        proof {
            assert(values@[i as int] as int == vals[i as int]);
            assert(101 <= t <= mx);
        }
        let half = t / 2;
        let mut cur: usize = usize::MAX;
        let mut k: usize = 0;
        proof {
            lemma_split_min_bounds(sview, t as int, 0);
            lemma_split_min_le(sview, t as int, 0);
        }
        while k < 51
            invariant
                0 <= k <= 51,
                101 <= t <= mx,
                half == t / 2,
                sview == stamps@.map_values(|x: usize| x as int),
                stamps@[0] == 1,
                stamps@.len() > 0,
                mx <= usize::MAX - 1,
                table@.len() == mx + 1,
                forall|x: int| 1 <= x <= mx ==> (#[trigger] table@[x]) as int == mc(sview, x),
                int_min(cur as int, split_min(sview, t as int, k as int)) == split_min(
                    sview,
                    t as int,
                    0,
                ),
            decreases 51 - k,
        {
            let a = half + k;
            let b = t - a;
            proof {
                assert(half as int == (t as int) / 2);
                assert((t as int) / 2 >= 50);
                assert((t as int) / 2 * 2 <= t as int);
                assert(1 <= a as int);
                assert(a as int <= (t as int) / 2 + 50);
                assert(1 <= b as int && b as int <= mx);
                assert(a as int <= mx);
                assert(table@[a as int] as int == mc(sview, a as int));
                assert(table@[b as int] as int == mc(sview, b as int));
                lemma_mc_le_t(sview, a as int, 0);
                lemma_mc_le_t(sview, b as int, 0);
                lemma_split_min_bounds(sview, t as int, k as int + 1);
            }
            let cand = table[a] + table[b];
            proof {
                assert(cand as int == mc(sview, t as int / 2 + k as int) + mc(
                    sview,
                    t as int - (t as int / 2 + k as int),
                ));
            }
            if cand < cur {
                cur = cand;
            }
            k += 1;
        }
        proof {
            assert(split_min(sview, t as int, 51) == unmakeable());
            assert(cur as int == split_min(sview, t as int, 0));
            lemma_split_total_prefix(sview, vals, i as int + 1);
            let t1 = vals.take(i as int + 1);
            assert(t1.drop_last() =~= vals.take(i as int));
            assert(t1.last() == vals[i as int]);
            assert(split_total(sview, t1) == total as int + split_min(sview, t as int, 0));
        }
        total = total + cur;
        i += 1;
    }
    proof {
        assert(vals.take(values@.len() as int) =~= vals);
    }
    total
}

/// The largest parsed value.
fn max_value(values: &Vec<u64>) -> (m: u64)
    requires
        values@.len() > 0,
    ensures
        forall|i: int| 0 <= i < values@.len() ==> (#[trigger] values@[i]) <= m,
        exists|i: int| 0 <= i < values@.len() && (#[trigger] values@[i]) == m,
{
    let mut m = values[0];
    let mut i: usize = 1;
    while i < values.len()
        invariant
            1 <= i <= values@.len(),
            forall|k: int| 0 <= k < i ==> (#[trigger] values@[k]) <= m,
            exists|k: int| 0 <= k < i && (#[trigger] values@[k]) == m,
        decreases values@.len() - i,
    {
        if values[i] > m {
            m = values[i];
        }
        i += 1;
    }
    m
}

} // verus!
