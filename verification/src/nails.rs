use vstd::prelude::*;

use crate::textnum::line_values;
use crate::textnum::parse_number_lines;
use crate::textnum::wf_number_lines;
use vstd::string::StringSliceAdditionalSpecFns;

verus! {

/// The smallest value in a non-empty sequence.
pub open spec fn seq_min_val(s: Seq<int>) -> int
    decreases s.len(),
{
    if s.len() <= 1 {
        s[0]
    } else if s.last() < seq_min_val(s.drop_last()) {
        s.last()
    } else {
        seq_min_val(s.drop_last())
    }
}

/// The total of lowering every value down to `m`.
pub open spec fn lower_sum(s: Seq<int>, m: int) -> int
    decreases s.len(),
{
    if s.len() == 0 {
        0
    } else {
        lower_sum(s.drop_last(), m) + (s.last() - m)
    }
}

/// The total distance from every value to `m`.
pub open spec fn dist_sum(s: Seq<int>, m: int) -> int
    decreases s.len(),
{
    if s.len() == 0 {
        0
    } else {
        dist_sum(s.drop_last(), m) + (if s.last() >= m {
            s.last() - m
        } else {
            m - s.last()
        })
    }
}

/// The cheapest total distance when the meeting value is chosen among the
/// values at positions `j..`; the best choice is the median.
pub open spec fn best_dist_from(s: Seq<int>, j: int) -> int
    decreases s.len() - j,
{
    if j < 0 || j >= s.len() {
        u64::MAX as int
    } else {
        crate::stamps::int_min(dist_sum(s, s[j]), best_dist_from(s, j + 1))
    }
}

proof fn lemma_seq_min_le(s: Seq<int>, i: int)
    requires
        0 <= i < s.len(),
    ensures
        seq_min_val(s) <= s[i],
    decreases s.len(),
{
    if s.len() > 1 {
        if i < s.len() - 1 {
            lemma_seq_min_le(s.drop_last(), i);
        }
    }
}

proof fn lemma_lower_sum_nonneg(s: Seq<int>, m: int)
    requires
        forall|i: int| 0 <= i < s.len() ==> m <= #[trigger] s[i],
    ensures
        lower_sum(s, m) >= 0,
    decreases s.len(),
{
    if s.len() > 0 {
        assert forall|i: int| 0 <= i < s.drop_last().len() implies m <= #[trigger] s.drop_last()[i]
            by {
            assert(s.drop_last()[i] == s[i]);
        }
        lemma_lower_sum_nonneg(s.drop_last(), m);
    }
}

proof fn lemma_lower_sum_prefix(s: Seq<int>, m: int, i: int)
    requires
        0 <= i <= s.len(),
        forall|k: int| 0 <= k < s.len() ==> m <= #[trigger] s[k],
    ensures
        0 <= lower_sum(s.take(i), m) <= lower_sum(s, m),
    decreases s.len() - i,
{
    if i == s.len() {
        assert(s.take(i) =~= s);
        lemma_lower_sum_nonneg(s, m);
    } else {
        lemma_lower_sum_prefix(s, m, i + 1);
        let t1 = s.take(i + 1);
        assert(t1.drop_last() =~= s.take(i));
        assert(t1.last() == s[i]);
        assert forall|k: int| 0 <= k < s.take(i).len() implies m <= #[trigger] s.take(i)[k] by {
            assert(s.take(i)[k] == s[k]);
        }
        lemma_lower_sum_nonneg(s.take(i), m);
    }
}

proof fn lemma_dist_sum_bound(s: Seq<int>, m: int, hi: int)
    requires
        0 <= m <= hi,
        forall|k: int| 0 <= k < s.len() ==> 0 <= #[trigger] s[k] <= hi,
    ensures
        0 <= dist_sum(s, m) <= s.len() * hi,
    decreases s.len(),
{
    if s.len() > 0 {
        assert forall|k: int| 0 <= k < s.drop_last().len() implies 0 <= #[trigger] s.drop_last()[k]
            <= hi by {
            assert(s.drop_last()[k] == s[k]);
        }
        lemma_dist_sum_bound(s.drop_last(), m, hi);
        assert((s.len() - 1) * hi + hi == s.len() * hi) by (nonlinear_arith);
    }
}

/// The total number of nails, each lowered to the height of the lowest:
/// one strike per unit of height above the minimum.
pub fn solve_part12(input: &str) -> (r: u32)
    requires
        wf_number_lines(input.spec_bytes(), u32::MAX as int),
        lower_sum(
            line_values(input.spec_bytes()),
            seq_min_val(line_values(input.spec_bytes())),
        ) <= u32::MAX,
    ensures
        r as int == lower_sum(
            line_values(input.spec_bytes()),
            seq_min_val(line_values(input.spec_bytes())),
        ),
{
    let bytes = input.as_bytes();
    let ghost vals = line_values(input.spec_bytes());
    let values = parse_number_lines(bytes);
    proof {
        lemma_values_bounded(input.spec_bytes(), u32::MAX as int);
    }
    let mut m = values[0];
    let mut i: usize = 1;
    proof {
        assert(vals.take(1).drop_last() =~= Seq::<int>::empty());
        assert(vals.take(1) =~= seq![vals[0]]);
        assert(seq_min_val(vals.take(1)) == vals[0]);
    }
    while i < values.len()
        invariant
            values@.len() == vals.len(),
            1 <= i <= vals.len(),
            forall|k: int| 0 <= k < vals.len() ==> (#[trigger] values@[k]) as int == vals[k],
            m as int == seq_min_val(vals.take(i as int)),
        decreases values@.len() - i,
    {
        proof {
            let t1 = vals.take(i as int + 1);
            assert(t1.drop_last() =~= vals.take(i as int));
            assert(t1.last() == vals[i as int]);
        }
        if values[i] < m {
            m = values[i];
        }
        i += 1;
    }
    proof {
        assert(vals.take(vals.len() as int) =~= vals);
    }
    let ghost mv = seq_min_val(vals);
    proof {
        assert forall|k: int| 0 <= k < vals.len() implies mv <= #[trigger] vals[k] by {
            lemma_seq_min_le(vals, k);
        }
        assert(vals.take(0) =~= Seq::<int>::empty());
    }
    let mut total: u64 = 0;
    let mut j: usize = 0;
    while j < values.len()
        invariant
            values@.len() == vals.len(),
            0 <= j <= vals.len(),
            forall|k: int| 0 <= k < vals.len() ==> (#[trigger] values@[k]) as int == vals[k],
            forall|k: int| 0 <= k < vals.len() ==> mv <= #[trigger] vals[k],
            m as int == mv,
            mv == seq_min_val(vals),
            lower_sum(vals, mv) <= u32::MAX,
            total as int == lower_sum(vals.take(j as int), mv),
        decreases values@.len() - j,
    {
        proof {
            lemma_lower_sum_prefix(vals, mv, j as int + 1);
            let t1 = vals.take(j as int + 1);
            assert(t1.drop_last() =~= vals.take(j as int));
            assert(t1.last() == vals[j as int]);
        }
        total = total + (values[j] - m);
        j += 1;
    }
    proof {
        assert(vals.take(vals.len() as int) =~= vals);
    }
    total as u32
}

/// The total number of strikes when nails may be struck down or pulled up
/// to a common height: the cheapest total distance to a value among the
/// nails, which a median value attains.
pub fn solve_part3(input: &str) -> (r: u32)
    requires
        wf_number_lines(input.spec_bytes(), u32::MAX as int),
        line_values(input.spec_bytes()).len() <= u32::MAX,
        best_dist_from(line_values(input.spec_bytes()), 0) <= u32::MAX,
    ensures
        r as int == best_dist_from(line_values(input.spec_bytes()), 0),
{
    let bytes = input.as_bytes();
    let ghost vals = line_values(input.spec_bytes());
    let values = parse_number_lines(bytes);
    proof {
        lemma_values_bounded(input.spec_bytes(), u32::MAX as int);
    }
    let n = values.len();
    let mut best: u64 = u64::MAX;
    let mut j: usize = 0;
    proof {
        assert(crate::stamps::int_min(best as int, best_dist_from(vals, 0)) == best_dist_from(
            vals,
            0,
        )) by {
            lemma_best_dist_le(vals, 0);
            assert((vals.len() as int) * (u32::MAX as int) <= (u32::MAX as int) * (
            u32::MAX as int)) by (nonlinear_arith)
                requires
                    0 <= vals.len() <= u32::MAX as int,
            ;
            lemma_best_dist_nonneg(vals, 0);
        }
    }
    while j < n
        invariant
            n == values@.len(),
            values@.len() == vals.len(),
            vals.len() <= u32::MAX,
            0 <= j <= vals.len(),
            forall|k: int| 0 <= k < vals.len() ==> (#[trigger] values@[k]) as int == vals[k],
            forall|k: int| 0 <= k < vals.len() ==> 0 <= #[trigger] vals[k] <= u32::MAX,
            crate::stamps::int_min(best as int, best_dist_from(vals, j as int)) == best_dist_from(
                vals,
                0,
            ),
        decreases values@.len() - j,
    {
        let m = values[j];
        let mut acc: u64 = 0;
        let mut i: usize = 0;
        proof {
            assert(vals.take(0) =~= Seq::<int>::empty());
        }
        while i < n
            invariant
                n == values@.len(),
                values@.len() == vals.len(),
                vals.len() <= u32::MAX,
                0 <= i <= vals.len(),
                j < vals.len(),
                m as int == vals[j as int],
                0 <= m <= u32::MAX,
                forall|k: int| 0 <= k < vals.len() ==> (#[trigger] values@[k]) as int == vals[k],
                forall|k: int| 0 <= k < vals.len() ==> 0 <= #[trigger] vals[k] <= u32::MAX,
                acc as int == dist_sum(vals.take(i as int), m as int),
                acc <= (i as u64) * (u32::MAX as u64),
            decreases values@.len() - i,
        {
            proof {
                let t1 = vals.take(i as int + 1);
                assert(t1.drop_last() =~= vals.take(i as int));
                assert(t1.last() == vals[i as int]);
                assert((i as int) * (u32::MAX as int) + u32::MAX == (i as int + 1) * (
                u32::MAX as int)) by (nonlinear_arith);
                assert((i as int + 1) * (u32::MAX as int) <= (u32::MAX as int) * (u32::MAX as int))
                    by (nonlinear_arith)
                    requires
                        0 <= i as int + 1 <= u32::MAX as int,
                ;
            }
            let v = values[i];
            let d = if v >= m {
                v - m
            } else {
                m - v
            };
            acc = acc + d;
            i += 1;
        }
        proof {
            assert(vals.take(vals.len() as int) =~= vals);
            assert(acc as int == dist_sum(vals, m as int));
        }
        let ghost best0 = best;
        if acc < best {
            best = acc;
        }
        proof {
            assert(best_dist_from(vals, j as int) == crate::stamps::int_min(
                dist_sum(vals, vals[j as int]),
                best_dist_from(vals, j as int + 1),
            ));
        }
        j += 1;
    }
    proof {
        assert(best_dist_from(vals, vals.len() as int) == u64::MAX as int);
        assert(best as int == best_dist_from(vals, 0));
    }
    best as u32
}

/// Every parsed value is within the well-formedness bound.
proof fn lemma_values_bounded(s: Seq<u8>, bound: int)
    requires
        wf_number_lines(s, bound),
    ensures
        line_values(s).len() > 0,
        forall|k: int| 0 <= k < line_values(s).len() ==> 0 <= #[trigger] line_values(s)[k] <= bound,
{
    assert forall|k: int| 0 <= k < line_values(s).len() implies 0 <= #[trigger] line_values(s)[k]
        <= bound by {
        assert(line_values(s)[k] == crate::textnum::digits_val(
            crate::textnum::split_lines(s)[k],
        ));
    }
}

proof fn lemma_best_dist_nonneg(s: Seq<int>, j: int)
    requires
        forall|k: int| 0 <= k < s.len() ==> 0 <= #[trigger] s[k] <= u32::MAX,
    ensures
        best_dist_from(s, j) >= 0,
    decreases s.len() - j,
{
    if !(j < 0 || j >= s.len()) {
        lemma_dist_sum_bound(s, s[j], u32::MAX as int);
        lemma_best_dist_nonneg(s, j + 1);
    }
}

/// With at least one value, some choice keeps the total distance below
/// the sentinel.
proof fn lemma_best_dist_le(s: Seq<int>, j: int)
    requires
        0 <= j < s.len(),
        forall|k: int| 0 <= k < s.len() ==> 0 <= #[trigger] s[k] <= u32::MAX,
        s.len() <= u32::MAX,
    ensures
        best_dist_from(s, j) <= s.len() * (u32::MAX as int),
{
    lemma_dist_sum_bound(s, s[j], u32::MAX as int);
}

} // verus!
