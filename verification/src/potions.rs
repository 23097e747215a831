use vstd::prelude::*;

use vstd::string::StringSliceAdditionalSpecFns;

verus! {

/// ASCII whitespace, as trimmed from the ends of the input.
pub open spec fn is_ws(b: u8) -> bool {
    b == 32 || b == 9 || b == 10 || b == 13 || b == 11 || b == 12
}

pub open spec fn trim_front(s: Seq<u8>) -> Seq<u8>
    decreases s.len(),
{
    if s.len() > 0 && is_ws(s[0]) {
        trim_front(s.drop_first())
    } else {
        s
    }
}

pub open spec fn trim_back(s: Seq<u8>) -> Seq<u8>
    decreases s.len(),
{
    if s.len() > 0 && is_ws(s.last()) {
        trim_back(s.drop_last())
    } else {
        s
    }
}

/// The input with leading and trailing whitespace removed.
pub open spec fn trimmed(s: Seq<u8>) -> Seq<u8> {
    trim_back(trim_front(s))
}

/// The creature symbols: four kinds of opponent, or an empty slot.
pub open spec fn valid_creature(b: u8) -> bool {
    b == 65 || b == 66 || b == 67 || b == 68 || b == 120
}

/// How many potions one creature costs on its own.
pub open spec fn potions_of(b: u8) -> int {
    if b == 66 {
        1
    } else if b == 67 {
        3
    } else if b == 68 {
        5
    } else {
        0
    }
}

/// The base potion cost of a group.
pub open spec fn pot_sum(s: Seq<u8>) -> int
    decreases s.len(),
{
    if s.len() == 0 {
        0
    } else {
        pot_sum(s.drop_last()) + potions_of(s.last())
    }
}

/// How many slots of a group hold a creature rather than nothing.
pub open spec fn eff_count(s: Seq<u8>) -> int
    decreases s.len(),
{
    if s.len() == 0 {
        0
    } else {
        eff_count(s.drop_last()) + (if s.last() == 120 {
            0int
        } else {
            1int
        })
    }
}

/// The potion cost of one group: each creature's own cost, plus one extra
/// potion per creature for every other creature fighting alongside it.
pub open spec fn group_score(s: Seq<u8>) -> int {
    pot_sum(s) + eff_count(s) * (eff_count(s) - 1)
}

/// The total potion cost over the groups of `n` consecutive symbols; a
/// final shorter remainder is not a group.
pub open spec fn total_score(s: Seq<u8>, n: int) -> int
    decreases s.len(),
{
    if n <= 0 || s.len() < n {
        0
    } else {
        group_score(s.take(n)) + total_score(s.skip(n), n)
    }
}

/// The executable whitespace test.
fn ws_exec(b: u8) -> (r: bool)
    ensures
        r == is_ws(b),
{
    b == 32 || b == 9 || b == 10 || b == 13 || b == 11 || b == 12
}

proof fn lemma_trim_front_is(s: Seq<u8>, k: int)
    requires
        0 <= k <= s.len(),
        forall|i: int| 0 <= i < k ==> is_ws(#[trigger] s[i]),
        k == s.len() || !is_ws(s[k]),
    ensures
        trim_front(s) =~= s.skip(k),
    decreases k,
{
    if k == 0 {
        assert(s.skip(0) =~= s);
    } else {
        assert(is_ws(s[0]));
        let t = s.drop_first();
        assert forall|i: int| 0 <= i < k - 1 implies is_ws(#[trigger] t[i]) by {
            assert(t[i] == s[i + 1]);
        }
        if k - 1 < t.len() {
            assert(t[k - 1] == s[k as int]);
        }
        lemma_trim_front_is(t, k - 1);
        assert(t.skip(k - 1) =~= s.skip(k));
    }
}

proof fn lemma_trim_back_is(s: Seq<u8>, k: int)
    requires
        0 <= k <= s.len(),
        forall|i: int| k <= i < s.len() ==> is_ws(#[trigger] s[i]),
        k == 0 || !is_ws(s[k - 1]),
    ensures
        trim_back(s) =~= s.take(k),
    decreases s.len() - k,
{
    if k == s.len() {
        assert(s.take(k) =~= s);
    } else {
        assert(is_ws(s.last()));
        let t = s.drop_last();
        lemma_trim_back_is(t, k);
        assert(t.take(k) =~= s.take(k));
    }
}

proof fn lemma_group_score_nonneg(s: Seq<u8>)
    ensures
        pot_sum(s) >= 0,
        eff_count(s) >= 0,
        group_score(s) >= 0,
    decreases s.len(),
{
    if s.len() > 0 {
        lemma_group_score_nonneg(s.drop_last());
    }
    assert(eff_count(s) * (eff_count(s) - 1) >= 0) by (nonlinear_arith)
        requires
            eff_count(s) >= 0,
    ;
}

proof fn lemma_total_score_nonneg(s: Seq<u8>, n: int)
    ensures
        total_score(s, n) >= 0,
    decreases s.len(),
{
    if !(n <= 0 || s.len() < n) {
        lemma_group_score_nonneg(s.take(n));
        lemma_total_score_nonneg(s.skip(n), n);
    }
}

/// The total potions needed when the creatures fight in groups of `N`: a
/// creature costs its own potions plus one for every other creature in
/// its group, and a trailing group of fewer than `N` symbols is ignored.
pub fn solve_part<const N: usize>(input: &str) -> (r: usize)
    requires
        N >= 1,
        forall|i: int|
            0 <= i < trimmed(input.spec_bytes()).len() ==> valid_creature(
                #[trigger] trimmed(input.spec_bytes())[i],
            ),
        total_score(trimmed(input.spec_bytes()), N as int) <= usize::MAX,
    ensures
        r as int == total_score(trimmed(input.spec_bytes()), N as int),
{
    let bytes = input.as_bytes();
    let n_bytes = bytes.len();
    // Trim ASCII whitespace from both ends.
    let mut lo: usize = 0;
    while lo < n_bytes && ws_exec(bytes[lo])
        invariant
            n_bytes == bytes@.len(),
            0 <= lo <= n_bytes,
            forall|i: int| 0 <= i < lo ==> is_ws(#[trigger] bytes@[i]),
        decreases n_bytes - lo,
    {
        lo += 1;
    }
    let mut hi: usize = n_bytes;
    while hi > lo && ws_exec(bytes[hi - 1])
        invariant
            n_bytes == bytes@.len(),
            lo <= hi <= n_bytes,
            forall|i: int| 0 <= i < lo ==> is_ws(#[trigger] bytes@[i]),
            forall|i: int| hi <= i < n_bytes ==> is_ws(#[trigger] bytes@[i]),
        decreases hi,
    {
        hi -= 1;
    }
    let ghost tv = trimmed(input.spec_bytes());
    proof {
        lemma_trim_front_is(bytes@, lo as int);
        let f = bytes@.skip(lo as int);
        if hi == lo {
            lemma_trim_back_is(f, 0);
        } else {
            assert forall|i: int| hi - lo <= i < f.len() implies is_ws(#[trigger] f[i]) by {
                assert(f[i] == bytes@[lo + i]);
            }
            assert(f[hi - lo - 1] == bytes@[hi - 1]);
            lemma_trim_back_is(f, hi as int - lo as int);
        }
        assert(tv =~= bytes@.subrange(lo as int, hi as int));
    }
    let mut total: usize = 0;
    let mut p: usize = lo;
    proof {
        assert(tv.skip(0) =~= tv);
        lemma_total_score_nonneg(tv, N as int);
    }
    while N <= hi && p <= hi - N
        invariant
            N >= 1,
            n_bytes == bytes@.len(),
            lo <= p <= hi <= n_bytes,
            tv =~= bytes@.subrange(lo as int, hi as int),
            forall|i: int| 0 <= i < tv.len() ==> valid_creature(#[trigger] tv[i]),
            total_score(tv, N as int) <= usize::MAX,
            total as int + total_score(tv.skip(p as int - lo as int), N as int) == total_score(
                tv,
                N as int,
            ),
            total as int >= 0,
            total_score(tv.skip(p as int - lo as int), N as int) >= 0,
        decreases hi - p,
    {
        let ghost chunk_start = p as int - lo as int;
        let ghost suffix = tv.skip(chunk_start);
        let ghost chunk = suffix.take(N as int);
        // Count the group's own potion costs and its fighters.
        let mut pots: usize = 0;
        let mut eff: usize = 0;
        let mut q: usize = 0;
        proof {
            assert(chunk.take(0) =~= Seq::<u8>::empty());
            lemma_group_score_nonneg(chunk);
            assert(total_score(suffix, N as int) == group_score(chunk) + total_score(
                suffix.skip(N as int),
                N as int,
            ));
            lemma_total_score_nonneg(suffix.skip(N as int), N as int);
            assert(group_score(chunk) <= usize::MAX);
        }
        while q < N
            invariant
                N >= 1,
                n_bytes == bytes@.len(),
                lo <= p,
                p + N <= hi <= n_bytes,
                0 <= q <= N,
                tv =~= bytes@.subrange(lo as int, hi as int),
                chunk_start == p as int - lo as int,
                suffix =~= tv.skip(chunk_start),
                chunk =~= suffix.take(N as int),
                forall|i: int| 0 <= i < tv.len() ==> valid_creature(#[trigger] tv[i]),
                pots as int == pot_sum(chunk.take(q as int)),
                eff as int == eff_count(chunk.take(q as int)),
                pot_sum(chunk) + eff_count(chunk) * (eff_count(chunk) - 1) <= usize::MAX,
                eff as int <= q,
            decreases N - q,
        {
            let b = bytes[p + q];
            proof {
                assert(chunk[q as int] == tv[chunk_start + q]);
                assert(tv[chunk_start + q] == bytes@[p + q]);
                assert(valid_creature(b));
                let t1 = chunk.take(q as int + 1);
                assert(t1.drop_last() =~= chunk.take(q as int));
                assert(t1.last() == b);
                lemma_prefix_le_group(chunk, q as int + 1);
            }
            if b == 66 {
                pots = pots + 1;
            } else if b == 67 {
                pots = pots + 3;
            } else if b == 68 {
                pots = pots + 5;
            }
            if b != 120 {
                eff = eff + 1;
            }
            q += 1;
        }
        proof {
            assert(chunk.take(N as int) =~= chunk);
            assert(pots as int == pot_sum(chunk));
            assert(eff as int == eff_count(chunk));
            lemma_group_score_nonneg(chunk);
            assert((eff as int) * (eff as int - 1) >= 0) by (nonlinear_arith)
                requires
                    eff as int >= 0,
            ;
            assert((eff as int) * (eff as int - 1) <= usize::MAX);
        }
        let extra = if eff >= 1 {
            eff * (eff - 1)
        } else {
            0
        };
        proof {
            if eff >= 1 {
                assert(extra == eff * (eff - 1));
                assert(extra as int == (eff as int) * (eff as int - 1));
            } else {
                assert(eff as int == 0);
                assert((eff as int) * (eff as int - 1) == 0) by (nonlinear_arith)
                    requires
                        eff as int == 0,
                ;
            }
            assert(extra as int == eff_count(chunk) * (eff_count(chunk) - 1));
            assert(group_score(chunk) == pots as int + extra as int);
        }
        total = total + (pots + extra);
        p = p + N;
        proof {
            assert(suffix.skip(N as int) =~= tv.skip(p as int - lo as int));
            lemma_total_score_nonneg(tv.skip(p as int - lo as int), N as int);
        }
    }
    proof {
        let rest = tv.skip(p as int - lo as int);
        assert(rest.len() < N);
        assert(total_score(rest, N as int) == 0);
    }
    total
}

/// The partial sums of a group are bounded by the group's own score parts.
proof fn lemma_prefix_le_group(s: Seq<u8>, q: int)
    requires
        0 <= q <= s.len(),
    ensures
        0 <= pot_sum(s.take(q)) <= pot_sum(s),
        0 <= eff_count(s.take(q)) <= eff_count(s),
    decreases s.len() - q,
{
    if q == s.len() {
        assert(s.take(q) =~= s);
        lemma_group_score_nonneg(s);
    } else {
        lemma_prefix_le_group(s, q + 1);
        let t1 = s.take(q + 1);
        assert(t1.drop_last() =~= s.take(q));
        assert(t1.last() == s[q]);
        lemma_group_score_nonneg(s.take(q));
    }
}

} // verus!
