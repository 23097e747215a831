use vstd::prelude::*;

use crate::grid_model::lemma_decode;
use crate::textnum::split_lines;
use crate::textnum::split_rows;
use vstd::string::StringSliceAdditionalSpecFns;

verus! {

/// One snapshot of the dig: each cell's excavated depth, and whether the
/// cell may still be dug.
pub struct DigState {
    pub depths: Seq<u16>,
    pub dig: Seq<bool>,
}

/// The depth of the cell at (r, c), with anything outside the plot at
/// depth 0.
pub open spec fn depth_or_zero(depths: Seq<u16>, rows: int, cols: int, r: int, c: int) -> int {
    if 0 <= r < rows && 0 <= c < cols {
        depths[r * cols + c] as int
    } else {
        0
    }
}

/// Whether the cell at (r, c) can be dug one level deeper: its four
/// orthogonal in-bounds neighbors are level with it, and with diagonal
/// checking also its corner neighbors, where ground outside the plot
/// counts as undug.
pub open spec fn level_with_neighbors(
    st: DigState,
    rows: int,
    cols: int,
    r: int,
    c: int,
    diag: bool,
) -> bool {
    let d = st.depths[r * cols + c] as int;
    if diag {
        &&& depth_or_zero(st.depths, rows, cols, r - 1, c) == d
        &&& depth_or_zero(st.depths, rows, cols, r + 1, c) == d
        &&& depth_or_zero(st.depths, rows, cols, r, c - 1) == d
        &&& depth_or_zero(st.depths, rows, cols, r, c + 1) == d
        &&& depth_or_zero(st.depths, rows, cols, r - 1, c - 1) == d
        &&& depth_or_zero(st.depths, rows, cols, r - 1, c + 1) == d
        &&& depth_or_zero(st.depths, rows, cols, r + 1, c - 1) == d
        &&& depth_or_zero(st.depths, rows, cols, r + 1, c + 1) == d
    } else {
        &&& (r > 0 ==> st.depths[(r - 1) * cols + c] == st.depths[r * cols + c])
        &&& (r < rows - 1 ==> st.depths[(r + 1) * cols + c] == st.depths[r * cols + c])
        &&& (c > 0 ==> st.depths[r * cols + (c - 1)] == st.depths[r * cols + c])
        &&& (c < cols - 1 ==> st.depths[r * cols + (c + 1)] == st.depths[r * cols + c])
    }
}

/// Whether flat cell `i` digs in this round.
#[verifier::opaque]
pub open spec fn can_dig(st: DigState, rows: int, cols: int, i: int, diag: bool) -> bool {
    st.dig[i] && level_with_neighbors(st, rows, cols, i / cols, i % cols, diag)
}

/// One digging round: every cell that can dig goes one deeper and stays
/// diggable; every cell that cannot stops being diggable for good.
#[verifier::opaque]
pub open spec fn dig_round(st: DigState, rows: int, cols: int, diag: bool) -> DigState {
    DigState {
        depths: Seq::new(
            st.depths.len(),
            |i: int|
                if can_dig(st, rows, cols, i, diag) {
                    (st.depths[i] + 1) as u16
                } else {
                    st.depths[i]
                },
        ),
        dig: Seq::new(st.dig.len(), |i: int| can_dig(st, rows, cols, i, diag)),
    }
}

/// Whether any cell digs in this round.
pub open spec fn digs(st: DigState, rows: int, cols: int, diag: bool) -> bool {
    exists|i: int| 0 <= i < st.depths.len() && #[trigger] can_dig(st, rows, cols, i, diag)
}

/// The plot before the first round: level ground, and exactly the cells
/// marked `'#'` diggable.
pub open spec fn dig_start(lines: Seq<Seq<u8>>) -> DigState {
    let rows = lines.len() as int;
    let cols = lines[0].len() as int;
    DigState {
        depths: Seq::new((rows * cols) as nat, |i: int| 0u16),
        dig: Seq::new((rows * cols) as nat, |i: int| lines[i / cols][i % cols] == 35),
    }
}

/// The plot after `k` digging rounds.
#[verifier::opaque]
pub open spec fn dig_iter(lines: Seq<Seq<u8>>, diag: bool, k: int) -> DigState
    decreases k,
{
    if k <= 0 {
        dig_start(lines)
    } else {
        dig_round(dig_iter(lines, diag, k - 1), lines.len() as int, lines[0].len() as int, diag)
    }
}

/// The total of all excavated depths.
pub open spec fn depth_sum(s: Seq<u16>) -> int
    decreases s.len(),
{
    if s.len() == 0 {
        0
    } else {
        depth_sum(s.drop_last()) + s.last()
    }
}

/// A well-formed plot: at least one row, rows of one positive length, a
/// cell count that fits the machine word with room for the depth bound,
/// and at least one undiggable cell for the dig to bottom out against.
pub open spec fn wf_plot(lines: Seq<Seq<u8>>) -> bool {
    &&& lines.len() > 0
    &&& lines[0].len() > 0
    &&& forall|i: int| 0 <= i < lines.len() ==> (#[trigger] lines[i]).len() == lines[0].len()
    &&& lines.len() * lines[0].len() <= usize::MAX
    &&& lines.len() + lines[0].len() <= 65534
    &&& exists|r: int, c: int|
        0 <= r < lines.len() && 0 <= c < lines[0].len() && #[trigger] lines[r][c] != 35
}

/// Adjacent cells never differ in depth by more than one level.
#[verifier::opaque]
pub open spec fn lipschitz(depths: Seq<u16>, rows: int, cols: int) -> bool {
    &&& (forall|r: int, c: int|
        0 <= r < rows - 1 && 0 <= c < cols ==> (#[trigger] depths[r * cols + c] as int) - (
        depths[(r + 1) * cols + c] as int) <= 1 && (depths[(r + 1) * cols + c] as int) - (depths[r
            * cols + c] as int) <= 1)
    &&& (forall|r: int, c: int|
        0 <= r < rows && 0 <= c < cols - 1 ==> (#[trigger] depths[r * cols + c] as int) - (
        depths[r * cols + (c + 1)] as int) <= 1 && (depths[r * cols + (c + 1)] as int) - (depths[r
            * cols + c] as int) <= 1)
}

/// Level ground satisfies the one-level bound trivially.
proof fn lemma_level_ground_lipschitz(depths: Seq<u16>, rows: int, cols: int)
    requires
        rows > 0,
        cols > 0,
        depths.len() == rows * cols,
        forall|j: int| 0 <= j < depths.len() ==> (#[trigger] depths[j]) == 0u16,
    ensures
        lipschitz(depths, rows, cols),
{
    reveal(lipschitz);
    assert forall|r: int, c: int| 0 <= r < rows - 1 && 0 <= c < cols implies (#[trigger] depths[r
        * cols + c] as int) - (depths[(r + 1) * cols + c] as int) <= 1 && (depths[(r + 1) * cols
        + c] as int) - (depths[r * cols + c] as int) <= 1 by {
        lemma_cell_ids(rows, cols, r, c);
        lemma_cell_ids(rows, cols, r + 1, c);
    }
    assert forall|r: int, c: int| 0 <= r < rows && 0 <= c < cols - 1 implies (#[trigger] depths[r
        * cols + c] as int) - (depths[r * cols + (c + 1)] as int) <= 1 && (depths[r * cols + (c
        + 1)] as int) - (depths[r * cols + c] as int) <= 1 by {
        lemma_cell_ids(rows, cols, r, c);
        lemma_cell_ids(rows, cols, r, c + 1);
    }
}

/// Along any staircase walk, depth changes by at most one per step.
proof fn lemma_lipschitz_walk(
    depths: Seq<u16>,
    rows: int,
    cols: int,
    r1: int,
    c1: int,
    r2: int,
    c2: int,
)
    requires
        rows > 0,
        cols > 0,
        depths.len() == rows * cols,
        lipschitz(depths, rows, cols),
        0 <= r1 < rows,
        0 <= c1 < cols,
        0 <= r2 < rows,
        0 <= c2 < cols,
    ensures
        (depths[r1 * cols + c1] as int) - (depths[r2 * cols + c2] as int) <= (if r1 >= r2 {
            r1 - r2
        } else {
            r2 - r1
        }) + (if c1 >= c2 {
            c1 - c2
        } else {
            c2 - c1
        }),
    decreases (if r1 >= r2 {
        r1 - r2
    } else {
        r2 - r1
    }) + (if c1 >= c2 {
        c1 - c2
    } else {
        c2 - c1
    }),
{
    reveal(lipschitz);
    if r1 < r2 {
        lemma_lipschitz_walk(depths, rows, cols, r1 + 1, c1, r2, c2);
    } else if r1 > r2 {
        lemma_lipschitz_walk(depths, rows, cols, r1 - 1, c1, r2, c2);
    } else if c1 < c2 {
        lemma_lipschitz_walk(depths, rows, cols, r1, c1 + 1, r2, c2);
    } else if c1 > c2 {
        lemma_lipschitz_walk(depths, rows, cols, r1, c1 - 1, r2, c2);
    }
}

/// With level ground at some cell, every depth is bounded by the plot's
/// half-perimeter.
proof fn lemma_depths_bounded(depths: Seq<u16>, rows: int, cols: int, ar: int, ac: int)
    requires
        rows > 0,
        cols > 0,
        depths.len() == rows * cols,
        lipschitz(depths, rows, cols),
        0 <= ar < rows,
        0 <= ac < cols,
        depths[ar * cols + ac] == 0,
    ensures
        forall|i: int| 0 <= i < depths.len() ==> (#[trigger] depths[i] as int) <= rows + cols,
{
    assert forall|i: int| 0 <= i < depths.len() implies (#[trigger] depths[i] as int) <= rows
        + cols by {
        lemma_decode(i, rows, cols);
        let r = i / cols;
        let c = i % cols;
        lemma_lipschitz_walk(depths, rows, cols, r, c, ar, ac);
        assert(depths[r * cols + c] == depths[i]);
    }
}

/// A round preserves the one-level bound between neighbors.
proof fn lemma_round_lipschitz(st: DigState, rows: int, cols: int, diag: bool)
    requires
        rows > 0,
        cols > 0,
        st.depths.len() == rows * cols,
        st.dig.len() == rows * cols,
        lipschitz(st.depths, rows, cols),
        forall|i: int| 0 <= i < st.depths.len() ==> (#[trigger] st.depths[i] as int) < 65535,
    ensures
        lipschitz(dig_round(st, rows, cols, diag).depths, rows, cols),
{
    reveal(dig_round);
    reveal(can_dig);
    reveal(lipschitz);
    let nd = dig_round(st, rows, cols, diag).depths;
    assert forall|r: int, c: int| 0 <= r < rows - 1 && 0 <= c < cols implies (#[trigger] nd[r
        * cols + c] as int) - (nd[(r + 1) * cols + c] as int) <= 1 && (nd[(r + 1) * cols
        + c] as int) - (nd[r * cols + c] as int) <= 1 by {
        let a = r * cols + c;
        let b = (r + 1) * cols + c;
        lemma_cell_ids(rows, cols, r, c);
        lemma_cell_ids(rows, cols, r + 1, c);
        assert(a / cols == r && a % cols == c && b / cols == r + 1 && b % cols == c);
        assert((st.depths[a] as int) - (st.depths[b] as int) <= 1 && (st.depths[b] as int) - (
        st.depths[a] as int) <= 1);
        assert(nd[a] as int == if can_dig(st, rows, cols, a, diag) {
            st.depths[a] + 1
        } else {
            st.depths[a] as int
        });
        assert(nd[b] as int == if can_dig(st, rows, cols, b, diag) {
            st.depths[b] + 1
        } else {
            st.depths[b] as int
        });
        if can_dig(st, rows, cols, a, diag) && !can_dig(st, rows, cols, b, diag) {
            assert(st.depths[b] == st.depths[a]);
        }
        if !can_dig(st, rows, cols, a, diag) && can_dig(st, rows, cols, b, diag) {
            assert(st.depths[a] == st.depths[b]);
        }
    }
    assert forall|r: int, c: int| 0 <= r < rows && 0 <= c < cols - 1 implies (#[trigger] nd[r
        * cols + c] as int) - (nd[r * cols + (c + 1)] as int) <= 1 && (nd[r * cols + (c
        + 1)] as int) - (nd[r * cols + c] as int) <= 1 by {
        let a = r * cols + c;
        let b = r * cols + (c + 1);
        lemma_cell_ids(rows, cols, r, c);
        lemma_cell_ids(rows, cols, r, c + 1);
        assert(a / cols == r && a % cols == c && b / cols == r && b % cols == c + 1);
        assert((st.depths[a] as int) - (st.depths[b] as int) <= 1 && (st.depths[b] as int) - (
        st.depths[a] as int) <= 1);
        assert(nd[a] as int == if can_dig(st, rows, cols, a, diag) {
            st.depths[a] + 1
        } else {
            st.depths[a] as int
        });
        assert(nd[b] as int == if can_dig(st, rows, cols, b, diag) {
            st.depths[b] + 1
        } else {
            st.depths[b] as int
        });
        if can_dig(st, rows, cols, a, diag) && !can_dig(st, rows, cols, b, diag) {
            assert(st.depths[b] == st.depths[a]);
        }
        if !can_dig(st, rows, cols, a, diag) && can_dig(st, rows, cols, b, diag) {
            assert(st.depths[a] == st.depths[b]);
        }
    }
}

/// The flat index of (r, c) decodes back to (r, c).
proof fn lemma_cell_ids(rows: int, cols: int, r: int, c: int)
    requires
        cols > 0,
        0 <= r,
        0 <= c < cols,
    ensures
        (r * cols + c) / cols == r,
        (r * cols + c) % cols == c,
        r < rows ==> r * cols + c < rows * cols,
{
    crate::grid_model::lemma_row_major(r, c, cols);
    if r < rows {
        assert(r * cols + c < rows * cols) by (nonlinear_arith)
            requires
                0 <= r < rows,
                0 <= c < cols,
        ;
    }
}

/// Pointwise-bounded totals, strictly when one cell got deeper.
proof fn lemma_depth_sum_grows(s1: Seq<u16>, s2: Seq<u16>, w: int)
    requires
        s1.len() == s2.len(),
        forall|i: int| 0 <= i < s1.len() ==> (#[trigger] s1[i]) as int <= s2[i] as int,
        0 <= w < s1.len(),
        (s1[w] as int) < s2[w] as int,
    ensures
        depth_sum(s1) < depth_sum(s2),
    decreases s1.len(),
{
    lemma_depth_sum_le(s1.drop_last(), s2.drop_last());
    if w == s1.len() - 1 {
    } else {
        lemma_depth_sum_grows(s1.drop_last(), s2.drop_last(), w);
    }
}

proof fn lemma_depth_sum_le(s1: Seq<u16>, s2: Seq<u16>)
    requires
        s1.len() == s2.len(),
        forall|i: int| 0 <= i < s1.len() ==> (#[trigger] s1[i]) as int <= s2[i] as int,
    ensures
        depth_sum(s1) <= depth_sum(s2),
    decreases s1.len(),
{
    if s1.len() > 0 {
        lemma_depth_sum_le(s1.drop_last(), s2.drop_last());
    }
}

proof fn lemma_depth_sum_nonneg(s: Seq<u16>)
    ensures
        0 <= depth_sum(s),
    decreases s.len(),
{
    if s.len() > 0 {
        lemma_depth_sum_nonneg(s.drop_last());
    }
}

/// Partial totals never exceed the whole.
proof fn lemma_depth_sum_prefix(s: Seq<u16>, i: int)
    requires
        0 <= i <= s.len(),
    ensures
        0 <= depth_sum(s.take(i)) <= depth_sum(s),
    decreases s.len() - i,
{
    if i == s.len() {
        assert(s.take(i) =~= s);
        lemma_depth_sum_nonneg(s);
    } else {
        lemma_depth_sum_prefix(s, i + 1);
        let t = s.take(i + 1);
        assert(t.drop_last() =~= s.take(i));
        assert(t.last() == s[i]);
        lemma_depth_sum_nonneg(s.take(i));
    }
}

/// Digs the whole plot until no cell can go deeper, and returns the total
/// excavated depth. Each round, every still-diggable cell that is level
/// with its neighbors — orthogonal only, or all eight with
/// `include_diagonals`, where ground beyond the border counts as undug —
/// goes one level deeper; a cell that cannot dig is frozen for good. The
/// result is the depth total of the first round that digs nothing, which
/// always fits the wide count: no cell digs deeper than the plot's
/// half-perimeter.
#[verifier::rlimit(100)]
pub fn dig_total(input: &str, include_diagonals: bool) -> (r: u64)
    requires
        wf_plot(split_lines(input.spec_bytes())),
    ensures
        exists|k: int|
            {
                &&& 0 <= k
                &&& (forall|j: int|
                    0 <= j < k ==> digs(
                        #[trigger] dig_iter(split_lines(input.spec_bytes()), include_diagonals, j),
                        split_lines(input.spec_bytes()).len() as int,
                        split_lines(input.spec_bytes())[0].len() as int,
                        include_diagonals,
                    ))
                &&& !digs(
                    #[trigger] dig_iter(split_lines(input.spec_bytes()), include_diagonals, k),
                    split_lines(input.spec_bytes()).len() as int,
                    split_lines(input.spec_bytes())[0].len() as int,
                    include_diagonals,
                )
                &&& r as int == depth_sum(
                    dig_iter(split_lines(input.spec_bytes()), include_diagonals, k).depths,
                )
            },
{
    let ghost lines = split_lines(input.spec_bytes());
    let bytes = input.as_bytes();
    let rows_vec = split_rows(bytes);
    let rows = rows_vec.len();
    let cols = rows_vec[0].len();
    proof {
        assert(rows_vec@.map_values(|row: Vec<u8>| row@).len() == lines.len());
        assert(rows_vec@.map_values(|row: Vec<u8>| row@)[0] == lines[0]);
    }
    let n = rows * cols;
    let ghost diag = include_diagonals;

    // Level ground; '#' cells may dig.
    let mut depths: Vec<u16> = Vec::new();
    let mut dig: Vec<bool> = Vec::new();
    let mut i: usize = 0;
    while i < n
        invariant
            rows == lines.len(),
            cols == lines[0].len(),
            wf_plot(lines),
            rows_vec@.map_values(|row: Vec<u8>| row@) == lines,
            n == rows * cols,
            0 <= i <= n,
            depths@.len() == i,
            dig@.len() == i,
            forall|j: int| 0 <= j < i ==> (#[trigger] depths@[j]) == 0u16,
            forall|j: int|
                0 <= j < i ==> (#[trigger] dig@[j]) == (lines[j / (cols as int)][j % (
                cols as int
                )] == 35),
        decreases n - i,
    {
        proof {
            lemma_decode(i as int, rows as int, cols as int);
            assert(rows_vec@.map_values(|row: Vec<u8>| row@)[i as int / (cols as int)]
                == lines[i as int / (cols as int)]);
            assert(lines[i as int / (cols as int)].len() == cols);
        }
        let r = i / cols;
        let c = i % cols;
        depths.push(0);
        dig.push(rows_vec[r][c] == 35);
        i += 1;
    }
    proof {
        reveal(dig_iter);
        assert(depths@ =~= dig_start(lines).depths);
        assert(dig@ =~= dig_start(lines).dig);
        assert(dig_iter(lines, diag, 0) == dig_start(lines));
    }
    let ghost (anchor_r, anchor_c) = choose|r: int, c: int|
        0 <= r < lines.len() && 0 <= c < lines[0].len() && #[trigger] lines[r][c] != 35;
    proof {
        lemma_cell_ids(rows as int, cols as int, anchor_r, anchor_c);
        lemma_level_ground_lipschitz(depths@, rows as int, cols as int);
        lemma_depth_sum_nonneg(depths@);
    }

    let ghost mut k: int = 0;
    let ghost bound = rows as int + cols as int;
    loop
        invariant
            lines == split_lines(input.spec_bytes()),
            rows == lines.len(),
            cols == lines[0].len(),
            wf_plot(lines),
            n == rows * cols,
            bound == rows as int + cols as int,
            0 <= anchor_r < rows,
            0 <= anchor_c < cols,
            depths@.len() == n,
            dig@.len() == n,
            0 <= k,
            depths@ == dig_iter(lines, diag, k).depths,
            dig@ == dig_iter(lines, diag, k).dig,
            forall|j: int|
                0 <= j < k ==> digs(
                    #[trigger] dig_iter(lines, diag, j),
                    rows as int,
                    cols as int,
                    diag,
                ),
            lipschitz(depths@, rows as int, cols as int),
            depths@[anchor_r * (cols as int) + anchor_c] == 0,
            !dig@[anchor_r * (cols as int) + anchor_c],
            diag == include_diagonals,
        decreases (rows as int + cols as int) * (n as int) - depth_sum(depths@),
    {
        let ghost st = dig_iter(lines, diag, k);
        proof {
            assert(st == (DigState { depths: depths@, dig: dig@ }));
            lemma_step_facts(st, rows as int, cols as int, diag, anchor_r, anchor_c);
        }
        let round = dig_one_round(&depths, &dig, rows, cols, include_diagonals);
        let next_depths = round.0;
        let next_dig = round.1;
        let dug = round.2;
        proof {
            reveal(dig_iter);
            assert(dig_iter(lines, diag, k + 1) == dig_round(
                st,
                rows as int,
                cols as int,
                diag,
            ));
        }
        if !dug {
            // Nothing dug: this round changed no depth, so the current total
            // is the fixed point's.
            proof {
                assert(rows as int <= 65534 && cols as int <= 65534);
                assert((rows as int) * (cols as int) <= 65534 * 65534) by (nonlinear_arith)
                    requires
                        0 <= rows as int <= 65534,
                        0 <= cols as int <= 65534,
                ;
                assert(bound * ((rows as int) * (cols as int)) <= u64::MAX) by (nonlinear_arith)
                    requires
                        0 <= bound <= 65534,
                        0 <= (rows as int) * (cols as int) <= 65534 * 65534,
                ;
                assert(depth_sum(depths@) <= u64::MAX);
            }
            let total = sum_depths(&depths);
            proof {
                assert(!digs(dig_iter(lines, diag, k), rows as int, cols as int, diag));
                assert(total as int == depth_sum(dig_iter(lines, diag, k).depths));
                assert({
                    &&& 0 <= k
                    &&& (forall|j: int|
                        0 <= j < k ==> digs(
                            #[trigger] dig_iter(lines, diag, j),
                            lines.len() as int,
                            lines[0].len() as int,
                            diag,
                        ))
                    &&& !digs(
                        dig_iter(lines, diag, k),
                        lines.len() as int,
                        lines[0].len() as int,
                        diag,
                    )
                    &&& total as int == depth_sum(dig_iter(lines, diag, k).depths)
                });
            }
            return total;
        }
        depths = next_depths;
        dig = next_dig;
        proof {
            k = k + 1;
        }
    }
}

/// The narrow-count dig: the same total as `dig_total`, in the width the
/// plot's tally sheet uses. The caller must know that the total never
/// outgrows that width — the rounds only ever deepen the plot, so the
/// bound over every round amounts to a bound on the final total. For a
/// caller that cannot establish it, `dig_total` reports the same count
/// without any such bound.
pub fn solve(input: &str, include_diagonals: bool) -> (r: u16)
    requires
        wf_plot(split_lines(input.spec_bytes())),
        forall|k: int|
            0 <= k ==> depth_sum(
                #[trigger] dig_iter(
                    split_lines(input.spec_bytes()),
                    include_diagonals,
                    k,
                ).depths,
            ) <= u16::MAX,
    ensures
        exists|k: int|
            {
                &&& 0 <= k
                &&& (forall|j: int|
                    0 <= j < k ==> digs(
                        #[trigger] dig_iter(split_lines(input.spec_bytes()), include_diagonals, j),
                        split_lines(input.spec_bytes()).len() as int,
                        split_lines(input.spec_bytes())[0].len() as int,
                        include_diagonals,
                    ))
                &&& !digs(
                    #[trigger] dig_iter(split_lines(input.spec_bytes()), include_diagonals, k),
                    split_lines(input.spec_bytes()).len() as int,
                    split_lines(input.spec_bytes())[0].len() as int,
                    include_diagonals,
                )
                &&& r as int == depth_sum(
                    dig_iter(split_lines(input.spec_bytes()), include_diagonals, k).depths,
                )
            },
{
    let total = dig_total(input, include_diagonals);
    proof {
        let lines = split_lines(input.spec_bytes());
        let kk = choose|k: int|
            {
                &&& 0 <= k
                &&& (forall|j: int|
                    0 <= j < k ==> digs(
                        #[trigger] dig_iter(lines, include_diagonals, j),
                        lines.len() as int,
                        lines[0].len() as int,
                        include_diagonals,
                    ))
                &&& !digs(
                    #[trigger] dig_iter(lines, include_diagonals, k),
                    lines.len() as int,
                    lines[0].len() as int,
                    include_diagonals,
                )
                &&& total as int == depth_sum(dig_iter(lines, include_diagonals, k).depths)
            };
        assert(depth_sum(dig_iter(lines, include_diagonals, kk).depths) <= u16::MAX);
    }
    total as u16
}

/// Everything one digging round preserves or improves: the one-level
/// bound, the frozen anchor, the depth bound, and — whenever anything
/// digs — a strictly larger total.
proof fn lemma_step_facts(st: DigState, rows: int, cols: int, diag: bool, ar: int, ac: int)
    requires
        rows > 0,
        cols > 0,
        rows + cols <= 65534,
        st.depths.len() == rows * cols,
        st.dig.len() == rows * cols,
        lipschitz(st.depths, rows, cols),
        0 <= ar < rows,
        0 <= ac < cols,
        st.depths[ar * cols + ac] == 0,
        !st.dig[ar * cols + ac],
    ensures
        dig_round(st, rows, cols, diag).depths.len() == st.depths.len(),
        dig_round(st, rows, cols, diag).dig.len() == st.dig.len(),
        lipschitz(dig_round(st, rows, cols, diag).depths, rows, cols),
        dig_round(st, rows, cols, diag).depths[ar * cols + ac] == 0,
        !dig_round(st, rows, cols, diag).dig[ar * cols + ac],
        forall|j: int|
            0 <= j < st.depths.len() ==> (#[trigger] st.depths[j] as int) <= rows + cols,
        depth_sum(st.depths) <= (rows + cols) * (rows * cols),
        depth_sum(dig_round(st, rows, cols, diag).depths) <= (rows + cols) * (rows * cols),
        digs(st, rows, cols, diag) ==> depth_sum(st.depths) < depth_sum(
            dig_round(st, rows, cols, diag).depths,
        ),
        !digs(st, rows, cols, diag) ==> dig_round(st, rows, cols, diag).depths == st.depths,
{
    reveal(dig_round);
    reveal(can_dig);
    let bound = rows + cols;
    let aid = ar * cols + ac;
    let nd = dig_round(st, rows, cols, diag);
    lemma_cell_ids(rows, cols, ar, ac);
    lemma_depths_bounded(st.depths, rows, cols, ar, ac);
    lemma_depth_sum_le_bound(st.depths, bound);
    assert(st.depths.len() * bound == bound * (rows * cols)) by (nonlinear_arith)
        requires
            st.depths.len() == rows * cols,
    ;
    lemma_round_lipschitz(st, rows, cols, diag);
    assert(!can_dig(st, rows, cols, aid, diag));
    assert(nd.depths[aid] == st.depths[aid]);
    assert(!nd.dig[aid]);
    lemma_depths_bounded(nd.depths, rows, cols, ar, ac);
    lemma_depth_sum_le_bound(nd.depths, bound);
    assert(nd.depths.len() * bound == bound * (rows * cols)) by (nonlinear_arith)
        requires
            nd.depths.len() == rows * cols,
    ;
    if digs(st, rows, cols, diag) {
        let w = choose|j: int|
            0 <= j < st.depths.len() && #[trigger] can_dig(st, rows, cols, j, diag);
        assert(st.depths[w] as int <= bound);
        assert((nd.depths[w] as int) == st.depths[w] as int + 1);
        assert forall|j: int| 0 <= j < st.depths.len() implies (#[trigger] st.depths[j] as int)
            <= nd.depths[j] as int by {
            if can_dig(st, rows, cols, j, diag) {
                assert(st.depths[j] as int <= bound);
            }
        }
        lemma_depth_sum_grows(st.depths, nd.depths, w);
    } else {
        assert forall|j: int| 0 <= j < nd.depths.len() implies (#[trigger] nd.depths[j])
            == st.depths[j] by {
            assert(!can_dig(st, rows, cols, j, diag));
        }
        assert(nd.depths =~= st.depths);
    }
}

/// Adds up every cell's depth.
fn sum_depths(depths: &Vec<u16>) -> (total: u64)
    requires
        depth_sum(depths@) <= u64::MAX,
    ensures
        total as int == depth_sum(depths@),
{
    let n = depths.len();
    let mut total: u64 = 0;
    let mut j: usize = 0;
    proof {
        assert(depths@.take(0) =~= Seq::<u16>::empty());
        lemma_depth_sum_prefix(depths@, 0);
    }
    while j < n
        invariant
            n == depths@.len(),
            0 <= j <= n,
            depth_sum(depths@) <= u64::MAX,
            total as int == depth_sum(depths@.take(j as int)),
        decreases n - j,
    {
        proof {
            lemma_depth_sum_prefix(depths@, j as int + 1);
            let t = depths@.take(j as int + 1);
            assert(t.drop_last() =~= depths@.take(j as int));
            assert(t.last() == depths@[j as int]);
        }
        total = total + (depths[j] as u64);
        j += 1;
    }
    proof {
        assert(depths@.take(n as int) =~= depths@);
    }
    total
}

/// Performs one digging round, returning the next depths, the next
/// diggable flags, and whether anything dug.
fn dig_one_round(
    depths: &Vec<u16>,
    dig: &Vec<bool>,
    rows: usize,
    cols: usize,
    include_diagonals: bool,
) -> (round: (Vec<u16>, Vec<bool>, bool))
    requires
        rows > 0,
        cols > 0,
        rows + cols <= 65534,
        rows * cols <= usize::MAX,
        depths@.len() == rows * cols,
        dig@.len() == rows * cols,
        forall|j: int|
            0 <= j < depths@.len() ==> (#[trigger] depths@[j] as int) <= rows as int + cols as int,
    ensures
        round.0@ == dig_round(
            DigState { depths: depths@, dig: dig@ },
            rows as int,
            cols as int,
            include_diagonals,
        ).depths,
        round.1@ == dig_round(
            DigState { depths: depths@, dig: dig@ },
            rows as int,
            cols as int,
            include_diagonals,
        ).dig,
        round.2 == digs(
            DigState { depths: depths@, dig: dig@ },
            rows as int,
            cols as int,
            include_diagonals,
        ),
{
    let ghost st = DigState { depths: depths@, dig: dig@ };
    let ghost diag = include_diagonals;
    let ghost bound = rows as int + cols as int;
    let n = rows * cols;
    let mut next_depths: Vec<u16> = Vec::new();
    let mut next_dig: Vec<bool> = Vec::new();
    let mut dug = false;
    let mut i: usize = 0;
    while i < n
        invariant
            rows > 0,
            cols > 0,
            rows + cols <= 65534,
            n == rows * cols,
            n <= usize::MAX,
            bound == rows as int + cols as int,
            depths@.len() == n,
            dig@.len() == n,
            st.depths == depths@,
            st.dig == dig@,
            0 <= i <= n,
            next_depths@.len() == i,
            next_dig@.len() == i,
            forall|j: int|
                0 <= j < i ==> (#[trigger] next_depths@[j]) == dig_round(
                    st,
                    rows as int,
                    cols as int,
                    diag,
                ).depths[j],
            forall|j: int|
                0 <= j < i ==> (#[trigger] next_dig@[j]) == dig_round(
                    st,
                    rows as int,
                    cols as int,
                    diag,
                ).dig[j],
            dug == exists|j: int|
                0 <= j < i && #[trigger] can_dig(st, rows as int, cols as int, j, diag),
            forall|j: int|
                0 <= j < depths@.len() ==> (#[trigger] depths@[j] as int) <= bound,
            diag == include_diagonals,
        decreases n - i,
    {
        proof {
            lemma_decode(i as int, rows as int, cols as int);
        }
        let r = i / cols;
        let c = i % cols;
        let d = depths[i];
        let can = check_cell(depths, dig, rows, cols, i, r, c, include_diagonals);
        proof {
            reveal(dig_round);
            assert(st == (DigState { depths: depths@, dig: dig@ }));
            assert(can == can_dig(st, rows as int, cols as int, i as int, diag));
        }
        if can {
            proof {
                assert(d as int <= bound);
            }
            next_depths.push(d + 1);
            dug = true;
        } else {
            next_depths.push(d);
        }
        next_dig.push(can);
        i += 1;
    }
    proof {
        reveal(dig_round);
        assert(next_depths@ =~= dig_round(st, rows as int, cols as int, diag).depths);
        assert(next_dig@ =~= dig_round(st, rows as int, cols as int, diag).dig);
        assert(dug == digs(st, rows as int, cols as int, diag));
    }
    (next_depths, next_dig, dug)
}

/// Whether flat cell `i` at (r, c) digs this round; mirrors `can_dig`.
fn check_cell(
    depths: &Vec<u16>,
    dig: &Vec<bool>,
    rows: usize,
    cols: usize,
    i: usize,
    r: usize,
    c: usize,
    include_diagonals: bool,
) -> (can: bool)
    requires
        rows > 0,
        cols > 0,
        rows + cols <= 65534,
        rows * cols <= usize::MAX,
        depths@.len() == rows * cols,
        dig@.len() == rows * cols,
        (i as int) < rows * cols,
        r as int == i as int / (cols as int),
        c as int == i as int % (cols as int),
    ensures
        can == can_dig(
            DigState { depths: depths@, dig: dig@ },
            rows as int,
            cols as int,
            i as int,
            include_diagonals,
        ),
{
    let ghost st = DigState { depths: depths@, dig: dig@ };
    let ghost diag = include_diagonals;
    proof {
        lemma_decode(i as int, rows as int, cols as int);
    }
    let d = depths[i];
    let can: bool = if !dig[i] {
        false
    } else if include_diagonals {
        let mut ok = true;
        if r > 0 {
            proof {
                lemma_cell_ids(rows as int, cols as int, r as int - 1, c as int);
                assert((r as int - 1) * (cols as int) + c as int == i as int - cols as int)
                    by (nonlinear_arith)
                    requires
                        i as int == (r as int) * (cols as int) + c as int,
                ;
            }
            ok = ok && depths[i - cols] == d;
        } else {
            ok = ok && d == 0;
        }
        if r + 1 < rows {
            proof {
                lemma_cell_ids(rows as int, cols as int, r as int + 1, c as int);
                assert((r as int + 1) * (cols as int) + c as int == i as int + cols as int)
                    by (nonlinear_arith)
                    requires
                        i as int == (r as int) * (cols as int) + c as int,
                ;
            }
            ok = ok && depths[i + cols] == d;
        } else {
            ok = ok && d == 0;
        }
        if c > 0 {
            ok = ok && depths[i - 1] == d;
        } else {
            ok = ok && d == 0;
        }
        if c + 1 < cols {
            proof {
                lemma_cell_ids(rows as int, cols as int, r as int, c as int + 1);
            }
            ok = ok && depths[i + 1] == d;
        } else {
            ok = ok && d == 0;
        }
        ok = ok && corner_matches(&depths, rows, cols, r, c, d, true, true);
        ok = ok && corner_matches(&depths, rows, cols, r, c, d, true, false);
        ok = ok && corner_matches(&depths, rows, cols, r, c, d, false, true);
        ok = ok && corner_matches(&depths, rows, cols, r, c, d, false, false);
        proof {
            assert(ok == level_with_neighbors(
                st,
                rows as int,
                cols as int,
                r as int,
                c as int,
                true,
            ));
        }
        ok
    } else {
        let mut ok = true;
        if r > 0 {
            proof {
                lemma_cell_ids(rows as int, cols as int, r as int - 1, c as int);
                assert((r as int - 1) * (cols as int) + c as int == i as int - cols as int)
                    by (nonlinear_arith)
                    requires
                        i as int == (r as int) * (cols as int) + c as int,
                ;
            }
            ok = ok && depths[i - cols] == d;
        }
        if r + 1 < rows {
            proof {
                lemma_cell_ids(rows as int, cols as int, r as int + 1, c as int);
                assert((r as int + 1) * (cols as int) + c as int == i as int + cols as int)
                    by (nonlinear_arith)
                    requires
                        i as int == (r as int) * (cols as int) + c as int,
                ;
            }
            ok = ok && depths[i + cols] == d;
        }
        if c > 0 {
            ok = ok && depths[i - 1] == d;
        }
        if c + 1 < cols {
            proof {
                lemma_cell_ids(rows as int, cols as int, r as int, c as int + 1);
            }
            ok = ok && depths[i + 1] == d;
        }
        proof {
            assert(ok == level_with_neighbors(
                st,
                rows as int,
                cols as int,
                r as int,
                c as int,
                false,
            ));
        }
        ok
    };
    proof {
        reveal(can_dig);
        assert(can == can_dig(st, rows as int, cols as int, i as int, diag));
    }
    can
}

/// Whether the corner neighbor matches depth `d`, with the outside at 0.
fn corner_matches(
    depths: &Vec<u16>,
    rows: usize,
    cols: usize,
    r: usize,
    c: usize,
    d: u16,
    up: bool,
    left: bool,
) -> (ok: bool)
    requires
        rows > 0,
        cols > 0,
        rows + cols <= 65534,
        rows * cols <= usize::MAX,
        depths@.len() == rows * cols,
        r < rows,
        c < cols,
    ensures
        ok == (depth_or_zero(
            depths@,
            rows as int,
            cols as int,
            if up {
                r as int - 1
            } else {
                r as int + 1
            },
            if left {
                c as int - 1
            } else {
                c as int + 1
            },
        ) == d as int),
{
    let rr: i64 = if up {
        r as i64 - 1
    } else {
        r as i64 + 1
    };
    let cc: i64 = if left {
        c as i64 - 1
    } else {
        c as i64 + 1
    };
    if 0 <= rr && rr < rows as i64 && 0 <= cc && cc < cols as i64 {
        proof {
            lemma_cell_ids(rows as int, cols as int, rr as int, cc as int);
        }
        let idx: usize = (rr as usize) * cols + (cc as usize);
        depths[idx] == d
    } else {
        d == 0
    }
}

/// Bounded cells make a bounded total.
proof fn lemma_depth_sum_le_bound(s: Seq<u16>, bound: int)
    requires
        forall|j: int| 0 <= j < s.len() ==> (#[trigger] s[j] as int) <= bound,
        0 <= bound,
    ensures
        depth_sum(s) <= s.len() * bound,
    decreases s.len(),
{
    if s.len() > 0 {
        assert forall|j: int| 0 <= j < s.drop_last().len() implies (
        #[trigger] s.drop_last()[j] as int) <= bound by {
            assert(s.drop_last()[j] == s[j]);
        }
        lemma_depth_sum_le_bound(s.drop_last(), bound);
        assert((s.len() - 1) * bound + bound == s.len() * bound) by (nonlinear_arith);
    }
}

} // verus!
