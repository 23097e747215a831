use vstd::prelude::*;

use crate::aggregate::Aggregator;
use crate::collect_space::CollectSpace;
use crate::driver::distance_map_ok;
use crate::driver::dv;
use crate::driver::overflow_report;
use crate::driver::SearchDriver;
use crate::errors::SearchError;
use crate::grid_model::lemma_decode;
use crate::grid_model::Connectivity;
use crate::grid_model::GridModel;
use crate::paths::cost_width_ok;
use crate::paths::goal_reachable;
use crate::paths::is_optimal_goal_cost;
use crate::paths::reaches;
use crate::plain_space::GoalKind;
use crate::plain_space::PlainSpace;
use crate::space::StateSpace;

verus! {

/// The first column of the top row holding an open cell, scanning from
/// column `c`.
pub open spec fn entry_col_from(grid: &GridModel, c: int) -> Option<int>
    decreases grid.cols_spec() - c,
{
    if c < 0 || c >= grid.cols_spec() {
        None
    } else if grid.cell_spec(0, c) == 46 {
        Some(c)
    } else {
        entry_col_from(grid, c + 1)
    }
}

/// The first open cell of the top row: where the herbalist walks in.
pub open spec fn entry_col(grid: &GridModel) -> Option<int> {
    entry_col_from(grid, 0)
}

/// Finds the entry column.
fn find_entry_col(grid: &GridModel) -> (r: Option<usize>)
    requires
        grid.wf(),
    ensures
        match r {
            None => entry_col(grid) is None,
            Some(c) => entry_col(grid) == Some(c as int) && c < grid.cols_spec(),
        },
{
    let cols = grid.width();
    let mut c: usize = 0;
    while c < cols
        invariant
            grid.wf(),
            cols == grid.cols_spec(),
            0 <= c <= cols,
            entry_col(grid) == entry_col_from(grid, c as int),
        decreases cols - c,
    {
        match grid.cell(0, c) {
            Some(b) => {
                if b == 46 {
                    return Some(c);
                }
            },
            None => {
                proof {
                    assert(false);
                }
            },
        }
        c += 1;
    }
    None
}

/// The impassable symbols of the walk-in search.
pub open spec fn herb_open_walls() -> Seq<u8> {
    seq![35u8]
}

/// The impassable symbols of the collect searches: walls and water.
pub open spec fn herb_collect_walls() -> Seq<u8> {
    seq![35u8, 126u8]
}

/// The walk-in search: plain four-connected movement among non-wall
/// cells from the top-row entry, with unit steps.
pub open spec fn herb_walk_setup(sp: &PlainSpace, grid: &GridModel, walls: Seq<u8>) -> bool {
    &&& sp.rows == grid.rows_spec()
    &&& sp.cols == grid.cols_spec()
    &&& sp.conn == Connectivity::Four
    &&& sp.step_cost == 1
    &&& sp.walls@ == walls
    &&& sp.starts@.len() == 1
    &&& entry_col(grid) == Some(sp.starts@[0].0.1 as int)
    &&& sp.starts@[0].0.0 == 0
    &&& sp.starts@[0].1 == 0
}

/// Builds the walk-in space.
fn make_walk_space(grid: &GridModel, entry: usize, walls: Vec<u8>, goal: GoalKind) -> (sp:
    PlainSpace)
    requires
        grid.wf(),
        entry_col(grid) == Some(entry as int),
        (entry as int) < grid.cols_spec(),
        match goal {
            GoalKind::AtCell(r, c) => grid.in_bounds(r as int, c as int),
            GoalKind::OnSymbol(_) => true,
        },
    ensures
        herb_walk_setup(&sp, grid, walls@),
        sp.goal == goal,
        sp.inv(),
        sp.fits(grid),
{
    let n_stored: usize = grid.cells.len();
    proof {
        assert((grid.rows_spec()) * (grid.cols_spec()) == n_stored as int);
    }
    let mut starts: Vec<((usize, usize), u64)> = Vec::new();
    starts.push(((0, entry), 0));
    PlainSpace {
        rows: grid.height(),
        cols: grid.width(),
        starts,
        walls,
        conn: Connectivity::Four,
        goal,
        step_cost: 1,
    }
}

/// The time to walk from the entry to the nearest herb cell `'H'` and
/// back out again: twice the one-way optimum. Fails with `MalformedGrid`
/// when the top row has no open entry cell.
pub fn solve_part1(grid: &GridModel) -> (r: Result<u64, SearchError>)
    requires
        grid.wf(),
    ensures
        match r {
            Ok(t) => exists|sp: PlainSpace|
                {
                    &&& #[trigger] herb_walk_setup(&sp, grid, herb_open_walls())
                    &&& sp.goal == GoalKind::OnSymbol(72u8)
                    &&& exists|c: int| is_optimal_goal_cost(&sp, grid, c) && t as int == 2 * c
                },
            Err(SearchError::MalformedGrid) => entry_col(grid) is None,
            Err(SearchError::UnreachableGoal) => exists|sp: PlainSpace|
                {
                    &&& #[trigger] herb_walk_setup(&sp, grid, herb_open_walls())
                    &&& sp.goal == GoalKind::OnSymbol(72u8)
                    &&& !goal_reachable(&sp, grid)
                },
            Err(SearchError::CostOverflow) => exists|sp: PlainSpace|
                #[trigger] herb_walk_setup(&sp, grid, herb_open_walls()) && (!cost_width_ok(
                    &sp,
                    grid,
                ) || (exists|c: int|
                    is_optimal_goal_cost(&sp, grid, c) && 2 * c > u64::MAX)),
        },
{
    let entry = match find_entry_col(grid) {
        Some(c) => c,
        None => {
            return Err(SearchError::MalformedGrid);
        },
    };
    let mut walls: Vec<u8> = Vec::new();
    walls.push(35);
    let sp = make_walk_space(grid, entry, walls, GoalKind::OnSymbol(72));
    let result = Aggregator::round_trip(&sp, grid);
    proof {
        assert(herb_walk_setup(&sp, grid, herb_open_walls()));
    }
    result
}

/// The distinct marker symbols (capital letters) of the grid, in
/// row-major order of first appearance, among the first `idx` cells. The
/// alphabet holds 26 capitals, so the list never grows past 26.
pub open spec fn markers_upto(grid: &GridModel, idx: int) -> Seq<u8>
    decreases idx,
{
    if idx <= 0 {
        Seq::empty()
    } else {
        let prev = markers_upto(grid, idx - 1);
        let sym = grid.cell_spec((idx - 1) / grid.cols_spec(), (idx - 1) % grid.cols_spec());
        if 65 <= sym <= 90 && !prev.contains(sym) && prev.len() < 26 {
            prev.push(sym)
        } else {
            prev
        }
    }
}

/// The marker list never repeats a symbol.
proof fn lemma_markers_distinct(grid: &GridModel, idx: int)
    ensures
        forall|a: int, b: int|
            0 <= a < b < markers_upto(grid, idx).len() ==> (#[trigger] markers_upto(grid, idx)[a])
                != (#[trigger] markers_upto(grid, idx)[b]),
    decreases idx,
{
    if idx > 0 {
        lemma_markers_distinct(grid, idx - 1);
        let prev = markers_upto(grid, idx - 1);
        let cur = markers_upto(grid, idx);
        if cur.len() == prev.len() + 1 {
            let sym = cur.last();
            assert(!prev.contains(sym));
            assert forall|a: int, b: int| 0 <= a < b < cur.len() implies (#[trigger] cur[a]) != (
            #[trigger] cur[b]) by {
                if b < prev.len() {
                    assert(cur[a] == prev[a] && cur[b] == prev[b]);
                } else {
                    assert(cur[a] == prev[a]);
                    assert(prev.contains(prev[a]));
                }
            }
        }
    }
}

proof fn lemma_markers_short(grid: &GridModel, idx: int)
    ensures
        markers_upto(grid, idx).len() <= 26,
    decreases idx,
{
    if idx > 0 {
        lemma_markers_short(grid, idx - 1);
    }
}

/// All of the grid's distinct marker symbols.
pub open spec fn grid_markers(grid: &GridModel) -> Seq<u8> {
    markers_upto(grid, grid.n_cells())
}

/// Whether the byte is among the first `n` entries.
fn contains_byte(v: &Vec<u8>, b: u8) -> (r: bool)
    ensures
        r == v@.contains(b),
{
    let mut i: usize = 0;
    while i < v.len()
        invariant
            0 <= i <= v@.len(),
            forall|k: int| 0 <= k < i ==> v@[k] != b,
        decreases v@.len() - i,
    {
        if v[i] == b {
            assert(v@[i as int] == b);
            return true;
        }
        i += 1;
    }
    assert(!v@.contains(b));
    false
}

/// Collects the grid's distinct marker symbols in order of first
/// appearance.
fn collect_markers(grid: &GridModel) -> (r: Vec<u8>)
    requires
        grid.wf(),
    ensures
        r@ == grid_markers(grid),
{
    let rows = grid.height();
    let cols = grid.width();
    let n_stored: usize = grid.cells.len();
    proof {
        assert((rows as int) * (cols as int) == n_stored as int);
    }
    let total = rows * cols;
    let mut out: Vec<u8> = Vec::new();
    let mut idx: usize = 0;
    proof {
        assert(out@ =~= markers_upto(grid, 0));
    }
    while idx < total
        invariant
            grid.wf(),
            rows == grid.rows_spec(),
            cols == grid.cols_spec(),
            total == grid.n_cells(),
            0 <= idx <= total,
            out@ == markers_upto(grid, idx as int),
        decreases total - idx,
    {
        proof {
            lemma_decode(idx as int, rows as int, cols as int);
        }
        let r = idx / cols;
        let c = idx % cols;
        match grid.cell(r, c) {
            Some(sym) => {
                if 65 <= sym && sym <= 90 && !contains_byte(&out, sym) && out.len() < 26 {
                    out.push(sym);
                }
            },
            None => {
                proof {
                    assert(false);
                }
            },
        }
        idx += 1;
    }
    out
}

/// Whether bit `i` of a marker mask is set.
pub open spec fn bit_set(m: u64, i: u64) -> bool {
    (m >> i) & 1 == 1
}

proof fn lemma_or_bit(m: u64, j: u64, i: u64)
    requires
        i < 64,
        j < 64,
    ensures
        bit_set(m | (1u64 << j), i) == (i == j || bit_set(m, i)),
{
    assert((((m | (1u64 << j)) >> i) & 1 == 1) == (i == j || ((m >> i) & 1 == 1)))
        by (bit_vector)
        requires
            i < 64u64,
            j < 64u64,
    ;
}

/// Some cell carrying `sym` can be reached in the walk-in space `fl`.
pub open spec fn marker_reachable(grid: &GridModel, fl: &PlainSpace, sym: u8) -> bool {
    exists|cell: int|
        0 <= cell < grid.n_cells() && #[trigger] grid.cell_spec(
            cell / grid.cols_spec(),
            cell % grid.cols_spec(),
        ) == sym && (exists|cc: int| reaches(fl, grid, cell, cc))
}

/// Finds some index of `b` among the marker symbols.
fn index_of_byte(v: &Vec<u8>, b: u8) -> (r: Option<usize>)
    ensures
        match r {
            None => !v@.contains(b),
            Some(i) => i < v@.len() && v@[i as int] == b,
        },
{
    let mut i: usize = 0;
    while i < v.len()
        invariant
            0 <= i <= v@.len(),
            forall|k: int| 0 <= k < i ==> v@[k] != b,
        decreases v@.len() - i,
    {
        if v[i] == b {
            return Some(i);
        }
        i += 1;
    }
    None
}

/// The collect-and-return search built by the two passes: the flood pass
/// `fl` walks the open cells from the entry, and the collect space asks
/// for every marker the flood pass proved reachable, with the entry as
/// both start and final goal. `'#'` and `'~'` cells are impassable.
pub open spec fn herb_collect_setup(csp: &CollectSpace, fl: &PlainSpace, grid: &GridModel) -> bool {
    &&& herb_walk_setup(fl, grid, herb_collect_walls())
    &&& csp.rows == grid.rows_spec()
    &&& csp.cols == grid.cols_spec()
    &&& csp.conn == Connectivity::Four
    &&& csp.walls@ == herb_collect_walls()
    &&& (csp.start.0 as int, csp.start.1 as int) == (0int, entry_col(grid)->Some_0)
    &&& csp.markers@ == grid_markers(grid)
    &&& forall|i: u64|
        i < csp.markers@.len() ==> #[trigger] bit_set(csp.target_mask, i) == marker_reachable(
            grid,
            fl,
            csp.markers@[i as int],
        )
}

/// The time to walk in, collect every reachable marker, and stand on the
/// entry cell again: a flood-fill pass first finds which markers can be
/// reached at all, and the collect search then returns the optimal round
/// tour. Fails with `MalformedGrid` when the top row has no entry.
pub fn solve_part2(grid: &GridModel) -> (r: Result<u64, SearchError>)
    requires
        grid.wf(),
        ((1u64 << grid_markers(grid).len()) as int) * grid.n_cells() <= usize::MAX,
    ensures
        match r {
            Ok(c) => exists|csp: CollectSpace, fl: PlainSpace|
                #[trigger] herb_collect_setup(&csp, &fl, grid) && is_optimal_goal_cost(
                    &csp,
                    grid,
                    c as int,
                ),
            Err(SearchError::MalformedGrid) => entry_col(grid) is None,
            Err(SearchError::UnreachableGoal) => exists|csp: CollectSpace, fl: PlainSpace|
                #[trigger] herb_collect_setup(&csp, &fl, grid) && !goal_reachable(&csp, grid),
            Err(SearchError::CostOverflow) => (exists|fl: PlainSpace|
                #[trigger] herb_walk_setup(&fl, grid, herb_collect_walls()) && overflow_report(
                    &fl,
                    grid,
                )) || (exists|csp: CollectSpace, fl: PlainSpace|
                #[trigger] herb_collect_setup(&csp, &fl, grid) && !cost_width_ok(&csp, grid)),
        },
{
    let entry = match find_entry_col(grid) {
        Some(c) => c,
        None => {
            return Err(SearchError::MalformedGrid);
        },
    };
    let mut walls: Vec<u8> = Vec::new();
    walls.push(35);
    walls.push(126);
    proof {
        assert(walls@ =~= herb_collect_walls());
    }
    let fl = make_walk_space(grid, entry, walls, GoalKind::AtCell(0, entry));
    let dm = match SearchDriver::full_distance_map(&fl, grid) {
        Ok(dm) => dm,
        Err(e) => {
            match e {
                SearchError::CostOverflow => {
                    proof {
                        assert(herb_walk_setup(&fl, grid, herb_collect_walls()));
                    }
                    return Err(SearchError::CostOverflow);
                },
                _ => {
                    proof {
                        assert(false);
                    }
                    return Err(e);
                },
            }
        },
    };
    let markers = collect_markers(grid);
    proof {
        lemma_markers_short(grid, grid.n_cells());
    }
    let rows = grid.height();
    let cols = grid.width();
    let n_stored: usize = grid.cells.len();
    proof {
        assert((rows as int) * (cols as int) == n_stored as int);
    }
    let total = rows * cols;
    let mut mask: u64 = 0;
    let mut idx: usize = 0;
    proof {
        assert forall|i: u64| i < markers@.len() implies #[trigger] bit_set(mask, i) == false by {
            let m = mask;
            assert(((m >> i) & 1) == 0u64) by (bit_vector)
                requires
                    m == 0u64,
            ;
        }
    }
    while idx < total
        invariant
            grid.wf(),
            fl.inv(),
            fl.fits(grid),
            rows == grid.rows_spec(),
            cols == grid.cols_spec(),
            total == grid.n_cells(),
            0 <= idx <= total,
            markers@ == grid_markers(grid),
            markers@.len() <= 26,
            dm@.len() == fl.n_spec(),
            fl.n_spec() == grid.n_cells(),
            distance_map_ok(&fl, grid, dm@),
            forall|i: u64|
                i < markers@.len() ==> #[trigger] bit_set(mask, i) == (exists|cell: int|
                    0 <= cell < idx && grid.cell_spec(
                        cell / grid.cols_spec(),
                        cell % grid.cols_spec(),
                    ) == markers@[i as int] && dm@[cell] is Some),
        decreases total - idx,
    {
        proof {
            lemma_decode(idx as int, rows as int, cols as int);
        }
        let r = idx / cols;
        let c = idx % cols;
        let reached = dm[idx].is_some();
        let ghost mask0 = mask;
        if reached {
            match grid.cell(r, c) {
                Some(sym) => {
                    match index_of_byte(&markers, sym) {
                        Some(pos) => {
                            mask = mask | (1u64 << (pos as u64));
                            proof {
                                assert forall|i: u64| i < markers@.len() implies #[trigger] bit_set(
                                    mask,
                                    i,
                                ) == (exists|cell: int|
                                    0 <= cell < idx + 1 && grid.cell_spec(
                                        cell / grid.cols_spec(),
                                        cell % grid.cols_spec(),
                                    ) == markers@[i as int] && dm@[cell] is Some) by {
                                    lemma_or_bit(mask0, pos as u64, i);
                                    if i == pos as u64 {
                                        assert(grid.cell_spec(
                                            (idx as int) / grid.cols_spec(),
                                            (idx as int) % grid.cols_spec(),
                                        ) == markers@[i as int] && dm@[idx as int] is Some);
                                    } else {
                                        if bit_set(mask, i) {
                                            assert(bit_set(mask0, i));
                                        } else {
                                            if exists|cell: int|
                                                0 <= cell < idx + 1 && grid.cell_spec(
                                                    cell / grid.cols_spec(),
                                                    cell % grid.cols_spec(),
                                                ) == markers@[i as int] && dm@[cell] is Some {
                                                let cell = choose|cell: int|
                                                    0 <= cell < idx + 1 && grid.cell_spec(
                                                        cell / grid.cols_spec(),
                                                        cell % grid.cols_spec(),
                                                    ) == markers@[i as int] && dm@[cell]
                                                        is Some;
                                                lemma_markers_distinct(
                                                    grid,
                                                    grid.n_cells(),
                                                );
                                                assert(cell != idx as int);
                                                assert(bit_set(mask0, i));
                                                assert(false);
                                            }
                                        }
                                    }
                                }
                            }
                        },
                        None => {
                            proof {
                                lemma_mask_skip_cell(grid, markers@, dm@, mask, idx as int);
                            }
                        },
                    }
                },
                None => {
                    proof {
                        assert(false);
                    }
                },
            }
        } else {
            proof {
                lemma_mask_skip_cell(grid, markers@, dm@, mask, idx as int);
            }
        }
        idx += 1;
    }
    let csp = CollectSpace {
        rows,
        cols,
        start: (0, entry),
        walls: {
            let mut w: Vec<u8> = Vec::new();
            w.push(35);
            w.push(126);
            w
        },
        markers,
        target_mask: mask,
        conn: Connectivity::Four,
    };
    proof {
        assert(csp.walls@ =~= herb_collect_walls());
        assert(csp.n_masks() == (1u64 << grid_markers(grid).len()));
        assert forall|i: u64| i < csp.markers@.len() implies #[trigger] bit_set(
            csp.target_mask,
            i,
        ) == marker_reachable(grid, &fl, csp.markers@[i as int]) by {
            if bit_set(mask, i) {
                let cell = choose|cell: int|
                    0 <= cell < grid.n_cells() && grid.cell_spec(
                        cell / grid.cols_spec(),
                        cell % grid.cols_spec(),
                    ) == markers@[i as int] && dm@[cell] is Some;
                assert(reaches(&fl, grid, cell, dv(dm@[cell])));
            } else {
                if marker_reachable(grid, &fl, csp.markers@[i as int]) {
                    let cell = choose|cell: int|
                        0 <= cell < grid.n_cells() && #[trigger] grid.cell_spec(
                            cell / grid.cols_spec(),
                            cell % grid.cols_spec(),
                        ) == markers@[i as int] && (exists|cc: int|
                            reaches(&fl, grid, cell, cc));
                    let cc = choose|cc: int| reaches(&fl, grid, cell, cc);
                    assert(dm@[cell] is Some);
                    assert(false);
                }
            }
        }
        assert(herb_collect_setup(&csp, &fl, grid));
    }
    let result = SearchDriver::find_first_goal(&csp, grid);
    result
}

/// An unmatched cell leaves the mask's meaning unchanged one step on.
proof fn lemma_mask_skip_cell(
    grid: &GridModel,
    markers: Seq<u8>,
    dm: Seq<Option<u64>>,
    mask: u64,
    idx: int,
)
    requires
        grid.wf(),
        0 <= idx < grid.n_cells(),
        forall|i: u64|
            i < markers.len() ==> #[trigger] bit_set(mask, i) == (exists|cell: int|
                0 <= cell < idx && grid.cell_spec(
                    cell / grid.cols_spec(),
                    cell % grid.cols_spec(),
                ) == markers[i as int] && dm[cell] is Some),
        dm[idx] is None || !markers.contains(
            grid.cell_spec(idx / grid.cols_spec(), idx % grid.cols_spec()),
        ),
    ensures
        forall|i: u64|
            i < markers.len() ==> #[trigger] bit_set(mask, i) == (exists|cell: int|
                0 <= cell < idx + 1 && grid.cell_spec(
                    cell / grid.cols_spec(),
                    cell % grid.cols_spec(),
                ) == markers[i as int] && dm[cell] is Some),
{
    assert forall|i: u64| i < markers.len() implies #[trigger] bit_set(mask, i) == (exists|
        cell: int,
    |
        0 <= cell < idx + 1 && grid.cell_spec(cell / grid.cols_spec(), cell % grid.cols_spec())
            == markers[i as int] && dm[cell] is Some) by {
        if bit_set(mask, i) {
        } else {
            if exists|cell: int|
                0 <= cell < idx + 1 && grid.cell_spec(
                    cell / grid.cols_spec(),
                    cell % grid.cols_spec(),
                ) == markers[i as int] && dm[cell] is Some {
                let cell = choose|cell: int|
                    0 <= cell < idx + 1 && grid.cell_spec(
                        cell / grid.cols_spec(),
                        cell % grid.cols_spec(),
                    ) == markers[i as int] && dm[cell] is Some;
                if cell == idx {
                    assert(markers.contains(markers[i as int]));
                    assert(false);
                }
                assert(false);
            }
        }
    }
}

} // verus!
