use vstd::prelude::*;

use crate::driver::overflow_report;
use crate::driver::SearchDriver;
use crate::errors::SearchError;
use crate::grid_model::lemma_decode;
use crate::grid_model::Connectivity;
use crate::grid_model::GridModel;
use crate::level_space::level_of;
use crate::level_space::LevelSpace;
use crate::paths::cost_width_ok;
use crate::paths::goal_reachable;
use crate::paths::is_optimal_cost_to;
use crate::paths::is_optimal_goal_cost;
use crate::paths::reaches;
use crate::plain_space::GoalKind;
use crate::space::StateSpace;

verus! {

/// The first cell at or after flat index `idx`, in row-major order, whose
/// symbol is `sym`.
pub open spec fn first_cell_from(grid: &GridModel, sym: u8, idx: int) -> Option<(int, int)>
    decreases grid.n_cells() - idx,
{
    if idx < 0 || idx >= grid.n_cells() {
        None
    } else if grid.cell_spec(idx / grid.cols_spec(), idx % grid.cols_spec()) == sym {
        Some((idx / grid.cols_spec(), idx % grid.cols_spec()))
    } else {
        first_cell_from(grid, sym, idx + 1)
    }
}

/// The first cell, in row-major order, whose symbol is `sym`.
pub open spec fn first_symbol_cell(grid: &GridModel, sym: u8) -> Option<(int, int)> {
    first_cell_from(grid, sym, 0)
}

/// Finds the first cell carrying `sym`, scanning in row-major order.
pub fn find_symbol_cell(grid: &GridModel, sym: u8) -> (r: Option<(usize, usize)>)
    requires
        grid.wf(),
    ensures
        match r {
            None => first_symbol_cell(grid, sym) is None,
            Some(p) => first_symbol_cell(grid, sym) == Some((p.0 as int, p.1 as int))
                && grid.in_bounds(p.0 as int, p.1 as int),
        },
{
    let rows = grid.height();
    let cols = grid.width();
    let n_stored: usize = grid.cells.len();
    let mut idx: usize = 0;
    proof {
        assert((rows as int) * (cols as int) == n_stored as int);
    }
    let total = rows * cols;
    while idx < total
        invariant
            grid.wf(),
            rows == grid.rows_spec(),
            cols == grid.cols_spec(),
            total == grid.n_cells(),
            0 <= idx <= total,
            first_symbol_cell(grid, sym) == first_cell_from(grid, sym, idx as int),
        decreases total - idx,
    {
        proof {
            lemma_decode(idx as int, rows as int, cols as int);
        }
        let r = idx / cols;
        let c = idx % cols;
        match grid.cell(r, c) {
            Some(b) => {
                if b == sym {
                    return Some((r, c));
                }
            },
            None => {
                proof {
                    assert(false);
                }
            },
        }
        idx += 1;
    }
    None
}

/// The level-cost climb over `grid`: four-connected movement between
/// leveled cells, each step costing 1 plus the wrap-around level distance
/// on a cycle of 10.
pub open spec fn climb_setup(sp: &LevelSpace, grid: &GridModel, start: (int, int)) -> bool {
    &&& sp.rows == grid.rows_spec()
    &&& sp.cols == grid.cols_spec()
    &&& sp.modulus == 10
    &&& sp.step_cost == 1
    &&& sp.conn == Connectivity::Four
    &&& sp.starts@.len() == 1
    &&& (sp.starts@[0].0.0 as int, sp.starts@[0].0.1 as int) == start
    &&& sp.starts@[0].1 == 0
}

/// Builds the climb space from a start cell.
fn make_climb_space(grid: &GridModel, start: (usize, usize), goal: GoalKind) -> (sp: LevelSpace)
    requires
        grid.wf(),
        grid.in_bounds(start.0 as int, start.1 as int),
        match goal {
            GoalKind::AtCell(r, c) => grid.in_bounds(r as int, c as int),
            GoalKind::OnSymbol(_) => true,
        },
    ensures
        climb_setup(&sp, grid, (start.0 as int, start.1 as int)),
        sp.goal == goal,
        sp.inv(),
        sp.fits(grid),
{
    let n_stored: usize = grid.cells.len();
    proof {
        assert((grid.rows_spec()) * (grid.cols_spec()) == n_stored as int);
    }
    let mut starts: Vec<((usize, usize), u64)> = Vec::new();
    starts.push((start, 0));
    let sp = LevelSpace {
        rows: grid.height(),
        cols: grid.width(),
        starts,
        modulus: 10,
        step_cost: 1,
        conn: Connectivity::Four,
        goal,
    };
    proof {
        assert forall|r: int, c: int|
            grid.in_bounds(r, c) && level_of(#[trigger] grid.cell_spec(r, c)) is Some implies (
        level_of(grid.cell_spec(r, c))->Some_0 as int) < sp.modulus by {}
    }
    sp
}

/// The cheapest climb from the cell marked `'S'` to any cell marked `'E'`:
/// a single `FindFirstGoal` run over the level-cost space. Fails with
/// `MalformedGrid` when the grid has no `'S'` cell.
pub fn solve_part12(grid: &GridModel) -> (r: Result<u64, SearchError>)
    requires
        grid.wf(),
    ensures
        match r {
            Ok(c) => exists|sp: LevelSpace|
                {
                    &&& #[trigger] climb_setup(&sp, grid, first_symbol_cell(grid, 83)->Some_0)
                    &&& sp.goal == GoalKind::OnSymbol(69u8)
                    &&& is_optimal_goal_cost(&sp, grid, c as int)
                },
            Err(SearchError::MalformedGrid) => first_symbol_cell(grid, 83) is None,
            Err(SearchError::UnreachableGoal) => exists|sp: LevelSpace|
                {
                    &&& #[trigger] climb_setup(&sp, grid, first_symbol_cell(grid, 83)->Some_0)
                    &&& sp.goal == GoalKind::OnSymbol(69u8)
                    &&& !goal_reachable(&sp, grid)
                },
            Err(SearchError::CostOverflow) => exists|sp: LevelSpace|
                {
                    &&& #[trigger] climb_setup(&sp, grid, first_symbol_cell(grid, 83)->Some_0)
                    &&& sp.goal == GoalKind::OnSymbol(69u8)
                    &&& !cost_width_ok(&sp, grid)
                },
        },
{
    let start = match find_symbol_cell(grid, 83) {
        Some(p) => p,
        None => {
            return Err(SearchError::MalformedGrid);
        },
    };
    let sp = make_climb_space(grid, start, GoalKind::OnSymbol(69));
    let result = SearchDriver::find_first_goal(&sp, grid);
    proof {
        assert(first_symbol_cell(grid, 83)->Some_0 == (start.0 as int, start.1 as int));
        assert(climb_setup(&sp, grid, first_symbol_cell(grid, 83)->Some_0));
    }
    result
}

/// Whether flat cell index `cell` carries symbol `sym`.
pub open spec fn is_symbol_cell(grid: &GridModel, cell: int, sym: u8) -> bool {
    &&& 0 <= cell < grid.n_cells()
    &&& grid.cell_spec(cell / grid.cols_spec(), cell % grid.cols_spec()) == sym
}

/// The cheapest climb from any `'S'` cell down from the summit: one
/// `FullDistanceMap` run from the `'E'` cell, reduced with `min` over the
/// distances of all `'S'` cells. Fails with `MalformedGrid` when the grid
/// has no `'E'` cell, and with `UnreachableGoal` when no `'S'` cell can be
/// reached from it.
pub fn solve_part3(grid: &GridModel) -> (r: Result<u64, SearchError>)
    requires
        grid.wf(),
    ensures
        match r {
            Ok(m) => exists|sp: LevelSpace|
                {
                    &&& #[trigger] climb_setup(&sp, grid, first_symbol_cell(grid, 69)->Some_0)
                    &&& (exists|cell: int|
                        is_symbol_cell(grid, cell, 83) && is_optimal_cost_to(
                            &sp,
                            grid,
                            cell,
                            m as int,
                        ))
                    &&& (forall|cell: int, c: int|
                        is_symbol_cell(grid, cell, 83) && #[trigger] reaches(&sp, grid, cell, c)
                            ==> m as int <= c)
                },
            Err(SearchError::MalformedGrid) => first_symbol_cell(grid, 69) is None,
            Err(SearchError::UnreachableGoal) => exists|sp: LevelSpace|
                {
                    &&& #[trigger] climb_setup(&sp, grid, first_symbol_cell(grid, 69)->Some_0)
                    &&& (forall|cell: int, c: int|
                        is_symbol_cell(grid, cell, 83) ==> !(#[trigger] reaches(&sp, grid, cell, c)))
                },
            Err(SearchError::CostOverflow) => exists|sp: LevelSpace|
                {
                    &&& #[trigger] climb_setup(&sp, grid, first_symbol_cell(grid, 69)->Some_0)
                    &&& overflow_report(&sp, grid)
                },
        },
{
    let summit = match find_symbol_cell(grid, 69) {
        Some(p) => p,
        None => {
            return Err(SearchError::MalformedGrid);
        },
    };
    let sp = make_climb_space(grid, summit, GoalKind::OnSymbol(83));
    proof {
        assert(first_symbol_cell(grid, 69)->Some_0 == (summit.0 as int, summit.1 as int));
        assert(climb_setup(&sp, grid, first_symbol_cell(grid, 69)->Some_0));
    }
    let dm = match SearchDriver::full_distance_map(&sp, grid) {
        Ok(dm) => dm,
        Err(e) => {
            match e {
                SearchError::CostOverflow => {
                    return Err(SearchError::CostOverflow);
                },
                _ => {
                    proof {
                        assert(false);
                    }
                    return Err(e);
                },
            }
        },
    };
    let rows = grid.height();
    let cols = grid.width();
    let n_stored: usize = grid.cells.len();
    proof {
        assert((rows as int) * (cols as int) == n_stored as int);
    }
    let total = rows * cols;
    let mut best: Option<u64> = None;
    let mut idx: usize = 0;
    while idx < total
        invariant
            grid.wf(),
            sp.inv(),
            sp.fits(grid),
            rows == grid.rows_spec(),
            cols == grid.cols_spec(),
            total == grid.n_cells(),
            0 <= idx <= total,
            dm@.len() == sp.n_spec(),
            crate::driver::distance_map_ok(&sp, grid, dm@),
            sp.n_spec() == grid.n_cells(),
            match best {
                None => forall|cell: int, c: int|
                    0 <= cell < idx && is_symbol_cell(grid, cell, 83) ==> !(#[trigger] reaches(
                        &sp,
                        grid,
                        cell,
                        c,
                    )),
                Some(b) => {
                    &&& (exists|cell: int|
                        0 <= cell < idx && is_symbol_cell(grid, cell, 83) && is_optimal_cost_to(
                            &sp,
                            grid,
                            cell,
                            b as int,
                        ))
                    &&& (forall|cell: int, c: int|
                        0 <= cell < idx && is_symbol_cell(grid, cell, 83) && #[trigger] reaches(
                            &sp,
                            grid,
                            cell,
                            c,
                        ) ==> b as int <= c)
                },
            },
        decreases total - idx,
    {
        proof {
            lemma_decode(idx as int, rows as int, cols as int);
        }
        let r = idx / cols;
        let c = idx % cols;
        let is_start = match grid.cell(r, c) {
            Some(b) => b == 83,
            None => false,
        };
        proof {
            assert(is_start == is_symbol_cell(grid, idx as int, 83));
        }
        let ghost best0 = best;
        if is_start {
            match dm[idx] {
                Some(d) => {
                    let newb = match best {
                        None => d,
                        Some(b) => if d < b {
                            d
                        } else {
                            b
                        },
                    };
                    proof {
                        assert(dm@[idx as int] is Some);
                        assert(is_optimal_cost_to(&sp, grid, idx as int, crate::driver::dv(
                            dm@[idx as int],
                        )));
                        assert(crate::driver::dv(dm@[idx as int]) == d as int);
                    }
                    best = Some(newb);
                    proof {
                        assert forall|cell: int, cc: int|
                            0 <= cell < idx + 1 && is_symbol_cell(grid, cell, 83)
                                && #[trigger] reaches(&sp, grid, cell, cc) implies newb as int
                            <= cc by {
                            if cell == idx as int {
                                assert(is_optimal_cost_to(&sp, grid, cell, d as int));
                            } else {
                                match best0 {
                                    Some(b0) => {
                                        assert(b0 as int <= cc);
                                    },
                                    None => {
                                        assert(!reaches(&sp, grid, cell, cc));
                                    },
                                }
                            }
                        }
                        match best0 {
                            Some(b0) => {
                                if d < b0 {
                                    assert(is_optimal_cost_to(&sp, grid, idx as int, newb as int));
                                }
                            },
                            None => {
                                assert(is_optimal_cost_to(&sp, grid, idx as int, newb as int));
                            },
                        }
                    }
                },
                None => {
                    proof {
                        assert(dm@[idx as int] is None);
                        assert forall|cc: int| !(#[trigger] reaches(&sp, grid, idx as int, cc))
                            by {}
                    }
                },
            }
        }
        idx += 1;
    }
    match best {
        Some(b) => Ok(b),
        None => Err(SearchError::UnreachableGoal),
    }
}

} // verus!
