use vstd::prelude::*;

use crate::aggregate::max_goals_post;
use crate::aggregate::sum_goals_post;
use crate::aggregate::Aggregator;
use crate::errors::SearchError;
use crate::grid_model::lemma_decode;
use crate::grid_model::Connectivity;
use crate::grid_model::GridModel;
use crate::plain_space::GoalKind;
use crate::plain_space::PlainSpace;
use crate::space::StateSpace;

verus! {

/// The first cell on the top or left border holding an open channel
/// symbol, scanning row-major from flat index `idx`.
pub open spec fn channel_from(grid: &GridModel, idx: int) -> Option<int>
    decreases grid.n_cells() - idx,
{
    if idx < 0 || idx >= grid.n_cells() {
        None
    } else if (idx / grid.cols_spec() == 0 || idx % grid.cols_spec() == 0) && grid.cell_spec(
        idx / grid.cols_spec(),
        idx % grid.cols_spec(),
    ) == 46 {
        Some(idx)
    } else {
        channel_from(grid, idx + 1)
    }
}

/// Where the water channel enters the plot.
pub open spec fn channel_cell(grid: &GridModel) -> Option<int> {
    channel_from(grid, 0)
}

/// The flat indices of the palm cells among the first `idx` cells.
pub open spec fn palms_upto(grid: &GridModel, idx: int) -> Seq<int>
    decreases idx,
{
    if idx <= 0 {
        Seq::empty()
    } else {
        let prev = palms_upto(grid, idx - 1);
        if grid.cell_spec((idx - 1) / grid.cols_spec(), (idx - 1) % grid.cols_spec()) == 80 {
            prev.push(idx - 1)
        } else {
            prev
        }
    }
}

/// All palm cells of the grid, in row-major order.
pub open spec fn palm_cells(grid: &GridModel) -> Seq<int> {
    palms_upto(grid, grid.n_cells())
}

proof fn lemma_palms_in_range(grid: &GridModel, idx: int)
    requires
        idx <= grid.n_cells(),
    ensures
        forall|j: int|
            0 <= j < palms_upto(grid, idx).len() ==> 0 <= #[trigger] palms_upto(grid, idx)[j]
                < grid.n_cells(),
    decreases idx,
{
    if idx > 0 {
        lemma_palms_in_range(grid, idx - 1);
        let prev = palms_upto(grid, idx - 1);
        let cur = palms_upto(grid, idx);
        if cur.len() == prev.len() + 1 {
            assert forall|j: int| 0 <= j < cur.len() implies 0 <= #[trigger] cur[j]
                < grid.n_cells() by {
                if j < prev.len() {
                    assert(cur[j] == prev[j]);
                }
            }
        }
    }
}

/// Collects the palm cells.
fn collect_palms(grid: &GridModel) -> (r: Vec<usize>)
    requires
        grid.wf(),
    ensures
        r@.map_values(|x: usize| x as int) == palm_cells(grid),
{
    let rows = grid.height();
    let cols = grid.width();
    let n_stored: usize = grid.cells.len();
    proof {
        assert((rows as int) * (cols as int) == n_stored as int);
    }
    let total = rows * cols;
    let mut out: Vec<usize> = Vec::new();
    let mut idx: usize = 0;
    proof {
        assert(out@.map_values(|x: usize| x as int) =~= palms_upto(grid, 0));
    }
    while idx < total
        invariant
            grid.wf(),
            rows == grid.rows_spec(),
            cols == grid.cols_spec(),
            total == grid.n_cells(),
            0 <= idx <= total,
            out@.map_values(|x: usize| x as int) == palms_upto(grid, idx as int),
        decreases total - idx,
    {
        proof {
            lemma_decode(idx as int, rows as int, cols as int);
        }
        let r = idx / cols;
        let c = idx % cols;
        match grid.cell(r, c) {
            Some(sym) => {
                if sym == 80 {
                    out.push(idx);
                }
            },
            None => {
                proof {
                    assert(false);
                }
            },
        }
        proof {
            assert(out@.map_values(|x: usize| x as int) =~= palms_upto(grid, idx as int + 1));
        }
        idx += 1;
    }
    out
}

/// Finds the channel cell.
fn find_channel(grid: &GridModel) -> (r: Option<usize>)
    requires
        grid.wf(),
    ensures
        match r {
            None => channel_cell(grid) is None,
            Some(idx) => channel_cell(grid) == Some(idx as int) && (idx as int) < grid.n_cells(),
        },
{
    let rows = grid.height();
    let cols = grid.width();
    let n_stored: usize = grid.cells.len();
    proof {
        assert((rows as int) * (cols as int) == n_stored as int);
    }
    let total = rows * cols;
    let mut idx: usize = 0;
    while idx < total
        invariant
            grid.wf(),
            rows == grid.rows_spec(),
            cols == grid.cols_spec(),
            total == grid.n_cells(),
            0 <= idx <= total,
            channel_cell(grid) == channel_from(grid, idx as int),
        decreases total - idx,
    {
        proof {
            lemma_decode(idx as int, rows as int, cols as int);
        }
        let r = idx / cols;
        let c = idx % cols;
        if r == 0 || c == 0 {
            match grid.cell(r, c) {
                Some(sym) => {
                    if sym == 46 {
                        return Some(idx);
                    }
                },
                None => {
                    proof {
                        assert(false);
                    }
                },
            }
        }
        idx += 1;
    }
    None
}

/// The watering flood: unit-cost four-connected spread among non-wall
/// cells from the given start cells.
pub open spec fn flood_setup(sp: &PlainSpace, grid: &GridModel) -> bool {
    &&& sp.rows == grid.rows_spec()
    &&& sp.cols == grid.cols_spec()
    &&& sp.conn == Connectivity::Four
    &&& sp.step_cost == 1
    &&& sp.walls@ == seq![35u8]
    &&& forall|k: int| 0 <= k < sp.starts@.len() ==> (#[trigger] sp.starts@[k]).1 == 0
}

/// The time until every palm is watered, for the flood from the single
/// border channel: the largest optimal distance to a palm cell, per
/// `max_goals_post`. Fails with `MalformedGrid` when there is no channel
/// or no palm, and with `UnreachableGoal` when some palm can never be
/// watered.
pub fn solve_part1(grid: &GridModel) -> (r: Result<u64, SearchError>)
    requires
        grid.wf(),
    ensures
        match r {
            Err(SearchError::MalformedGrid) => channel_cell(grid) is None || palm_cells(
                grid,
            ).len() == 0,
            _ => exists|sp: PlainSpace, ts: Seq<usize>|
                {
                    &&& #[trigger] flood_setup(&sp, grid)
                    &&& sp.starts@.len() == 1
                    &&& channel_cell(grid) == Some(
                        (sp.starts@[0].0.0 as int) * grid.cols_spec() + (sp.starts@[0].0.1 as int),
                    )
                    &&& ts.map_values(|x: usize| x as int) == palm_cells(grid)
                    &&& ts.len() > 0
                    &&& #[trigger] max_goals_post(&sp, grid, ts, r)
                },
        },
{
    let channel = match find_channel(grid) {
        Some(c) => c,
        None => {
            return Err(SearchError::MalformedGrid);
        },
    };
    let palms = collect_palms(grid);
    if palms.len() == 0 {
        proof {
            assert(palm_cells(grid).len() == 0);
        }
        return Err(SearchError::MalformedGrid);
    }
    let n_stored: usize = grid.cells.len();
    proof {
        assert((grid.rows_spec()) * (grid.cols_spec()) == n_stored as int);
        lemma_decode(channel as int, grid.rows_spec(), grid.cols_spec());
    }
    let cols = grid.width();
    let start = (channel / cols, channel % cols);
    let mut starts: Vec<((usize, usize), u64)> = Vec::new();
    starts.push((start, 0));
    let mut walls: Vec<u8> = Vec::new();
    walls.push(35);
    let sp = PlainSpace {
        rows: grid.height(),
        cols: grid.width(),
        starts,
        walls,
        conn: Connectivity::Four,
        goal: GoalKind::AtCell(start.0, start.1),
        step_cost: 1,
    };
    proof {
        assert(sp.walls@ =~= seq![35u8]);
        assert(flood_setup(&sp, grid));
        lemma_palms_in_range(grid, grid.n_cells());
        assert forall|j: int| 0 <= j < palms@.len() implies ((#[trigger] palms@[j]) as int)
            < sp.n_spec() by {
            assert(palms@.map_values(|x: usize| x as int)[j] == palm_cells(grid)[j]);
        }
    }
    let result = Aggregator::max_over_goals(&sp, grid, &palms);
    proof {
        assert(max_goals_post(&sp, grid, palms@, result));
    }
    result
}

/// The border cells holding an open channel symbol, among the first `idx`
/// cells: where water enters in the multi-channel plot.
pub open spec fn border_dots_upto(grid: &GridModel, idx: int) -> Seq<int>
    decreases idx,
{
    if idx <= 0 {
        Seq::empty()
    } else {
        let prev = border_dots_upto(grid, idx - 1);
        let r = (idx - 1) / grid.cols_spec();
        let c = (idx - 1) % grid.cols_spec();
        if (r == 0 || c == 0 || r == grid.rows_spec() - 1 || c == grid.cols_spec() - 1)
            && grid.cell_spec(r, c) == 46 {
            prev.push(idx - 1)
        } else {
            prev
        }
    }
}

/// All border channel cells.
pub open spec fn border_dots(grid: &GridModel) -> Seq<int> {
    border_dots_upto(grid, grid.n_cells())
}

/// The time until every palm is watered when water enters at every open
/// border cell at once: one multi-source flood, reduced with `max` over
/// the palms per `max_goals_post`. Fails with `MalformedGrid` when there
/// is no entry or no palm.
pub fn solve_part2(grid: &GridModel) -> (r: Result<u64, SearchError>)
    requires
        grid.wf(),
    ensures
        match r {
            Err(SearchError::MalformedGrid) => border_dots(grid).len() == 0 || palm_cells(
                grid,
            ).len() == 0,
            _ => exists|sp: PlainSpace, ts: Seq<usize>|
                {
                    &&& #[trigger] flood_setup(&sp, grid)
                    &&& sp.starts@.len() == border_dots(grid).len()
                    &&& (forall|k: int|
                        0 <= k < sp.starts@.len() ==> ((#[trigger] sp.starts@[k]).0.0 as int)
                            * grid.cols_spec() + (sp.starts@[k].0.1 as int) == border_dots(
                            grid,
                        )[k])
                    &&& ts.map_values(|x: usize| x as int) == palm_cells(grid)
                    &&& ts.len() > 0
                    &&& #[trigger] max_goals_post(&sp, grid, ts, r)
                },
        },
{
    let rows = grid.height();
    let cols = grid.width();
    let n_stored: usize = grid.cells.len();
    proof {
        assert((rows as int) * (cols as int) == n_stored as int);
    }
    let total = rows * cols;
    let mut starts: Vec<((usize, usize), u64)> = Vec::new();
    let mut idx: usize = 0;
    proof {
        assert(starts@.map_values(
            |p: ((usize, usize), u64)| (p.0.0 as int) * grid.cols_spec() + (p.0.1 as int),
        ) =~= border_dots_upto(grid, 0));
    }
    while idx < total
        invariant
            grid.wf(),
            rows == grid.rows_spec(),
            cols == grid.cols_spec(),
            total == grid.n_cells(),
            0 <= idx <= total,
            starts@.map_values(
                |p: ((usize, usize), u64)| (p.0.0 as int) * grid.cols_spec() + (p.0.1 as int),
            ) == border_dots_upto(grid, idx as int),
            forall|k: int|
                0 <= k < starts@.len() ==> {
                    let p = #[trigger] starts@[k];
                    grid.in_bounds(p.0.0 as int, p.0.1 as int) && p.1 == 0
                },
        decreases total - idx,
    {
        proof {
            lemma_decode(idx as int, rows as int, cols as int);
        }
        let r = idx / cols;
        let c = idx % cols;
        let on_border = r == 0 || c == 0 || r == rows - 1 || c == cols - 1;
        if on_border {
            match grid.cell(r, c) {
                Some(sym) => {
                    if sym == 46 {
                        starts.push(((r, c), 0));
                    }
                },
                None => {
                    proof {
                        assert(false);
                    }
                },
            }
        }
        proof {
            assert(starts@.map_values(
                |p: ((usize, usize), u64)| (p.0.0 as int) * grid.cols_spec() + (p.0.1 as int),
            ) =~= border_dots_upto(grid, idx as int + 1));
        }
        idx += 1;
    }
    if starts.len() == 0 {
        proof {
            assert(border_dots(grid).len() == 0);
        }
        return Err(SearchError::MalformedGrid);
    }
    let palms = collect_palms(grid);
    if palms.len() == 0 {
        proof {
            assert(palm_cells(grid).len() == 0);
        }
        return Err(SearchError::MalformedGrid);
    }
    let mut walls: Vec<u8> = Vec::new();
    walls.push(35);
    let sp = PlainSpace {
        rows,
        cols,
        starts,
        walls,
        conn: Connectivity::Four,
        goal: GoalKind::AtCell(0, 0),
        step_cost: 1,
    };
    proof {
        assert(sp.walls@ =~= seq![35u8]);
        assert(flood_setup(&sp, grid));
        assert(grid.in_bounds(0, 0));
        lemma_palms_in_range(grid, grid.n_cells());
        assert forall|j: int| 0 <= j < palms@.len() implies ((#[trigger] palms@[j]) as int)
            < sp.n_spec() by {
            assert(palms@.map_values(|x: usize| x as int)[j] == palm_cells(grid)[j]);
        }
        assert forall|k: int| 0 <= k < sp.starts@.len() implies ((#[trigger] sp.starts@[k]).0.0
            as int) * grid.cols_spec() + (sp.starts@[k].0.1 as int) == border_dots(grid)[k] by {
            assert(sp.starts@.map_values(
                |p: ((usize, usize), u64)| (p.0.0 as int) * grid.cols_spec() + (p.0.1 as int),
            )[k] == border_dots(grid)[k]);
        }
    }
    let result = Aggregator::max_over_goals(&sp, grid, &palms);
    proof {
        assert(max_goals_post(&sp, grid, palms@, result));
    }
    result
}

/// The flat indices of the open cells among the first `idx` cells: the
/// candidate spots for a single water source.
pub open spec fn open_upto(grid: &GridModel, idx: int) -> Seq<int>
    decreases idx,
{
    if idx <= 0 {
        Seq::empty()
    } else {
        let prev = open_upto(grid, idx - 1);
        if grid.cell_spec((idx - 1) / grid.cols_spec(), (idx - 1) % grid.cols_spec()) == 46 {
            prev.push(idx - 1)
        } else {
            prev
        }
    }
}

/// All open cells of the grid, in row-major order.
pub open spec fn open_cells(grid: &GridModel) -> Seq<int> {
    open_upto(grid, grid.n_cells())
}

proof fn lemma_open_in_range(grid: &GridModel, idx: int)
    requires
        idx <= grid.n_cells(),
    ensures
        forall|j: int|
            0 <= j < open_upto(grid, idx).len() ==> 0 <= #[trigger] open_upto(grid, idx)[j]
                < grid.n_cells(),
    decreases idx,
{
    if idx > 0 {
        lemma_open_in_range(grid, idx - 1);
        let prev = open_upto(grid, idx - 1);
        let cur = open_upto(grid, idx);
        if cur.len() == prev.len() + 1 {
            assert forall|j: int| 0 <= j < cur.len() implies 0 <= #[trigger] cur[j]
                < grid.n_cells() by {
                if j < prev.len() {
                    assert(cur[j] == prev[j]);
                }
            }
        }
    }
}

/// Collects the open cells.
fn collect_open(grid: &GridModel) -> (r: Vec<usize>)
    requires
        grid.wf(),
    ensures
        r@.map_values(|x: usize| x as int) == open_cells(grid),
{
    let rows = grid.height();
    let cols = grid.width();
    let n_stored: usize = grid.cells.len();
    proof {
        assert((rows as int) * (cols as int) == n_stored as int);
    }
    let total = rows * cols;
    let mut out: Vec<usize> = Vec::new();
    let mut idx: usize = 0;
    proof {
        assert(out@.map_values(|x: usize| x as int) =~= open_upto(grid, 0));
    }
    while idx < total
        invariant
            grid.wf(),
            rows == grid.rows_spec(),
            cols == grid.cols_spec(),
            total == grid.n_cells(),
            0 <= idx <= total,
            out@.map_values(|x: usize| x as int) == open_upto(grid, idx as int),
        decreases total - idx,
    {
        proof {
            lemma_decode(idx as int, rows as int, cols as int);
        }
        let r = idx / cols;
        let c = idx % cols;
        match grid.cell(r, c) {
            Some(sym) => {
                if sym == 46 {
                    out.push(idx);
                }
            },
            None => {
                proof {
                    assert(false);
                }
            },
        }
        proof {
            assert(out@.map_values(|x: usize| x as int) =~= open_upto(grid, idx as int + 1));
        }
        idx += 1;
    }
    out
}

/// Builds the flood from one candidate source cell.
fn make_flood_source(grid: &GridModel, cell: usize) -> (sp: PlainSpace)
    requires
        grid.wf(),
        (cell as int) < grid.n_cells(),
    ensures
        flood_setup(&sp, grid),
        sp.inv(),
        sp.fits(grid),
        sp.starts@.len() == 1,
        (sp.starts@[0].0.0 as int) * grid.cols_spec() + (sp.starts@[0].0.1 as int) == cell as int,
        sp.n_spec() == grid.n_cells(),
{
    let n_stored: usize = grid.cells.len();
    let cols = grid.width();
    proof {
        assert((grid.rows_spec()) * (grid.cols_spec()) == n_stored as int);
        lemma_decode(cell as int, grid.rows_spec(), grid.cols_spec());
    }
    let start = (cell / cols, cell % cols);
    let mut starts: Vec<((usize, usize), u64)> = Vec::new();
    starts.push((start, 0));
    let mut walls: Vec<u8> = Vec::new();
    walls.push(35);
    let sp = PlainSpace {
        rows: grid.height(),
        cols: grid.width(),
        starts,
        walls,
        conn: Connectivity::Four,
        goal: GoalKind::AtCell(start.0, start.1),
        step_cost: 1,
    };
    proof {
        assert(sp.walls@ =~= seq![35u8]);
        assert(flood_setup(&sp, grid));
    }
    sp
}

/// What one candidate source achieves: some single-source flood from that
/// cell whose palm-distance sum is reported as `r`.
pub open spec fn candidate_sum_ok(grid: &GridModel, cell: int, r: Result<u64, SearchError>) -> bool {
    exists|sp: PlainSpace, ts: Seq<usize>|
        #![trigger flood_setup(&sp, grid), sum_goals_post(&sp, grid, ts, r)]
        {
            &&& flood_setup(&sp, grid)
            &&& sp.starts@.len() == 1
            &&& (sp.starts@[0].0.0 as int) * grid.cols_spec() + (sp.starts@[0].0.1 as int) == cell
            &&& ts.map_values(|x: usize| x as int) == palm_cells(grid)
            &&& ts.len() > 0
            &&& sum_goals_post(&sp, grid, ts, r)
        }
}

/// The best spot for a single water source: the minimum, over every open
/// cell, of the total watering time from that cell alone — the sum over
/// palms of their optimal distances, per `sum_goals_post`. The runs share
/// nothing, so their order cannot change the minimum; the first failure
/// is propagated. Fails with `MalformedGrid` when there is no open cell
/// or no palm.
pub fn solve_part3(grid: &GridModel) -> (r: Result<u64, SearchError>)
    requires
        grid.wf(),
    ensures
        match r {
            Err(SearchError::MalformedGrid) => open_cells(grid).len() == 0 || palm_cells(
                grid,
            ).len() == 0,
            Ok(m) => exists|sums: Seq<u64>|
                {
                    &&& #[trigger] sums.len() == open_cells(grid).len()
                    &&& (forall|i: int|
                        0 <= i < sums.len() ==> candidate_sum_ok(
                            grid,
                            open_cells(grid)[i],
                            Ok(#[trigger] sums[i]),
                        ))
                    &&& (forall|i: int| 0 <= i < sums.len() ==> m <= #[trigger] sums[i])
                    &&& (exists|i: int| 0 <= i < sums.len() && m == #[trigger] sums[i])
                },
            _ => exists|i: int|
                0 <= i < open_cells(grid).len() && candidate_sum_ok(
                    grid,
                    #[trigger] open_cells(grid)[i],
                    r,
                ),
        },
{
    let palms = collect_palms(grid);
    if palms.len() == 0 {
        proof {
            assert(palm_cells(grid).len() == 0);
        }
        return Err(SearchError::MalformedGrid);
    }
    let opens = collect_open(grid);
    if opens.len() == 0 {
        proof {
            assert(open_cells(grid).len() == 0);
        }
        return Err(SearchError::MalformedGrid);
    }
    proof {
        lemma_open_in_range(grid, grid.n_cells());
        lemma_palms_in_range(grid, grid.n_cells());
        assert forall|i: int| 0 <= i < opens@.len() implies ((#[trigger] opens@[i]) as int)
            < grid.n_cells() by {
            assert(opens@.map_values(|x: usize| x as int)[i] == open_cells(grid)[i]);
        }
    }
    let sp0 = make_flood_source(grid, opens[0]);
    proof {
        lemma_palms_in_range(grid, grid.n_cells());
        assert forall|j: int| 0 <= j < palms@.len() implies ((#[trigger] palms@[j]) as int)
            < sp0.n_spec() by {
            assert(palms@.map_values(|x: usize| x as int)[j] == palm_cells(grid)[j]);
        }
    }
    let first = Aggregator::sum_over_goals(&sp0, grid, &palms);
    let mut m: u64 = match first {
        Ok(v) => v,
        Err(e) => {
            proof {
                assert(opens@.map_values(|x: usize| x as int)[0] == open_cells(grid)[0]);
                assert(candidate_sum_ok(grid, open_cells(grid)[0], first));
            }
            return Err(e);
        },
    };
    let ghost mut sums: Seq<u64> = seq![m];
    proof {
        assert(opens@.map_values(|x: usize| x as int)[0] == open_cells(grid)[0]);
        assert(candidate_sum_ok(grid, open_cells(grid)[0], Ok(m)));
        assert(sums[0] == m);
    }
    let mut i: usize = 1;
    while i < opens.len()
        invariant
            grid.wf(),
            1 <= i <= opens@.len(),
            opens@.map_values(|x: usize| x as int) == open_cells(grid),
            palms@.map_values(|x: usize| x as int) == palm_cells(grid),
            palms@.len() > 0,
            forall|k: int| 0 <= k < opens@.len() ==> ((#[trigger] opens@[k]) as int)
                < grid.n_cells(),
            sums.len() == i,
            forall|k: int|
                0 <= k < i ==> candidate_sum_ok(
                    grid,
                    open_cells(grid)[k],
                    Ok(#[trigger] sums[k]),
                ),
            forall|k: int| 0 <= k < i ==> m <= #[trigger] sums[k],
            exists|k: int| 0 <= k < i && m == #[trigger] sums[k],
        decreases opens@.len() - i,
    {
        let sp = make_flood_source(grid, opens[i]);
        proof {
            lemma_palms_in_range(grid, grid.n_cells());
            assert forall|j: int| 0 <= j < palms@.len() implies ((#[trigger] palms@[j]) as int)
                < sp.n_spec() by {
                assert(palms@.map_values(|x: usize| x as int)[j] == palm_cells(grid)[j]);
            }
        }
        let res = Aggregator::sum_over_goals(&sp, grid, &palms);
        let ghost m0 = m;
        let ghost sums0 = sums;
        match res {
            Ok(v) => {
                proof {
                    assert(opens@.map_values(|x: usize| x as int)[i as int] == open_cells(
                        grid,
                    )[i as int]);
                    assert(candidate_sum_ok(grid, open_cells(grid)[i as int], Ok(v)));
                    sums = sums.push(v);
                }
                if v < m {
                    m = v;
                    proof {
                        assert(sums[i as int] == v);
                    }
                } else {
                    proof {
                        let k = choose|k: int| 0 <= k < i && m0 == #[trigger] sums0[k];
                        assert(sums[k] == sums0[k]);
                    }
                }
            },
            Err(e) => {
                proof {
                    assert(opens@.map_values(|x: usize| x as int)[i as int] == open_cells(
                        grid,
                    )[i as int]);
                    assert(candidate_sum_ok(grid, open_cells(grid)[i as int], res));
                }
                return Err(e);
            },
        }
        i += 1;
    }
    proof {
        assert(sums.len() == open_cells(grid).len());
    }
    Ok(m)
}

} // verus!
