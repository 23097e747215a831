use vstd::prelude::*;

use crate::grid_model::lemma_decode;
use crate::grid_model::lemma_row_major;
use crate::grid_model::Connectivity;
use crate::grid_model::GridModel;
use crate::paths::goal_trace;
use crate::paths::lemma_trace_wf;
use crate::paths::step_ok;
use crate::paths::valid_trace;
use crate::plain_space::GoalKind;
use crate::prune::prune_sound_for;
use crate::prune::CostCeiling;
use crate::prune::PruningPolicy;
use crate::space::pairs_view;
use crate::space::StateSpace;

verus! {

/// Budgeted movement: the state is a position plus a resource counter.
/// Entering a cell applies that cell symbol's delta to the counter; a step
/// whose new counter would leave `0..=cap` is illegal, and a symbol with
/// no delta is a wall. Every legal step costs 1 unit of elapsed time.
pub struct BudgetSpace {
    /// The grid height this space was built for.
    pub rows: usize,
    /// The grid width this space was built for.
    pub cols: usize,
    /// The starting position.
    pub start: (usize, usize),
    /// The resource counter at the start.
    pub start_budget: u64,
    /// The largest value the counter may take.
    pub cap: u64,
    /// Per-symbol counter deltas; the first match counts, absent symbols
    /// are walls.
    pub deltas: Vec<(u8, i64)>,
    pub conn: Connectivity,
    pub goal: GoalKind,
}

impl BudgetSpace {
    /// The row-major index of position (r, c).
    pub open spec fn cell_id(&self, r: int, c: int) -> int {
        r * (self.cols as int) + c
    }

    pub open spec fn n_cells(&self) -> int {
        (self.rows as int) * (self.cols as int)
    }

    /// The counter delta of a symbol, scanning the table from index `i`.
    pub open spec fn delta_from(&self, sym: u8, i: int) -> Option<i64>
        decreases self.deltas@.len() - i,
    {
        if i < 0 || i >= self.deltas@.len() {
            None
        } else if self.deltas@[i].0 == sym {
            Some(self.deltas@[i].1)
        } else {
            self.delta_from(sym, i + 1)
        }
    }

    /// The counter delta a symbol applies, or nothing for a wall.
    pub open spec fn delta_of(&self, sym: u8) -> Option<i64> {
        self.delta_from(sym, 0)
    }

    /// The executable delta lookup.
    fn delta_exec(&self, sym: u8) -> (r: Option<i64>)
        ensures
            r == self.delta_of(sym),
    {
        let mut i: usize = 0;
        while i < self.deltas.len()
            invariant
                0 <= i <= self.deltas@.len(),
                self.delta_of(sym) == self.delta_from(sym, i as int),
            decreases self.deltas@.len() - i,
        {
            let (t, d) = self.deltas[i];
            if t == sym {
                return Some(d);
            }
            i += 1;
        }
        None
    }

    /// The edges contributed by the first `i` enumerated neighbors, from
    /// counter value `b`.
    pub open spec fn edges_upto(&self, nbrs: Seq<((int, int), u8)>, b: int, i: int) -> Seq<
        (int, int),
    >
        decreases i,
    {
        if i <= 0 {
            Seq::empty()
        } else {
            self.edges_upto(nbrs, b, i - 1) + match self.delta_of(nbrs[i - 1].1) {
                None => Seq::empty(),
                Some(d) => {
                    if 0 <= b + d <= self.cap {
                        seq![
                            (
                                (b + d) * self.n_cells() + self.cell_id(
                                    nbrs[i - 1].0.0,
                                    nbrs[i - 1].0.1,
                                ),
                                1int,
                            ),
                        ]
                    } else {
                        Seq::empty()
                    }
                },
            }
        }
    }
}

impl StateSpace for BudgetSpace {
    open spec fn inv(&self) -> bool {
        &&& self.rows > 0
        &&& self.cols > 0
        &&& self.rows * self.cols <= usize::MAX
        &&& self.cap <= i64::MAX
        &&& self.start_budget <= self.cap
        &&& ((self.cap + 1) as int) * self.n_cells() <= usize::MAX
    }

    open spec fn fits(&self, grid: &GridModel) -> bool {
        &&& grid.rows_spec() == self.rows
        &&& grid.cols_spec() == self.cols
        &&& grid.in_bounds(self.start.0 as int, self.start.1 as int)
        &&& match self.goal {
            GoalKind::AtCell(r, c) => grid.in_bounds(r as int, c as int),
            GoalKind::OnSymbol(_) => true,
        }
    }

    open spec fn n_spec(&self) -> int {
        ((self.cap + 1) as int) * self.n_cells()
    }

    open spec fn edges_spec(&self, grid: &GridModel, s: int) -> Seq<(int, int)> {
        let b = s / self.n_cells();
        let cell = s % self.n_cells();
        let r = cell / (self.cols as int);
        let c = cell % (self.cols as int);
        let nbrs = grid.neighbors_spec(r, c, self.conn);
        self.edges_upto(nbrs, b, nbrs.len() as int)
    }

    open spec fn init_spec(&self, grid: &GridModel) -> Seq<(int, int)> {
        seq![
            (
                (self.start_budget as int) * self.n_cells() + self.cell_id(
                    self.start.0 as int,
                    self.start.1 as int,
                ),
                0int,
            ),
        ]
    }

    open spec fn goal_spec(&self, grid: &GridModel, s: int) -> bool {
        let cell = s % self.n_cells();
        match self.goal {
            GoalKind::AtCell(r, c) => cell == self.cell_id(r as int, c as int),
            GoalKind::OnSymbol(b) => grid.cell_spec(
                cell / (self.cols as int),
                cell % (self.cols as int),
            ) == b,
        }
    }

    proof fn edges_wf(&self, grid: &GridModel, s: int) {
        lemma_decode(s, (self.cap + 1) as int, self.n_cells());
        let b = s / self.n_cells();
        let cell = s % self.n_cells();
        lemma_decode(cell, self.rows as int, self.cols as int);
        let r = cell / (self.cols as int);
        let c = cell % (self.cols as int);
        let nbrs = grid.neighbors_spec(r, c, self.conn);
        grid.lemma_neighbors_wf(r, c, self.conn);
        self.lemma_edges_upto_wf(grid, nbrs, b, nbrs.len() as int);
    }

    proof fn init_wf(&self, grid: &GridModel) {
        let sr = self.start.0 as int;
        let sc = self.start.1 as int;
        assert(0 <= self.cell_id(sr, sc) < self.n_cells()) by (nonlinear_arith)
            requires
                0 <= sr && sr < (self.rows as int),
                0 <= sc && sc < (self.cols as int),
                self.cell_id(sr, sc) == sr * (self.cols as int) + sc,
                self.n_cells() == (self.rows as int) * (self.cols as int),
        ;
        assert(0 <= (self.start_budget as int) * self.n_cells() + self.cell_id(sr, sc)
            < self.n_spec()) by (nonlinear_arith)
            requires
                0 <= (self.start_budget as int) && (self.start_budget as int) < ((self.cap
                    + 1) as int),
                0 <= self.cell_id(sr, sc) < self.n_cells(),
                self.n_spec() == ((self.cap + 1) as int) * self.n_cells(),
        ;
    }

    fn num_states(&self, grid: &GridModel) -> (r: usize) {
        let ncells = self.rows * self.cols;
        proof {
            assert((self.cap as int) + 1 <= usize::MAX && self.n_cells() <= usize::MAX)
                by (nonlinear_arith)
                requires
                    ((self.cap + 1) as int) * self.n_cells() <= usize::MAX,
                    self.n_cells() == (self.rows as int) * (self.cols as int),
                    self.rows > 0,
                    self.cols > 0,
                    self.cap + 1 >= 1,
            ;
        }
        let nb: usize = (self.cap as usize) + 1;
        nb * ncells
    }

    fn initial_states(&self, grid: &GridModel) -> (r: Vec<(usize, u64)>)
    {
        let ncells = self.rows * self.cols;
        proof {
            assert(ncells == self.n_cells() && ncells > 0) by (nonlinear_arith)
                requires
                    self.rows > 0,
                    self.cols > 0,
                    ncells == self.rows * self.cols,
                    self.n_cells() == (self.rows as int) * (self.cols as int),
            ;
            assert(self.start.0 * self.cols + self.start.1 < ncells) by (nonlinear_arith)
                requires
                    0 <= self.start.0 < self.rows,
                    0 <= self.start.1 < self.cols,
                    ncells == self.rows * self.cols,
            ;
            assert((self.start_budget as int) <= usize::MAX && (self.start_budget as int) * (
            ncells as int) + (self.start.0 * self.cols + self.start.1) < self.n_spec())
                by (nonlinear_arith)
                requires
                    0 <= (self.start_budget as int) && (self.start_budget as int) < ((self.cap
                        + 1) as int),
                    0 <= (self.start.0 * self.cols + self.start.1) < ncells,
                    ncells == self.n_cells(),
                    ncells > 0,
                    self.n_spec() == ((self.cap + 1) as int) * self.n_cells(),
                    self.n_spec() <= usize::MAX,
            ;
        }
        let mut out: Vec<(usize, u64)> = Vec::new();
        out.push(
            ((self.start_budget as usize) * ncells + (self.start.0 * self.cols + self.start.1), 0),
        );
        proof {
            assert(pairs_view(out@) =~= self.init_spec(grid));
        }
        out
    }

    fn transitions(&self, grid: &GridModel, s: usize) -> (r: Vec<(usize, u64)>) {
        let ncells = self.rows * self.cols;
        proof {
            assert(ncells == self.n_cells() && ncells > 0) by (nonlinear_arith)
                requires
                    self.rows > 0,
                    self.cols > 0,
                    ncells == self.rows * self.cols,
                    self.n_cells() == (self.rows as int) * (self.cols as int),
            ;
            lemma_decode(s as int, (self.cap + 1) as int, self.n_cells());
        }
        let b: u64 = (s / ncells) as u64;
        let cell = s % ncells;
        proof {
            lemma_decode(cell as int, self.rows as int, self.cols as int);
        }
        let r = cell / self.cols;
        let c = cell % self.cols;
        let nbrs = grid.neighbors(r, c, self.conn);
        let ghost nbrs_spec = grid.neighbors_spec(r as int, c as int, self.conn);
        proof {
            grid.lemma_neighbors_wf(r as int, c as int, self.conn);
        }
        let mut out: Vec<(usize, u64)> = Vec::new();
        let mut i: usize = 0;
        while i < nbrs.len()
            invariant
                0 <= i <= nbrs@.len(),
                self.inv(),
                grid.wf(),
                self.fits(grid),
                b <= self.cap,
                ncells == self.n_cells(),
                ncells > 0,
                nbrs@.map_values(|p: ((usize, usize), u8)| (((p.0.0 as int, p.0.1 as int)), p.1))
                    == nbrs_spec,
                forall|k: int|
                    0 <= k < nbrs_spec.len() ==> {
                        let e = #[trigger] nbrs_spec[k];
                        grid.in_bounds(e.0.0, e.0.1)
                    },
                pairs_view(out@) == self.edges_upto(nbrs_spec, b as int, i as int),
            decreases nbrs@.len() - i,
        {
            let ((nr, nc), sym) = nbrs[i];
            proof {
                assert(nbrs_spec[i as int] == (((nr as int, nc as int)), sym));
                assert(grid.in_bounds(nr as int, nc as int));
                assert(nr * self.cols + nc < ncells) by (nonlinear_arith)
                    requires
                        0 <= nr < self.rows,
                        0 <= nc < self.cols,
                        ncells == self.rows * self.cols,
                ;
            }
            match self.delta_exec(sym) {
                None => {},
                Some(d) => {
                    match (b as i64).checked_add(d) {
                        None => {
                            proof {
                                assert((b as int) + (d as int) > i64::MAX || (b as int) + (d as int)
                                    < i64::MIN);
                                assert(!(0 <= (b as int) + (d as int) <= self.cap));
                            }
                        },
                        Some(nb) => {
                            if 0 <= nb && (nb as u64) <= self.cap {
                                proof {
                                    assert(((nb as int)) * (ncells as int) + (nr * self.cols + nc)
                                        < self.n_spec() && (nb as int) <= usize::MAX)
                                        by (nonlinear_arith)
                                        requires
                                            0 <= (nb as int) && (nb as int) < ((self.cap
                                                + 1) as int),
                                            (nr * self.cols + nc) < ncells,
                                            0 <= (nr * self.cols + nc),
                                            ncells == self.n_cells(),
                                            ncells > 0,
                                            self.n_spec() == ((self.cap + 1) as int)
                                                * self.n_cells(),
                                            self.n_spec() <= usize::MAX,
                                    ;
                                }
                                let nid: usize = (nb as usize) * ncells + (nr * self.cols + nc);
                                out.push((nid, 1));
                            }
                        },
                    }
                },
            }
            proof {
                assert(pairs_view(out@) =~= self.edges_upto(nbrs_spec, b as int, i as int + 1));
            }
            i += 1;
        }
        proof {
            assert(pairs_view(out@) =~= self.edges_spec(grid, s as int));
        }
        out
    }

    fn is_goal(&self, grid: &GridModel, s: usize) -> (r: bool) {
        let ncells = self.rows * self.cols;
        proof {
            assert(ncells == self.n_cells() && ncells > 0) by (nonlinear_arith)
                requires
                    self.rows > 0,
                    self.cols > 0,
                    ncells == self.rows * self.cols,
                    self.n_cells() == (self.rows as int) * (self.cols as int),
            ;
            lemma_decode(s as int, (self.cap + 1) as int, self.n_cells());
        }
        let cell = s % ncells;
        proof {
            lemma_decode(cell as int, self.rows as int, self.cols as int);
        }
        match self.goal {
            GoalKind::AtCell(r, c) => {
                proof {
                    assert(r * self.cols + c < ncells) by (nonlinear_arith)
                        requires
                            0 <= r < self.rows,
                            0 <= c < self.cols,
                            ncells == self.rows * self.cols,
                    ;
                }
                cell == r * self.cols + c
            },
            GoalKind::OnSymbol(bsym) => {
                let row = cell / self.cols;
                let col = cell % self.cols;
                match grid.cell(row, col) {
                    Some(sym) => sym == bsym,
                    None => false,
                }
            },
        }
    }
}

impl BudgetSpace {
    /// Every edge built from in-bounds neighbors stays inside the state
    /// space with a cost that fits the cost width.
    proof fn lemma_edges_upto_wf(
        &self,
        grid: &GridModel,
        nbrs: Seq<((int, int), u8)>,
        b: int,
        n: int,
    )
        requires
            self.inv(),
            grid.wf(),
            self.fits(grid),
            n <= nbrs.len(),
            forall|k: int|
                0 <= k < nbrs.len() ==> {
                    let e = #[trigger] nbrs[k];
                    grid.in_bounds(e.0.0, e.0.1)
                },
        ensures
            forall|i: int|
                0 <= i < self.edges_upto(nbrs, b, n).len() ==> {
                    &&& 0 <= (#[trigger] self.edges_upto(nbrs, b, n)[i]).0 < self.n_spec()
                    &&& 0 <= self.edges_upto(nbrs, b, n)[i].1 <= u64::MAX
                },
        decreases n,
    {
        if n > 0 {
            self.lemma_edges_upto_wf(grid, nbrs, b, n - 1);
            let prev = self.edges_upto(nbrs, b, n - 1);
            let cur = self.edges_upto(nbrs, b, n);
            match self.delta_of(nbrs[n - 1].1) {
                None => {
                    assert(cur =~= prev);
                },
                Some(d) => {
                    if 0 <= b + d <= self.cap {
                        let e = nbrs[n - 1];
                        assert(0 <= self.cell_id(e.0.0, e.0.1) < self.n_cells())
                            by (nonlinear_arith)
                            requires
                                0 <= e.0.0 && e.0.0 < (self.rows as int),
                                0 <= e.0.1 && e.0.1 < (self.cols as int),
                                self.cell_id(e.0.0, e.0.1) == e.0.0 * (self.cols as int) + e.0.1,
                                self.n_cells() == (self.rows as int) * (self.cols as int),
                        ;
                        assert(0 <= (b + d) * self.n_cells() + self.cell_id(e.0.0, e.0.1)
                            < self.n_spec()) by (nonlinear_arith)
                            requires
                                0 <= b + d && b + d < ((self.cap + 1) as int),
                                0 <= self.cell_id(e.0.0, e.0.1) < self.n_cells(),
                                self.n_spec() == ((self.cap + 1) as int) * self.n_cells(),
                        ;
                        assert forall|i: int| 0 <= i < cur.len() implies {
                            &&& 0 <= (#[trigger] cur[i]).0 < self.n_spec()
                            &&& 0 <= cur[i].1 <= u64::MAX
                        } by {
                            if i < prev.len() {
                                assert(cur[i] == prev[i]);
                            } else {
                                assert(cur[i] == (
                                    (b + d) * self.n_cells() + self.cell_id(e.0.0, e.0.1),
                                    1int,
                                ));
                            }
                        }
                    } else {
                        assert(cur =~= prev);
                    }
                },
            }
        }
    }
}

/// A looked-up delta is one of the table's entries.
proof fn lemma_delta_is_entry(space: &BudgetSpace, sym: u8, i: int)
    requires
        0 <= i,
    ensures
        match space.delta_from(sym, i) {
            None => true,
            Some(d) => exists|k: int|
                0 <= k < space.deltas@.len() && (#[trigger] space.deltas@[k]).1 == d,
        },
    decreases space.deltas@.len() - i,
{
    if i < space.deltas@.len() {
        if space.deltas@[i].0 == sym {
            assert((space.deltas@[i]).1 == space.deltas@[i].1);
        } else {
            lemma_delta_is_entry(space, sym, i + 1);
        }
    }
}

/// When every delta drains the counter, every edge costs one time unit
/// and strictly lowers the counter component of the target state.
proof fn lemma_edges_drain(
    space: &BudgetSpace,
    grid: &GridModel,
    nbrs: Seq<((int, int), u8)>,
    b: int,
    n: int,
)
    requires
        space.inv(),
        grid.wf(),
        space.fits(grid),
        forall|k: int| 0 <= k < space.deltas@.len() ==> (#[trigger] space.deltas@[k]).1 <= -1,
        0 <= b,
        n <= nbrs.len(),
        forall|k: int|
            0 <= k < nbrs.len() ==> {
                let e = #[trigger] nbrs[k];
                grid.in_bounds(e.0.0, e.0.1)
            },
    ensures
        forall|i: int|
            0 <= i < space.edges_upto(nbrs, b, n).len() ==> {
                &&& (#[trigger] space.edges_upto(nbrs, b, n)[i]).1 == 1
                &&& 0 <= space.edges_upto(nbrs, b, n)[i].0 / space.n_cells() <= b - 1
            },
    decreases n,
{
    if n > 0 {
        lemma_edges_drain(space, grid, nbrs, b, n - 1);
        let prev = space.edges_upto(nbrs, b, n - 1);
        let cur = space.edges_upto(nbrs, b, n);
        match space.delta_of(nbrs[n - 1].1) {
            None => {
                assert(cur =~= prev);
            },
            Some(d) => {
                lemma_delta_is_entry(space, nbrs[n - 1].1, 0);
                assert(d <= -1);
                if 0 <= b + d <= space.cap {
                    let e = nbrs[n - 1];
                    assert(0 <= space.cell_id(e.0.0, e.0.1) < space.n_cells()) by (nonlinear_arith)
                        requires
                            0 <= e.0.0 && e.0.0 < (space.rows as int),
                            0 <= e.0.1 && e.0.1 < (space.cols as int),
                            space.cell_id(e.0.0, e.0.1) == e.0.0 * (space.cols as int) + e.0.1,
                            space.n_cells() == (space.rows as int) * (space.cols as int),
                    ;
                    lemma_row_major(b + d, space.cell_id(e.0.0, e.0.1), space.n_cells());
                    assert forall|i: int| 0 <= i < cur.len() implies {
                        &&& (#[trigger] cur[i]).1 == 1
                        &&& 0 <= cur[i].0 / space.n_cells() <= b - 1
                    } by {
                        if i < prev.len() {
                            assert(cur[i] == prev[i]);
                        } else {
                            assert(cur[i] == (
                                (b + d) * space.n_cells() + space.cell_id(e.0.0, e.0.1),
                                1int,
                            ));
                        }
                    }
                } else {
                    assert(cur =~= prev);
                }
            },
        }
    }
}

/// Along any trace of a draining budget space, the cumulative cost plus
/// the remaining counter never exceeds the starting counter.
proof fn lemma_budget_visit_cost(
    space: &BudgetSpace,
    grid: &GridModel,
    tr: Seq<(int, int)>,
    k: int,
)
    requires
        space.inv(),
        grid.wf(),
        space.fits(grid),
        forall|kk: int| 0 <= kk < space.deltas@.len() ==> (#[trigger] space.deltas@[kk]).1 <= -1,
        valid_trace(space, grid, tr),
        0 <= k < tr.len(),
    ensures
        tr[k].1 + tr[k].0 / space.n_cells() <= space.start_budget,
        0 <= tr[k].0 / space.n_cells(),
    decreases k,
{
    lemma_trace_wf(space, grid, tr);
    if k == 0 {
        let sr = space.start.0 as int;
        let sc = space.start.1 as int;
        assert(0 <= space.cell_id(sr, sc) < space.n_cells()) by (nonlinear_arith)
            requires
                0 <= sr && sr < (space.rows as int),
                0 <= sc && sc < (space.cols as int),
                space.cell_id(sr, sc) == sr * (space.cols as int) + sc,
                space.n_cells() == (space.rows as int) * (space.cols as int),
        ;
        assert(space.init_spec(grid).contains(tr[0]));
        assert(tr[0] == space.init_spec(grid)[0]);
        lemma_row_major(space.start_budget as int, space.cell_id(sr, sc), space.n_cells());
    } else {
        lemma_budget_visit_cost(space, grid, tr, k - 1);
        let a = tr[k - 1];
        let b = a.0 / space.n_cells();
        assert(step_ok(space, grid, tr[k - 1], tr[k]));
        let j = choose|j: int|
            0 <= j < space.edges_spec(grid, a.0).len() && (#[trigger] space.edges_spec(
                grid,
                a.0,
            )[j]).0 == tr[k].0 && tr[k].1 == a.1 + space.edges_spec(grid, a.0)[j].1;
        lemma_decode(a.0, (space.cap + 1) as int, space.n_cells());
        let cell = a.0 % space.n_cells();
        lemma_decode(cell, space.rows as int, space.cols as int);
        let nbrs = grid.neighbors_spec(
            cell / (space.cols as int),
            cell % (space.cols as int),
            space.conn,
        );
        grid.lemma_neighbors_wf(cell / (space.cols as int), cell % (space.cols as int), space.conn);
        lemma_edges_drain(space, grid, nbrs, b, nbrs.len() as int);
        assert(space.edges_spec(grid, a.0)[j].1 == 1);
        assert(tr[k].0 / space.n_cells() <= b - 1);
    }
}

/// A cost ceiling above the starting counter is a sound pruning policy
/// for a budget space whose every delta drains the counter: each step
/// costs one unit and spends one unit of the counter, so no trace — goal
/// trace or not — ever reaches a cumulative cost at the ceiling.
pub proof fn lemma_cost_ceiling_sound(space: &BudgetSpace, grid: &GridModel, policy: &CostCeiling)
    requires
        space.inv(),
        grid.wf(),
        space.fits(grid),
        forall|k: int| 0 <= k < space.deltas@.len() ==> (#[trigger] space.deltas@[k]).1 <= -1,
        (policy.ceiling as int) > space.start_budget as int,
    ensures
        prune_sound_for(policy, space, grid),
{
    assert forall|tr: Seq<(int, int)>, k: int, c: int|
        #![trigger goal_trace(space, grid, tr), policy.discards(tr[k].0, c)]
        goal_trace(space, grid, tr) && 0 <= k < tr.len() && policy.discards(
            tr[k].0,
            c,
        ) implies tr[k].1 < c by {
        lemma_budget_visit_cost(space, grid, tr, k);
    }
}

} // verus!
