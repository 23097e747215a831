use vstd::prelude::*;

use crate::grid_model::lemma_decode;
use crate::grid_model::lemma_row_major;
use crate::grid_model::Connectivity;
use crate::grid_model::GridModel;
use crate::paths::cost_width_ok;
use crate::paths::edge_cost_max;
use crate::paths::init_cost_max;
use crate::paths::lemma_edge_cost_max_le;
use crate::paths::lemma_init_cost_max_le;
use crate::space::pairs_view;
use crate::space::StateSpace;

verus! {

/// When a plain search is done: on reaching a fixed cell, or on reaching
/// any cell that carries a given symbol.
#[derive(Clone, Copy, PartialEq, Eq, Structural)]
pub enum GoalKind {
    AtCell(usize, usize),
    OnSymbol(u8),
}

/// Plain movement: the state is the position alone, every step into a
/// non-wall cell costs `step_cost`, and the search is done per `goal`.
/// With `step_cost` 1 this is the unweighted breadth-first special case.
pub struct PlainSpace {
    /// The grid height this space was built for.
    pub rows: usize,
    /// The grid width this space was built for.
    pub cols: usize,
    /// The starting positions, each with its starting cost.
    pub starts: Vec<((usize, usize), u64)>,
    /// The impassable symbols.
    pub walls: Vec<u8>,
    pub conn: Connectivity,
    pub goal: GoalKind,
    pub step_cost: u64,
}

impl PlainSpace {
    /// The encoded state of position (r, c): its row-major cell index.
    pub open spec fn cell_id(&self, r: int, c: int) -> int {
        r * (self.cols as int) + c
    }

    pub open spec fn is_wall_spec(&self, sym: u8) -> bool {
        exists|i: int| 0 <= i < self.walls@.len() && self.walls@[i] == sym
    }

    /// The edges contributed by the first `i` enumerated neighbors.
    pub open spec fn edges_upto(&self, nbrs: Seq<((int, int), u8)>, i: int) -> Seq<(int, int)>
        decreases i,
    {
        if i <= 0 {
            Seq::empty()
        } else {
            self.edges_upto(nbrs, i - 1) + if self.is_wall_spec(nbrs[i - 1].1) {
                Seq::empty()
            } else {
                seq![(self.cell_id(nbrs[i - 1].0.0, nbrs[i - 1].0.1), self.step_cost as int)]
            }
        }
    }

    /// Whether the walls block the symbol under an in-bounds position.
    fn is_wall(&self, sym: u8) -> (r: bool)
        ensures
            r == self.is_wall_spec(sym),
    {
        let mut i: usize = 0;
        while i < self.walls.len()
            invariant
                0 <= i <= self.walls@.len(),
                forall|k: int| 0 <= k < i ==> self.walls@[k] != sym,
            decreases self.walls@.len() - i,
        {
            if self.walls[i] == sym {
                return true;
            }
            i += 1;
        }
        false
    }
}

impl StateSpace for PlainSpace {
    open spec fn inv(&self) -> bool {
        &&& self.rows > 0
        &&& self.cols > 0
        &&& self.rows * self.cols <= usize::MAX
    }

    open spec fn fits(&self, grid: &GridModel) -> bool {
        &&& grid.rows_spec() == self.rows
        &&& grid.cols_spec() == self.cols
        &&& forall|k: int|
            0 <= k < self.starts@.len() ==> grid.in_bounds(
                (#[trigger] self.starts@[k]).0.0 as int,
                self.starts@[k].0.1 as int,
            )
        &&& match self.goal {
            GoalKind::AtCell(r, c) => grid.in_bounds(r as int, c as int),
            GoalKind::OnSymbol(_) => true,
        }
    }

    open spec fn n_spec(&self) -> int {
        (self.rows as int) * (self.cols as int)
    }

    open spec fn edges_spec(&self, grid: &GridModel, s: int) -> Seq<(int, int)> {
        let nbrs = grid.neighbors_spec(s / (self.cols as int), s % (self.cols as int), self.conn);
        self.edges_upto(nbrs, nbrs.len() as int)
    }

    open spec fn init_spec(&self, grid: &GridModel) -> Seq<(int, int)> {
        self.starts@.map_values(
            |p: ((usize, usize), u64)| (self.cell_id(p.0.0 as int, p.0.1 as int), p.1 as int),
        )
    }

    open spec fn goal_spec(&self, grid: &GridModel, s: int) -> bool {
        match self.goal {
            GoalKind::AtCell(r, c) => s == self.cell_id(r as int, c as int),
            GoalKind::OnSymbol(b) => grid.cell_spec(
                s / (self.cols as int),
                s % (self.cols as int),
            ) == b,
        }
    }

    proof fn edges_wf(&self, grid: &GridModel, s: int) {
        let r = s / (self.cols as int);
        let c = s % (self.cols as int);
        lemma_decode(s, self.rows as int, self.cols as int);
        let nbrs = grid.neighbors_spec(r, c, self.conn);
        grid.lemma_neighbors_wf(r, c, self.conn);
        self.lemma_edges_upto_wf(grid, nbrs, nbrs.len() as int);
    }

    proof fn init_wf(&self, grid: &GridModel) {
        assert forall|i: int| 0 <= i < self.init_spec(grid).len() implies {
            &&& 0 <= (#[trigger] self.init_spec(grid)[i]).0 < self.n_spec()
            &&& 0 <= self.init_spec(grid)[i].1 <= u64::MAX
        } by {
            let p = self.starts@[i];
            assert(self.init_spec(grid)[i] == (
                self.cell_id(p.0.0 as int, p.0.1 as int),
                p.1 as int,
            ));
            assert(grid.in_bounds(p.0.0 as int, p.0.1 as int));
            assert(0 <= self.cell_id(p.0.0 as int, p.0.1 as int) < self.n_spec())
                by (nonlinear_arith)
                requires
                    0 <= (p.0.0 as int) && (p.0.0 as int) < (self.rows as int),
                    0 <= (p.0.1 as int) && (p.0.1 as int) < (self.cols as int),
                    self.cell_id(p.0.0 as int, p.0.1 as int) == (p.0.0 as int) * (self.cols as int)
                        + p.0.1 as int,
                    self.n_spec() == (self.rows as int) * (self.cols as int),
            ;
        }
    }

    fn num_states(&self, grid: &GridModel) -> (r: usize) {
        self.rows * self.cols
    }

    fn initial_states(&self, grid: &GridModel) -> (r: Vec<(usize, u64)>) {
        let mut out: Vec<(usize, u64)> = Vec::new();
        let mut k: usize = 0;
        while k < self.starts.len()
            invariant
                0 <= k <= self.starts@.len(),
                self.inv(),
                grid.wf(),
                self.fits(grid),
                out@.len() == k,
                forall|i: int|
                    0 <= i < k ==> ((#[trigger] out@[i]).0 as int) == self.init_spec(grid)[i].0 && (
                    out@[i].1 as int) == self.init_spec(grid)[i].1,
            decreases self.starts@.len() - k,
        {
            let ((r, c), c0) = self.starts[k];
            proof {
                assert(grid.in_bounds(r as int, c as int));
                assert(r * self.cols + c < self.rows * self.cols) by (nonlinear_arith)
                    requires
                        0 <= r < self.rows,
                        0 <= c < self.cols,
                ;
            }
            out.push((r * self.cols + c, c0));
            k += 1;
        }
        proof {
            assert forall|i: int| 0 <= i < out@.len() implies #[trigger] pairs_view(out@)[i]
                == self.init_spec(grid)[i] by {
                assert(pairs_view(out@)[i] == (out@[i].0 as int, out@[i].1 as int));
            }
            assert(pairs_view(out@) =~= self.init_spec(grid));
        }
        out
    }

    fn transitions(&self, grid: &GridModel, s: usize) -> (r: Vec<(usize, u64)>) {
        proof {
            lemma_decode(s as int, self.rows as int, self.cols as int);
        }
        let r = s / self.cols;
        let c = s % self.cols;
        let nbrs = grid.neighbors(r, c, self.conn);
        let ghost nbrs_spec = grid.neighbors_spec(r as int, c as int, self.conn);
        proof {
            grid.lemma_neighbors_wf(r as int, c as int, self.conn);
        }
        let mut out: Vec<(usize, u64)> = Vec::new();
        let mut i: usize = 0;
        while i < nbrs.len()
            invariant
                0 <= i <= nbrs@.len(),
                self.inv(),
                grid.wf(),
                self.fits(grid),
                nbrs@.map_values(|p: ((usize, usize), u8)| (((p.0.0 as int, p.0.1 as int)), p.1))
                    == nbrs_spec,
                forall|k: int|
                    0 <= k < nbrs_spec.len() ==> {
                        let e = #[trigger] nbrs_spec[k];
                        grid.in_bounds(e.0.0, e.0.1)
                    },
                pairs_view(out@) == self.edges_upto(nbrs_spec, i as int),
            decreases nbrs@.len() - i,
        {
            let ((nr, nc), sym) = nbrs[i];
            proof {
                assert(nbrs_spec[i as int] == (((nr as int, nc as int)), sym));
                assert(grid.in_bounds(nr as int, nc as int));
                assert(nr * self.cols + nc < self.rows * self.cols) by (nonlinear_arith)
                    requires
                        0 <= nr < self.rows,
                        0 <= nc < self.cols,
                ;
            }
            if !self.is_wall(sym) {
                out.push((nr * self.cols + nc, self.step_cost));
            }
            proof {
                assert(pairs_view(out@) =~= self.edges_upto(nbrs_spec, i as int + 1));
            }
            i += 1;
        }
        out
    }

    fn is_goal(&self, grid: &GridModel, s: usize) -> (r: bool) {
        proof {
            lemma_decode(s as int, self.rows as int, self.cols as int);
        }
        match self.goal {
            GoalKind::AtCell(r, c) => {
                proof {
                    assert(r * self.cols + c < self.rows * self.cols) by (nonlinear_arith)
                        requires
                            0 <= r < self.rows,
                            0 <= c < self.cols,
                    ;
                }
                s == r * self.cols + c
            },
            GoalKind::OnSymbol(b) => {
                let row = s / self.cols;
                let col = s % self.cols;
                match grid.cell(row, col) {
                    Some(sym) => sym == b,
                    None => false,
                }
            },
        }
    }
}

impl PlainSpace {
    /// Every edge built from in-bounds neighbors stays inside the state
    /// space with a cost that fits the cost width.
    proof fn lemma_edges_upto_wf(&self, grid: &GridModel, nbrs: Seq<((int, int), u8)>, n: int)
        requires
            self.inv(),
            grid.wf(),
            self.fits(grid),
            n <= nbrs.len(),
            forall|k: int|
                0 <= k < nbrs.len() ==> {
                    let e = #[trigger] nbrs[k];
                    grid.in_bounds(e.0.0, e.0.1)
                },
        ensures
            forall|i: int|
                0 <= i < self.edges_upto(nbrs, n).len() ==> {
                    &&& 0 <= (#[trigger] self.edges_upto(nbrs, n)[i]).0 < self.n_spec()
                    &&& 0 <= self.edges_upto(nbrs, n)[i].1 <= u64::MAX
                },
        decreases n,
    {
        if n > 0 {
            self.lemma_edges_upto_wf(grid, nbrs, n - 1);
            let prev = self.edges_upto(nbrs, n - 1);
            let cur = self.edges_upto(nbrs, n);
            if self.is_wall_spec(nbrs[n - 1].1) {
                assert(cur =~= prev);
            } else {
                let e = nbrs[n - 1];
                assert(0 <= self.cell_id(e.0.0, e.0.1) < self.n_spec()) by (nonlinear_arith)
                    requires
                        0 <= e.0.0 && e.0.0 < (self.rows as int),
                        0 <= e.0.1 && e.0.1 < (self.cols as int),
                        self.cell_id(e.0.0, e.0.1) == e.0.0 * (self.cols as int) + e.0.1,
                        self.n_spec() == (self.rows as int) * (self.cols as int),
                ;
                assert forall|i: int| 0 <= i < cur.len() implies {
                    &&& 0 <= (#[trigger] cur[i]).0 < self.n_spec()
                    &&& 0 <= cur[i].1 <= u64::MAX
                } by {
                    if i < prev.len() {
                        assert(cur[i] == prev[i]);
                    } else {
                        assert(cur[i] == (self.cell_id(e.0.0, e.0.1), self.step_cost as int));
                    }
                }
            }
        }
    }
}

/// Every plain-space edge costs exactly the step cost.
proof fn lemma_plain_edges_cost(sp: &PlainSpace, nbrs: Seq<((int, int), u8)>, n: int)
    ensures
        forall|i: int|
            0 <= i < sp.edges_upto(nbrs, n).len() ==> (#[trigger] sp.edges_upto(nbrs, n)[i]).1
                == sp.step_cost,
    decreases n,
{
    if n > 0 {
        lemma_plain_edges_cost(sp, nbrs, n - 1);
        let prev = sp.edges_upto(nbrs, n - 1);
        let cur = sp.edges_upto(nbrs, n);
        if sp.is_wall_spec(nbrs[n - 1].1) {
            assert(cur =~= prev);
        } else {
            assert forall|i: int| 0 <= i < cur.len() implies (#[trigger] cur[i]).1
                == sp.step_cost by {
                if i < prev.len() {
                    assert(cur[i] == prev[i]);
                }
            }
        }
    }
}

/// Discharges the cost-width hypothesis of the search laws for a plain
/// space: when every starting cost is at most `i0` and `i0` plus one step
/// per cell fits the cost word, the width is wide enough.
pub proof fn lemma_plain_cost_width(sp: &PlainSpace, grid: &GridModel, i0: int)
    requires
        sp.inv(),
        grid.wf(),
        sp.fits(grid),
        0 <= i0,
        forall|k: int| 0 <= k < sp.starts@.len() ==> ((#[trigger] sp.starts@[k]).1 as int) <= i0,
        i0 + sp.n_spec() * (sp.step_cost as int) <= u64::MAX,
    ensures
        cost_width_ok(sp, grid),
{
    assert forall|k: int|
        0 <= k < sp.init_spec(grid).len() implies (#[trigger] sp.init_spec(grid)[k]).1 <= i0 by {
        assert(sp.init_spec(grid)[k] == (
            sp.cell_id(sp.starts@[k].0.0 as int, sp.starts@[k].0.1 as int),
            sp.starts@[k].1 as int,
        ));
    }
    lemma_init_cost_max_le(sp, grid, i0);
    assert forall|s: int, j: int|
        0 <= s < sp.n_spec() && 0 <= j < sp.edges_spec(grid, s).len() implies (
    #[trigger] sp.edges_spec(grid, s)[j]).1 <= sp.step_cost as int by {
        let nbrs = grid.neighbors_spec(s / (sp.cols as int), s % (sp.cols as int), sp.conn);
        lemma_plain_edges_cost(sp, nbrs, nbrs.len() as int);
    }
    lemma_edge_cost_max_le(sp, grid, sp.step_cost as int);
    assert(init_cost_max(sp, grid) + sp.n_spec() * edge_cost_max(sp, grid) <= u64::MAX)
        by (nonlinear_arith)
        requires
            init_cost_max(sp, grid) <= i0,
            edge_cost_max(sp, grid) <= sp.step_cost as int,
            0 <= sp.n_spec(),
            i0 + sp.n_spec() * (sp.step_cost as int) <= u64::MAX,
    ;
}

} // verus!
