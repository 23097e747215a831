use vstd::prelude::*;

use crate::grid_model::lemma_decode;
use crate::grid_model::Connectivity;
use crate::grid_model::GridModel;
use crate::plain_space::GoalKind;
use crate::space::pairs_view;
use crate::space::StateSpace;

verus! {

/// The terrain level a symbol encodes: its digit value for `'0'..'9'`, 0
/// for the start and end markers `'S'` and `'E'`, and nothing for a wall.
pub open spec fn level_of(sym: u8) -> Option<u8> {
    if 48 <= sym <= 57 {
        Some((sym - 48) as u8)
    } else if sym == 83 || sym == 69 {
        Some(0u8)
    } else {
        None
    }
}

/// The executable level mapping.
pub fn level(sym: u8) -> (r: Option<u8>)
    ensures
        r == level_of(sym),
{
    if 48 <= sym && sym <= 57 {
        Some(sym - 48)
    } else if sym == 83 || sym == 69 {
        Some(0)
    } else {
        None
    }
}

/// Movement with a cyclic level-difference cost: the state is the position
/// alone, and a step from a cell at level `a` into a cell at level `b`
/// costs `step_cost + min(|a - b|, modulus - |a - b|)` — the wrap-around
/// distance on a cycle of length `modulus`, never the raw difference.
/// Cells without a level are impassable.
pub struct LevelSpace {
    /// The grid height this space was built for.
    pub rows: usize,
    /// The grid width this space was built for.
    pub cols: usize,
    /// The starting positions, each with its starting cost.
    pub starts: Vec<((usize, usize), u64)>,
    /// The cycle length of the level encoding.
    pub modulus: u64,
    /// The fixed cost added to every step.
    pub step_cost: u64,
    pub conn: Connectivity,
    pub goal: GoalKind,
}

impl LevelSpace {
    /// The encoded state of position (r, c): its row-major cell index.
    pub open spec fn cell_id(&self, r: int, c: int) -> int {
        r * (self.cols as int) + c
    }

    /// The wrap-around distance between levels `a` and `b` on the cycle.
    pub open spec fn cyc_diff(&self, a: int, b: int) -> int {
        let d = if a >= b {
            a - b
        } else {
            b - a
        };
        if d <= (self.modulus as int) - d {
            d
        } else {
            (self.modulus as int) - d
        }
    }

    /// The edges contributed by the first `i` enumerated neighbors, from a
    /// cell at level `a`.
    pub open spec fn edges_upto(
        &self,
        nbrs: Seq<((int, int), u8)>,
        a: int,
        i: int,
    ) -> Seq<(int, int)>
        decreases i,
    {
        if i <= 0 {
            Seq::empty()
        } else {
            self.edges_upto(nbrs, a, i - 1) + match level_of(nbrs[i - 1].1) {
                None => Seq::empty(),
                Some(b) => seq![
                    (
                        self.cell_id(nbrs[i - 1].0.0, nbrs[i - 1].0.1),
                        self.step_cost + self.cyc_diff(a, b as int),
                    ),
                ],
            }
        }
    }
}

impl StateSpace for LevelSpace {
    open spec fn inv(&self) -> bool {
        &&& self.rows > 0
        &&& self.cols > 0
        &&& self.rows * self.cols <= usize::MAX
        &&& self.modulus > 0
        &&& self.step_cost + self.modulus <= u64::MAX
    }

    open spec fn fits(&self, grid: &GridModel) -> bool {
        &&& grid.rows_spec() == self.rows
        &&& grid.cols_spec() == self.cols
        &&& forall|k: int|
            0 <= k < self.starts@.len() ==> grid.in_bounds(
                (#[trigger] self.starts@[k]).0.0 as int,
                self.starts@[k].0.1 as int,
            )
        &&& match self.goal {
            GoalKind::AtCell(r, c) => grid.in_bounds(r as int, c as int),
            GoalKind::OnSymbol(_) => true,
        }
        &&& forall|r: int, c: int|
            grid.in_bounds(r, c) && level_of(#[trigger] grid.cell_spec(r, c)) is Some ==> (level_of(
                grid.cell_spec(r, c),
            )->Some_0 as int) < self.modulus
    }

    open spec fn n_spec(&self) -> int {
        (self.rows as int) * (self.cols as int)
    }

    open spec fn edges_spec(&self, grid: &GridModel, s: int) -> Seq<(int, int)> {
        let r = s / (self.cols as int);
        let c = s % (self.cols as int);
        match level_of(grid.cell_spec(r, c)) {
            None => Seq::empty(),
            Some(a) => {
                let nbrs = grid.neighbors_spec(r, c, self.conn);
                self.edges_upto(nbrs, a as int, nbrs.len() as int)
            },
        }
    }

    open spec fn init_spec(&self, grid: &GridModel) -> Seq<(int, int)> {
        self.starts@.map_values(
            |p: ((usize, usize), u64)| (self.cell_id(p.0.0 as int, p.0.1 as int), p.1 as int),
        )
    }

    open spec fn goal_spec(&self, grid: &GridModel, s: int) -> bool {
        match self.goal {
            GoalKind::AtCell(r, c) => s == self.cell_id(r as int, c as int),
            GoalKind::OnSymbol(b) => grid.cell_spec(
                s / (self.cols as int),
                s % (self.cols as int),
            ) == b,
        }
    }

    proof fn edges_wf(&self, grid: &GridModel, s: int) {
        let r = s / (self.cols as int);
        let c = s % (self.cols as int);
        lemma_decode(s, self.rows as int, self.cols as int);
        match level_of(grid.cell_spec(r, c)) {
            None => {},
            Some(a) => {
                let nbrs = grid.neighbors_spec(r, c, self.conn);
                grid.lemma_neighbors_wf(r, c, self.conn);
                self.lemma_edges_upto_wf(grid, nbrs, a as int, nbrs.len() as int);
            },
        }
    }

    proof fn init_wf(&self, grid: &GridModel) {
        assert forall|i: int| 0 <= i < self.init_spec(grid).len() implies {
            &&& 0 <= (#[trigger] self.init_spec(grid)[i]).0 < self.n_spec()
            &&& 0 <= self.init_spec(grid)[i].1 <= u64::MAX
        } by {
            let p = self.starts@[i];
            assert(self.init_spec(grid)[i] == (
                self.cell_id(p.0.0 as int, p.0.1 as int),
                p.1 as int,
            ));
            assert(grid.in_bounds(p.0.0 as int, p.0.1 as int));
            assert(0 <= self.cell_id(p.0.0 as int, p.0.1 as int) < self.n_spec())
                by (nonlinear_arith)
                requires
                    0 <= (p.0.0 as int) && (p.0.0 as int) < (self.rows as int),
                    0 <= (p.0.1 as int) && (p.0.1 as int) < (self.cols as int),
                    self.cell_id(p.0.0 as int, p.0.1 as int) == (p.0.0 as int) * (self.cols as int)
                        + p.0.1 as int,
                    self.n_spec() == (self.rows as int) * (self.cols as int),
            ;
        }
    }

    fn num_states(&self, grid: &GridModel) -> (r: usize) {
        self.rows * self.cols
    }

    fn initial_states(&self, grid: &GridModel) -> (r: Vec<(usize, u64)>) {
        let mut out: Vec<(usize, u64)> = Vec::new();
        let mut k: usize = 0;
        while k < self.starts.len()
            invariant
                0 <= k <= self.starts@.len(),
                self.inv(),
                grid.wf(),
                self.fits(grid),
                out@.len() == k,
                forall|i: int|
                    0 <= i < k ==> ((#[trigger] out@[i]).0 as int) == self.init_spec(grid)[i].0 && (
                    out@[i].1 as int) == self.init_spec(grid)[i].1,
            decreases self.starts@.len() - k,
        {
            let ((r, c), c0) = self.starts[k];
            proof {
                assert(grid.in_bounds(r as int, c as int));
                assert(r * self.cols + c < self.rows * self.cols) by (nonlinear_arith)
                    requires
                        0 <= r < self.rows,
                        0 <= c < self.cols,
                ;
            }
            out.push((r * self.cols + c, c0));
            k += 1;
        }
        proof {
            assert forall|i: int| 0 <= i < out@.len() implies #[trigger] pairs_view(out@)[i]
                == self.init_spec(grid)[i] by {
                assert(pairs_view(out@)[i] == (out@[i].0 as int, out@[i].1 as int));
            }
            assert(pairs_view(out@) =~= self.init_spec(grid));
        }
        out
    }

    fn transitions(&self, grid: &GridModel, s: usize) -> (r: Vec<(usize, u64)>) {
        proof {
            lemma_decode(s as int, self.rows as int, self.cols as int);
        }
        let r = s / self.cols;
        let c = s % self.cols;
        let here = match grid.cell(r, c) {
            Some(sym) => sym,
            None => 0,
        };
        let a = match level(here) {
            Some(a) => a,
            None => {
                let out: Vec<(usize, u64)> = Vec::new();
                proof {
                    assert(pairs_view(out@) =~= self.edges_spec(grid, s as int));
                }
                return out;
            },
        };
        let nbrs = grid.neighbors(r, c, self.conn);
        let ghost nbrs_spec = grid.neighbors_spec(r as int, c as int, self.conn);
        proof {
            grid.lemma_neighbors_wf(r as int, c as int, self.conn);
            assert((a as int) < self.modulus);
        }
        let mut out: Vec<(usize, u64)> = Vec::new();
        let mut i: usize = 0;
        while i < nbrs.len()
            invariant
                0 <= i <= nbrs@.len(),
                self.inv(),
                grid.wf(),
                self.fits(grid),
                (a as int) < self.modulus,
                nbrs@.map_values(|p: ((usize, usize), u8)| (((p.0.0 as int, p.0.1 as int)), p.1))
                    == nbrs_spec,
                forall|k: int|
                    0 <= k < nbrs_spec.len() ==> {
                        let e = #[trigger] nbrs_spec[k];
                        grid.in_bounds(e.0.0, e.0.1) && e.1 == grid.cell_spec(e.0.0, e.0.1)
                    },
                pairs_view(out@) == self.edges_upto(nbrs_spec, a as int, i as int),
            decreases nbrs@.len() - i,
        {
            let ((nr, nc), sym) = nbrs[i];
            proof {
                assert(nbrs_spec[i as int] == (((nr as int, nc as int)), sym));
                assert(grid.in_bounds(nr as int, nc as int));
                assert(nr * self.cols + nc < self.rows * self.cols) by (nonlinear_arith)
                    requires
                        0 <= nr < self.rows,
                        0 <= nc < self.cols,
                ;
            }
            match level(sym) {
                None => {},
                Some(b) => {
                    proof {
                        assert(grid.cell_spec(nr as int, nc as int) == sym);
                        assert((b as int) < self.modulus);
                    }
                    let d: u64 = if a >= b {
                        (a - b) as u64
                    } else {
                        (b - a) as u64
                    };
                    let cyc: u64 = if d <= self.modulus - d {
                        d
                    } else {
                        self.modulus - d
                    };
                    out.push((nr * self.cols + nc, self.step_cost + cyc));
                },
            }
            proof {
                assert(pairs_view(out@) =~= self.edges_upto(nbrs_spec, a as int, i as int + 1));
            }
            i += 1;
        }
        proof {
            assert(grid.cell_spec(r as int, c as int) == here);
            assert(pairs_view(out@) =~= self.edges_spec(grid, s as int));
        }
        out
    }

    fn is_goal(&self, grid: &GridModel, s: usize) -> (r: bool) {
        proof {
            lemma_decode(s as int, self.rows as int, self.cols as int);
        }
        match self.goal {
            GoalKind::AtCell(r, c) => {
                proof {
                    assert(r * self.cols + c < self.rows * self.cols) by (nonlinear_arith)
                        requires
                            0 <= r < self.rows,
                            0 <= c < self.cols,
                    ;
                }
                s == r * self.cols + c
            },
            GoalKind::OnSymbol(b) => {
                let row = s / self.cols;
                let col = s % self.cols;
                match grid.cell(row, col) {
                    Some(sym) => sym == b,
                    None => false,
                }
            },
        }
    }
}

impl LevelSpace {
    /// Every edge built from in-bounds neighbors stays inside the state
    /// space with a cost that fits the cost width.
    proof fn lemma_edges_upto_wf(
        &self,
        grid: &GridModel,
        nbrs: Seq<((int, int), u8)>,
        a: int,
        n: int,
    )
        requires
            self.inv(),
            grid.wf(),
            self.fits(grid),
            0 <= a < self.modulus,
            n <= nbrs.len(),
            forall|k: int|
                0 <= k < nbrs.len() ==> {
                    let e = #[trigger] nbrs[k];
                    grid.in_bounds(e.0.0, e.0.1) && e.1 == grid.cell_spec(e.0.0, e.0.1)
                },
        ensures
            forall|i: int|
                0 <= i < self.edges_upto(nbrs, a, n).len() ==> {
                    &&& 0 <= (#[trigger] self.edges_upto(nbrs, a, n)[i]).0 < self.n_spec()
                    &&& 0 <= self.edges_upto(nbrs, a, n)[i].1 <= u64::MAX
                },
        decreases n,
    {
        if n > 0 {
            self.lemma_edges_upto_wf(grid, nbrs, a, n - 1);
            let prev = self.edges_upto(nbrs, a, n - 1);
            let cur = self.edges_upto(nbrs, a, n);
            match level_of(nbrs[n - 1].1) {
                None => {
                    assert(cur =~= prev);
                },
                Some(b) => {
                    let e = nbrs[n - 1];
                    assert((b as int) < self.modulus);
                    assert(0 <= self.cell_id(e.0.0, e.0.1) < self.n_spec()) by (nonlinear_arith)
                        requires
                            0 <= e.0.0 && e.0.0 < (self.rows as int),
                            0 <= e.0.1 && e.0.1 < (self.cols as int),
                            self.cell_id(e.0.0, e.0.1) == e.0.0 * (self.cols as int) + e.0.1,
                            self.n_spec() == (self.rows as int) * (self.cols as int),
                    ;
                    assert(0 <= self.cyc_diff(a, b as int) <= self.modulus);
                    assert forall|i: int| 0 <= i < cur.len() implies {
                        &&& 0 <= (#[trigger] cur[i]).0 < self.n_spec()
                        &&& 0 <= cur[i].1 <= u64::MAX
                    } by {
                        if i < prev.len() {
                            assert(cur[i] == prev[i]);
                        } else {
                            assert(cur[i] == (
                                self.cell_id(e.0.0, e.0.1),
                                self.step_cost + self.cyc_diff(a, b as int),
                            ));
                        }
                    }
                },
            }
        }
    }
}

} // verus!
