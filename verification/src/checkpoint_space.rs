use vstd::prelude::*;

use crate::grid_model::lemma_decode;
use crate::grid_model::Connectivity;
use crate::grid_model::GridModel;
use crate::space::pairs_view;
use crate::space::StateSpace;

verus! {

/// Ordered-checkpoint gating: the state is a position plus the ordinal of
/// the last checkpoint satisfied. A step into the cell of checkpoint
/// `k` (1-based) is legal only while the ordinal equals `k - 1`, and
/// raises it to `k`; steps into other cells pass the ordinal through
/// unchanged. A symbol with no entry in the cost table is a wall. The goal
/// is to stand on the start cell again with every checkpoint satisfied in
/// order.
pub struct CheckpointSpace {
    /// The grid height this space was built for.
    pub rows: usize,
    /// The grid width this space was built for.
    pub cols: usize,
    /// The starting position; also the cell the goal returns to.
    pub start: (usize, usize),
    /// The checkpoint symbols, in the order they must be satisfied.
    pub checkpoints: Vec<u8>,
    /// Per-symbol step costs; the first match counts, absent symbols are
    /// walls.
    pub costs: Vec<(u8, u64)>,
    pub conn: Connectivity,
}

impl CheckpointSpace {
    /// The row-major index of position (r, c).
    pub open spec fn cell_id(&self, r: int, c: int) -> int {
        r * (self.cols as int) + c
    }

    pub open spec fn n_cells(&self) -> int {
        (self.rows as int) * (self.cols as int)
    }

    /// How many ordinal values there are: none satisfied up to all.
    pub open spec fn n_ords(&self) -> int {
        (self.checkpoints@.len() as int) + 1
    }

    /// The step cost of a symbol, scanning the table from index `i`.
    pub open spec fn cost_from(&self, sym: u8, i: int) -> Option<u64>
        decreases self.costs@.len() - i,
    {
        if i < 0 || i >= self.costs@.len() {
            None
        } else if self.costs@[i].0 == sym {
            Some(self.costs@[i].1)
        } else {
            self.cost_from(sym, i + 1)
        }
    }

    /// The cost of stepping onto a symbol, or nothing for a wall.
    pub open spec fn cost_of(&self, sym: u8) -> Option<u64> {
        self.cost_from(sym, 0)
    }

    /// The checkpoint index of a symbol, scanning from index `i`.
    pub open spec fn cp_from(&self, sym: u8, i: int) -> Option<int>
        decreases self.checkpoints@.len() - i,
    {
        if i < 0 || i >= self.checkpoints@.len() {
            None
        } else if self.checkpoints@[i] == sym {
            Some(i)
        } else {
            self.cp_from(sym, i + 1)
        }
    }

    /// The 0-based checkpoint index a symbol carries, if any.
    pub open spec fn cp_index(&self, sym: u8) -> Option<int> {
        self.cp_from(sym, 0)
    }

    /// The ordinal after stepping onto `sym` from ordinal `ord`, or
    /// nothing when the required order forbids the step.
    pub open spec fn next_ord(&self, ord: int, sym: u8) -> Option<int> {
        match self.cp_index(sym) {
            None => Some(ord),
            Some(j) => if ord == j {
                Some(j + 1)
            } else {
                None
            },
        }
    }

    /// The executable cost lookup.
    fn cost_exec(&self, sym: u8) -> (r: Option<u64>)
        ensures
            r == self.cost_of(sym),
    {
        let mut i: usize = 0;
        while i < self.costs.len()
            invariant
                0 <= i <= self.costs@.len(),
                self.cost_of(sym) == self.cost_from(sym, i as int),
            decreases self.costs@.len() - i,
        {
            let (t, w) = self.costs[i];
            if t == sym {
                return Some(w);
            }
            i += 1;
        }
        None
    }

    /// The executable checkpoint lookup.
    fn cp_exec(&self, sym: u8) -> (r: Option<usize>)
        ensures
            match r {
                None => self.cp_index(sym) is None,
                Some(j) => self.cp_index(sym) == Some(j as int),
            },
    {
        let mut i: usize = 0;
        while i < self.checkpoints.len()
            invariant
                0 <= i <= self.checkpoints@.len(),
                self.cp_index(sym) == self.cp_from(sym, i as int),
            decreases self.checkpoints@.len() - i,
        {
            if self.checkpoints[i] == sym {
                return Some(i);
            }
            i += 1;
        }
        None
    }

    /// The edges contributed by the first `i` enumerated neighbors, from
    /// ordinal `ord`.
    pub open spec fn edges_upto(&self, nbrs: Seq<((int, int), u8)>, ord: int, i: int) -> Seq<
        (int, int),
    >
        decreases i,
    {
        if i <= 0 {
            Seq::empty()
        } else {
            self.edges_upto(nbrs, ord, i - 1) + match self.cost_of(nbrs[i - 1].1) {
                None => Seq::empty(),
                Some(w) => match self.next_ord(ord, nbrs[i - 1].1) {
                    None => Seq::empty(),
                    Some(nord) => seq![
                        (
                            nord * self.n_cells() + self.cell_id(nbrs[i - 1].0.0, nbrs[i - 1].0.1),
                            w as int,
                        ),
                    ],
                },
            }
        }
    }

    /// A legal next ordinal stays within the ordinal range.
    proof fn lemma_next_ord_bound(&self, ord: int, sym: u8)
        requires
            0 <= ord < self.n_ords(),
        ensures
            match self.next_ord(ord, sym) {
                None => true,
                Some(nord) => 0 <= nord < self.n_ords(),
            },
    {
        self.lemma_cp_from_bound(sym, 0);
    }

    proof fn lemma_cp_from_bound(&self, sym: u8, i: int)
        requires
            0 <= i,
        ensures
            match self.cp_from(sym, i) {
                None => true,
                Some(j) => 0 <= j < self.checkpoints@.len(),
            },
        decreases self.checkpoints@.len() - i,
    {
        if i < self.checkpoints@.len() && self.checkpoints@[i] != sym {
            self.lemma_cp_from_bound(sym, i + 1);
        }
    }
}

impl StateSpace for CheckpointSpace {
    open spec fn inv(&self) -> bool {
        &&& self.rows > 0
        &&& self.cols > 0
        &&& self.rows * self.cols <= usize::MAX
        &&& self.checkpoints@.len() < usize::MAX
        &&& self.n_ords() * self.n_cells() <= usize::MAX
    }

    open spec fn fits(&self, grid: &GridModel) -> bool {
        &&& grid.rows_spec() == self.rows
        &&& grid.cols_spec() == self.cols
        &&& grid.in_bounds(self.start.0 as int, self.start.1 as int)
    }

    open spec fn n_spec(&self) -> int {
        self.n_ords() * self.n_cells()
    }

    open spec fn edges_spec(&self, grid: &GridModel, s: int) -> Seq<(int, int)> {
        let ord = s / self.n_cells();
        let cell = s % self.n_cells();
        let r = cell / (self.cols as int);
        let c = cell % (self.cols as int);
        let nbrs = grid.neighbors_spec(r, c, self.conn);
        self.edges_upto(nbrs, ord, nbrs.len() as int)
    }

    open spec fn init_spec(&self, grid: &GridModel) -> Seq<(int, int)> {
        seq![(self.cell_id(self.start.0 as int, self.start.1 as int), 0int)]
    }

    open spec fn goal_spec(&self, grid: &GridModel, s: int) -> bool {
        let ord = s / self.n_cells();
        let cell = s % self.n_cells();
        ord == self.checkpoints@.len() && cell == self.cell_id(
            self.start.0 as int,
            self.start.1 as int,
        )
    }

    proof fn edges_wf(&self, grid: &GridModel, s: int) {
        lemma_decode(s, self.n_ords(), self.n_cells());
        let ord = s / self.n_cells();
        let cell = s % self.n_cells();
        lemma_decode(cell, self.rows as int, self.cols as int);
        let r = cell / (self.cols as int);
        let c = cell % (self.cols as int);
        let nbrs = grid.neighbors_spec(r, c, self.conn);
        grid.lemma_neighbors_wf(r, c, self.conn);
        self.lemma_edges_upto_wf(grid, nbrs, ord, nbrs.len() as int);
    }

    proof fn init_wf(&self, grid: &GridModel) {
        let sr = self.start.0 as int;
        let sc = self.start.1 as int;
        assert(0 <= self.cell_id(sr, sc) < self.n_cells()) by (nonlinear_arith)
            requires
                0 <= sr && sr < (self.rows as int),
                0 <= sc && sc < (self.cols as int),
                self.cell_id(sr, sc) == sr * (self.cols as int) + sc,
                self.n_cells() == (self.rows as int) * (self.cols as int),
        ;
        assert(self.n_cells() <= self.n_spec()) by (nonlinear_arith)
            requires
                self.n_spec() == self.n_ords() * self.n_cells(),
                self.n_ords() >= 1,
                self.n_cells() >= 0,
        ;
    }

    fn num_states(&self, grid: &GridModel) -> (r: usize) {
        let ncells = self.rows * self.cols;
        proof {
            assert(self.n_ords() <= usize::MAX && self.n_cells() <= usize::MAX)
                by (nonlinear_arith)
                requires
                    self.n_ords() * self.n_cells() <= usize::MAX,
                    self.n_ords() >= 1,
                    self.n_cells() == (self.rows as int) * (self.cols as int),
                    self.rows > 0,
                    self.cols > 0,
            ;
        }
        let no: usize = self.checkpoints.len() + 1;
        no * ncells
    }

    fn initial_states(&self, grid: &GridModel) -> (r: Vec<(usize, u64)>) {
        proof {
            self.init_wf(grid);
            assert(self.n_spec() <= usize::MAX);
            assert(self.start.0 * self.cols + self.start.1 < self.rows * self.cols)
                by (nonlinear_arith)
                requires
                    0 <= self.start.0 < self.rows,
                    0 <= self.start.1 < self.cols,
            ;
        }
        let mut out: Vec<(usize, u64)> = Vec::new();
        out.push((self.start.0 * self.cols + self.start.1, 0));
        proof {
            assert(pairs_view(out@) =~= self.init_spec(grid));
        }
        out
    }

    fn transitions(&self, grid: &GridModel, s: usize) -> (r: Vec<(usize, u64)>) {
        let ncells = self.rows * self.cols;
        proof {
            assert(ncells == self.n_cells() && ncells > 0) by (nonlinear_arith)
                requires
                    self.rows > 0,
                    self.cols > 0,
                    ncells == self.rows * self.cols,
                    self.n_cells() == (self.rows as int) * (self.cols as int),
            ;
            lemma_decode(s as int, self.n_ords(), self.n_cells());
        }
        let ord = s / ncells;
        let cell = s % ncells;
        proof {
            lemma_decode(cell as int, self.rows as int, self.cols as int);
        }
        let r = cell / self.cols;
        let c = cell % self.cols;
        let nbrs = grid.neighbors(r, c, self.conn);
        let ghost nbrs_spec = grid.neighbors_spec(r as int, c as int, self.conn);
        proof {
            grid.lemma_neighbors_wf(r as int, c as int, self.conn);
        }
        let mut out: Vec<(usize, u64)> = Vec::new();
        let mut i: usize = 0;
        while i < nbrs.len()
            invariant
                0 <= i <= nbrs@.len(),
                self.inv(),
                grid.wf(),
                self.fits(grid),
                (ord as int) < self.n_ords(),
                ncells == self.n_cells(),
                ncells > 0,
                nbrs@.map_values(|p: ((usize, usize), u8)| (((p.0.0 as int, p.0.1 as int)), p.1))
                    == nbrs_spec,
                forall|k: int|
                    0 <= k < nbrs_spec.len() ==> {
                        let e = #[trigger] nbrs_spec[k];
                        grid.in_bounds(e.0.0, e.0.1)
                    },
                pairs_view(out@) == self.edges_upto(nbrs_spec, ord as int, i as int),
            decreases nbrs@.len() - i,
        {
            let ((nr, nc), sym) = nbrs[i];
            proof {
                assert(nbrs_spec[i as int] == (((nr as int, nc as int)), sym));
                assert(grid.in_bounds(nr as int, nc as int));
                assert(nr * self.cols + nc < ncells) by (nonlinear_arith)
                    requires
                        0 <= nr < self.rows,
                        0 <= nc < self.cols,
                        ncells == self.rows * self.cols,
                ;
            }
            match self.cost_exec(sym) {
                None => {},
                Some(w) => {
                    let nord_opt: Option<usize> = match self.cp_exec(sym) {
                        None => Some(ord),
                        Some(j) => if ord == j {
                            Some(j + 1)
                        } else {
                            None
                        },
                    };
                    proof {
                        self.lemma_cp_from_bound(sym, 0);
                        assert(match nord_opt {
                            None => self.next_ord(ord as int, sym) is None,
                            Some(nord) => self.next_ord(ord as int, sym) == Some(nord as int),
                        });
                    }
                    match nord_opt {
                        None => {},
                        Some(nord) => {
                            proof {
                                self.lemma_next_ord_bound(ord as int, sym);
                                assert((nord as int) * (ncells as int) + (nr * self.cols + nc)
                                    < self.n_spec() && (nord as int) <= usize::MAX)
                                    by (nonlinear_arith)
                                    requires
                                        0 <= (nord as int) && (nord as int) < self.n_ords(),
                                        (nr * self.cols + nc) < ncells,
                                        0 <= (nr * self.cols + nc),
                                        ncells == self.n_cells(),
                                        ncells > 0,
                                        self.n_spec() == self.n_ords() * self.n_cells(),
                                        self.n_spec() <= usize::MAX,
                                ;
                                assert(self.n_spec() <= usize::MAX);
                            }
                            let nid: usize = nord * ncells + (nr * self.cols + nc);
                            out.push((nid, w));
                        },
                    }
                },
            }
            proof {
                assert(pairs_view(out@) =~= self.edges_upto(nbrs_spec, ord as int, i as int + 1));
            }
            i += 1;
        }
        proof {
            assert(pairs_view(out@) =~= self.edges_spec(grid, s as int));
        }
        out
    }

    fn is_goal(&self, grid: &GridModel, s: usize) -> (r: bool) {
        let ncells = self.rows * self.cols;
        proof {
            assert(ncells == self.n_cells() && ncells > 0) by (nonlinear_arith)
                requires
                    self.rows > 0,
                    self.cols > 0,
                    ncells == self.rows * self.cols,
                    self.n_cells() == (self.rows as int) * (self.cols as int),
            ;
            lemma_decode(s as int, self.n_ords(), self.n_cells());
            assert(self.start.0 * self.cols + self.start.1 < ncells) by (nonlinear_arith)
                requires
                    0 <= self.start.0 < self.rows,
                    0 <= self.start.1 < self.cols,
                    ncells == self.rows * self.cols,
            ;
        }
        let ord = s / ncells;
        let cell = s % ncells;
        ord == self.checkpoints.len() && cell == self.start.0 * self.cols + self.start.1
    }
}

impl CheckpointSpace {
    /// Every edge built from in-bounds neighbors stays inside the state
    /// space with a cost that fits the cost width.
    proof fn lemma_edges_upto_wf(
        &self,
        grid: &GridModel,
        nbrs: Seq<((int, int), u8)>,
        ord: int,
        n: int,
    )
        requires
            self.inv(),
            grid.wf(),
            self.fits(grid),
            0 <= ord < self.n_ords(),
            n <= nbrs.len(),
            forall|k: int|
                0 <= k < nbrs.len() ==> {
                    let e = #[trigger] nbrs[k];
                    grid.in_bounds(e.0.0, e.0.1)
                },
        ensures
            forall|i: int|
                0 <= i < self.edges_upto(nbrs, ord, n).len() ==> {
                    &&& 0 <= (#[trigger] self.edges_upto(nbrs, ord, n)[i]).0 < self.n_spec()
                    &&& 0 <= self.edges_upto(nbrs, ord, n)[i].1 <= u64::MAX
                },
        decreases n,
    {
        if n > 0 {
            self.lemma_edges_upto_wf(grid, nbrs, ord, n - 1);
            let prev = self.edges_upto(nbrs, ord, n - 1);
            let cur = self.edges_upto(nbrs, ord, n);
            match self.cost_of(nbrs[n - 1].1) {
                None => {
                    assert(cur =~= prev);
                },
                Some(w) => {
                    match self.next_ord(ord, nbrs[n - 1].1) {
                        None => {
                            assert(cur =~= prev);
                        },
                        Some(nord) => {
                            let e = nbrs[n - 1];
                            self.lemma_next_ord_bound(ord, e.1);
                            assert(0 <= self.cell_id(e.0.0, e.0.1) < self.n_cells())
                                by (nonlinear_arith)
                                requires
                                    0 <= e.0.0 && e.0.0 < (self.rows as int),
                                    0 <= e.0.1 && e.0.1 < (self.cols as int),
                                    self.cell_id(e.0.0, e.0.1) == e.0.0 * (self.cols as int)
                                        + e.0.1,
                                    self.n_cells() == (self.rows as int) * (self.cols as int),
                            ;
                            assert(0 <= nord * self.n_cells() + self.cell_id(e.0.0, e.0.1)
                                < self.n_spec()) by (nonlinear_arith)
                                requires
                                    0 <= nord && nord < self.n_ords(),
                                    0 <= self.cell_id(e.0.0, e.0.1) < self.n_cells(),
                                    self.n_spec() == self.n_ords() * self.n_cells(),
                            ;
                            assert forall|i: int| 0 <= i < cur.len() implies {
                                &&& 0 <= (#[trigger] cur[i]).0 < self.n_spec()
                                &&& 0 <= cur[i].1 <= u64::MAX
                            } by {
                                if i < prev.len() {
                                    assert(cur[i] == prev[i]);
                                } else {
                                    assert(cur[i] == (
                                        nord * self.n_cells() + self.cell_id(e.0.0, e.0.1),
                                        w as int,
                                    ));
                                }
                            }
                        },
                    }
                },
            }
        }
    }
}

} // verus!
