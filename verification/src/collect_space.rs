use vstd::prelude::*;

use crate::grid_model::lemma_decode;
use crate::grid_model::Connectivity;
use crate::grid_model::GridModel;
use crate::space::pairs_view;
use crate::space::StateSpace;

verus! {

/// Collectible-augmented movement: the state is a position plus a bitmask
/// of collected markers. Entering a cell whose symbol is listed in
/// `markers` sets the corresponding bit; the goal is to stand on the start
/// cell again with `target_mask` collected.
///
/// The caller computes `target_mask` first — normally as the mask of
/// markers actually reachable from the start (a plain flood-fill pass) —
/// since an unreachable marker would make the literal goal impossible.
pub struct CollectSpace {
    /// The grid height this space was built for.
    pub rows: usize,
    /// The grid width this space was built for.
    pub cols: usize,
    /// The start position; also the cell the goal returns to.
    pub start: (usize, usize),
    /// The impassable symbols.
    pub walls: Vec<u8>,
    /// The marker symbols; bit `i` of a mask stands for `markers[i]`.
    pub markers: Vec<u8>,
    /// The mask that satisfies the goal.
    pub target_mask: u64,
    pub conn: Connectivity,
}

impl CollectSpace {
    /// The row-major index of position (r, c).
    pub open spec fn cell_id(&self, r: int, c: int) -> int {
        r * (self.cols as int) + c
    }

    pub open spec fn n_cells(&self) -> int {
        (self.rows as int) * (self.cols as int)
    }

    /// How many distinct masks there are.
    pub open spec fn n_masks(&self) -> u64 {
        1u64 << (self.markers@.len() as u64)
    }

    pub open spec fn is_wall_spec(&self, sym: u8) -> bool {
        exists|i: int| 0 <= i < self.walls@.len() && self.walls@[i] == sym
    }

    /// The mask bits contributed by the first `i` marker symbols equal to
    /// `sym`.
    pub open spec fn marker_mask_upto(&self, sym: u8, i: int) -> u64
        decreases i,
    {
        if i <= 0 {
            0u64
        } else {
            self.marker_mask_upto(sym, i - 1) | (if self.markers@[i - 1] == sym {
                1u64 << ((i - 1) as u64)
            } else {
                0u64
            })
        }
    }

    /// The mask bits a cell symbol sets on entry.
    pub open spec fn marker_mask(&self, sym: u8) -> u64 {
        self.marker_mask_upto(sym, self.markers@.len() as int)
    }

    /// Every partial marker mask stays below the mask count.
    proof fn lemma_marker_mask_bound(&self, sym: u8, i: int)
        requires
            self.markers@.len() < 64,
            0 <= i <= self.markers@.len(),
        ensures
            self.marker_mask_upto(sym, i) < self.n_masks(),
        decreases i,
    {
        let k = self.markers@.len() as u64;
        if i <= 0 {
            assert(0u64 < (1u64 << k)) by (bit_vector)
                requires
                    k < 64u64,
            ;
        } else {
            self.lemma_marker_mask_bound(sym, i - 1);
            let m = self.marker_mask_upto(sym, i - 1);
            let j = (i - 1) as u64;
            if self.markers@[i - 1] == sym {
                assert((m | (1u64 << j)) < (1u64 << k)) by (bit_vector)
                    requires
                        m < (1u64 << k),
                        j < k,
                        k < 64u64,
                ;
            } else {
                assert((m | 0u64) == m) by (bit_vector);
            }
        }
    }

    /// Joining two masks below the mask count stays below it.
    proof fn lemma_mask_or_bound(&self, m1: u64, m2: u64)
        requires
            self.markers@.len() < 64,
            m1 < self.n_masks(),
            m2 < self.n_masks(),
        ensures
            (m1 | m2) < self.n_masks(),
    {
        let k = self.markers@.len() as u64;
        assert((m1 | m2) < (1u64 << k)) by (bit_vector)
            requires
                m1 < (1u64 << k),
                m2 < (1u64 << k),
                k < 64u64,
        ;
    }

    /// The executable marker mask of a symbol.
    fn marker_mask_exec(&self, sym: u8) -> (r: u64)
        requires
            self.markers@.len() < 64,
        ensures
            r == self.marker_mask(sym),
    {
        let mut m: u64 = 0;
        let mut i: usize = 0;
        while i < self.markers.len()
            invariant
                0 <= i <= self.markers@.len(),
                self.markers@.len() < 64,
                m == self.marker_mask_upto(sym, i as int),
            decreases self.markers@.len() - i,
        {
            if self.markers[i] == sym {
                m = m | (1u64 << (i as u64));
            } else {
                proof {
                    let mm = m;
                    assert((mm | 0u64) == mm) by (bit_vector);
                }
            }
            i += 1;
        }
        m
    }

    /// Whether the walls block a symbol.
    fn is_wall(&self, sym: u8) -> (r: bool)
        ensures
            r == self.is_wall_spec(sym),
    {
        let mut i: usize = 0;
        while i < self.walls.len()
            invariant
                0 <= i <= self.walls@.len(),
                forall|k: int| 0 <= k < i ==> self.walls@[k] != sym,
            decreases self.walls@.len() - i,
        {
            if self.walls[i] == sym {
                return true;
            }
            i += 1;
        }
        false
    }

    /// The edges contributed by the first `i` enumerated neighbors, from
    /// mask `mask`.
    pub open spec fn edges_upto(&self, nbrs: Seq<((int, int), u8)>, mask: u64, i: int) -> Seq<
        (int, int),
    >
        decreases i,
    {
        if i <= 0 {
            Seq::empty()
        } else {
            self.edges_upto(nbrs, mask, i - 1) + if self.is_wall_spec(nbrs[i - 1].1) {
                Seq::empty()
            } else {
                seq![
                    (
                        ((mask | self.marker_mask(nbrs[i - 1].1)) as int) * self.n_cells()
                            + self.cell_id(nbrs[i - 1].0.0, nbrs[i - 1].0.1),
                        1int,
                    ),
                ]
            }
        }
    }
}

impl StateSpace for CollectSpace {
    open spec fn inv(&self) -> bool {
        &&& self.rows > 0
        &&& self.cols > 0
        &&& self.rows * self.cols <= usize::MAX
        &&& self.markers@.len() < 64
        &&& (self.n_masks() as int) * self.n_cells() <= usize::MAX
    }

    open spec fn fits(&self, grid: &GridModel) -> bool {
        &&& grid.rows_spec() == self.rows
        &&& grid.cols_spec() == self.cols
        &&& grid.in_bounds(self.start.0 as int, self.start.1 as int)
    }

    open spec fn n_spec(&self) -> int {
        (self.n_masks() as int) * self.n_cells()
    }

    open spec fn edges_spec(&self, grid: &GridModel, s: int) -> Seq<(int, int)> {
        let mask = s / self.n_cells();
        let cell = s % self.n_cells();
        let r = cell / (self.cols as int);
        let c = cell % (self.cols as int);
        let nbrs = grid.neighbors_spec(r, c, self.conn);
        self.edges_upto(nbrs, mask as u64, nbrs.len() as int)
    }

    open spec fn init_spec(&self, grid: &GridModel) -> Seq<(int, int)> {
        seq![(self.cell_id(self.start.0 as int, self.start.1 as int), 0int)]
    }

    open spec fn goal_spec(&self, grid: &GridModel, s: int) -> bool {
        let mask = s / self.n_cells();
        let cell = s % self.n_cells();
        mask == self.target_mask && cell == self.cell_id(self.start.0 as int, self.start.1 as int)
    }

    proof fn edges_wf(&self, grid: &GridModel, s: int) {
        lemma_decode(s, self.n_masks() as int, self.n_cells());
        let mask = s / self.n_cells();
        let cell = s % self.n_cells();
        lemma_decode(cell, self.rows as int, self.cols as int);
        let r = cell / (self.cols as int);
        let c = cell % (self.cols as int);
        let nbrs = grid.neighbors_spec(r, c, self.conn);
        grid.lemma_neighbors_wf(r, c, self.conn);
        self.lemma_edges_upto_wf(grid, nbrs, mask as u64, nbrs.len() as int);
    }

    proof fn init_wf(&self, grid: &GridModel) {
        assert(self.n_masks() >= 1) by {
            let k = self.markers@.len() as u64;
            assert((1u64 << k) >= 1u64) by (bit_vector)
                requires
                    k < 64u64,
            ;
        }
        let sr = self.start.0 as int;
        let sc = self.start.1 as int;
        assert(0 <= self.cell_id(sr, sc) < self.n_cells()) by (nonlinear_arith)
            requires
                0 <= sr && sr < (self.rows as int),
                0 <= sc && sc < (self.cols as int),
                self.cell_id(sr, sc) == sr * (self.cols as int) + sc,
                self.n_cells() == (self.rows as int) * (self.cols as int),
        ;
        assert(self.n_cells() <= self.n_spec()) by (nonlinear_arith)
            requires
                self.n_spec() == (self.n_masks() as int) * self.n_cells(),
                self.n_masks() >= 1,
                self.n_cells() >= 0,
        ;
        assert(self.n_masks() >= 1) by {
            let k = self.markers@.len() as u64;
            assert((1u64 << k) >= 1u64) by (bit_vector)
                requires
                    k < 64u64,
            ;
        }
    }

    fn num_states(&self, grid: &GridModel) -> (r: usize) {
        let nm64: u64 = 1u64 << (self.markers.len() as u64);
        proof {
            assert(nm64 == self.n_masks());
            assert(self.n_masks() >= 1) by {
                let k = self.markers@.len() as u64;
                assert((1u64 << k) >= 1u64) by (bit_vector)
                    requires
                        k < 64u64,
                ;
            }
            assert((self.n_masks() as int) <= usize::MAX && self.n_cells() <= usize::MAX
                && (self.n_masks() as int) * self.n_cells() == (self.n_masks() as int) * ((
            self.rows as int) * (self.cols as int))) by (nonlinear_arith)
                requires
                    (self.n_masks() as int) * self.n_cells() <= usize::MAX,
                    self.n_masks() >= 1,
                    self.n_cells() == (self.rows as int) * (self.cols as int),
                    self.rows > 0,
                    self.cols > 0,
            ;
        }
        let nm: usize = nm64 as usize;
        proof {
            assert((nm as int) * ((self.rows * self.cols) as int) <= usize::MAX);
        }
        nm * (self.rows * self.cols)
    }

    fn initial_states(&self, grid: &GridModel) -> (r: Vec<(usize, u64)>) {
        let mut out: Vec<(usize, u64)> = Vec::new();
        proof {
            assert(self.start.0 * self.cols + self.start.1 < self.rows * self.cols)
                by (nonlinear_arith)
                requires
                    0 <= self.start.0 < self.rows,
                    0 <= self.start.1 < self.cols,
            ;
        }
        out.push((self.start.0 * self.cols + self.start.1, 0));
        proof {
            assert(pairs_view(out@) =~= self.init_spec(grid));
        }
        out
    }

    fn transitions(&self, grid: &GridModel, s: usize) -> (r: Vec<(usize, u64)>) {
        let ncells = self.rows * self.cols;
        proof {
            assert(ncells == self.n_cells()) by (nonlinear_arith)
                requires
                    ncells == self.rows * self.cols,
                    self.n_cells() == (self.rows as int) * (self.cols as int),
            ;
            assert(ncells > 0) by (nonlinear_arith)
                requires
                    self.rows > 0,
                    self.cols > 0,
                    ncells == self.rows * self.cols,
            ;
            lemma_decode(s as int, self.n_masks() as int, self.n_cells());
        }
        let mask: u64 = (s / ncells) as u64;
        let cell = s % ncells;
        proof {
            lemma_decode(cell as int, self.rows as int, self.cols as int);
        }
        let r = cell / self.cols;
        let c = cell % self.cols;
        let nbrs = grid.neighbors(r, c, self.conn);
        let ghost nbrs_spec = grid.neighbors_spec(r as int, c as int, self.conn);
        proof {
            grid.lemma_neighbors_wf(r as int, c as int, self.conn);
        }
        let mut out: Vec<(usize, u64)> = Vec::new();
        let mut i: usize = 0;
        while i < nbrs.len()
            invariant
                0 <= i <= nbrs@.len(),
                self.inv(),
                grid.wf(),
                self.fits(grid),
                mask < self.n_masks(),
                ncells == self.n_cells(),
                ncells > 0,
                nbrs@.map_values(|p: ((usize, usize), u8)| (((p.0.0 as int, p.0.1 as int)), p.1))
                    == nbrs_spec,
                forall|k: int|
                    0 <= k < nbrs_spec.len() ==> {
                        let e = #[trigger] nbrs_spec[k];
                        grid.in_bounds(e.0.0, e.0.1)
                    },
                pairs_view(out@) == self.edges_upto(nbrs_spec, mask, i as int),
            decreases nbrs@.len() - i,
        {
            let ((nr, nc), sym) = nbrs[i];
            proof {
                assert(nbrs_spec[i as int] == (((nr as int, nc as int)), sym));
                assert(grid.in_bounds(nr as int, nc as int));
                assert(nr * self.cols + nc < ncells) by (nonlinear_arith)
                    requires
                        0 <= nr < self.rows,
                        0 <= nc < self.cols,
                        ncells == self.rows * self.cols,
                ;
            }
            if !self.is_wall(sym) {
                let new_mask = mask | self.marker_mask_exec(sym);
                proof {
                    self.lemma_marker_mask_bound(sym, self.markers@.len() as int);
                    self.lemma_mask_or_bound(mask, self.marker_mask(sym));
                    assert((new_mask as int) * (ncells as int) + (nr * self.cols + nc)
                        < self.n_spec() && (new_mask as int) <= usize::MAX) by (nonlinear_arith)
                        requires
                            new_mask < self.n_masks(),
                            (nr * self.cols + nc) < ncells,
                            0 <= (nr * self.cols + nc),
                            ncells == self.n_cells(),
                            ncells > 0,
                            self.n_spec() == (self.n_masks() as int) * self.n_cells(),
                            self.n_spec() <= usize::MAX,
                    ;
                    assert(self.n_spec() <= usize::MAX);
                }
                let nid: usize = (new_mask as usize) * ncells + (nr * self.cols + nc);
                out.push((nid, 1));
            }
            proof {
                assert(pairs_view(out@) =~= self.edges_upto(nbrs_spec, mask, i as int + 1));
            }
            i += 1;
        }
        proof {
            assert(pairs_view(out@) =~= self.edges_spec(grid, s as int));
        }
        out
    }

    fn is_goal(&self, grid: &GridModel, s: usize) -> (r: bool) {
        let ncells = self.rows * self.cols;
        proof {
            assert(ncells == self.n_cells() && ncells > 0) by (nonlinear_arith)
                requires
                    self.rows > 0,
                    self.cols > 0,
                    ncells == self.rows * self.cols,
                    self.n_cells() == (self.rows as int) * (self.cols as int),
            ;
            lemma_decode(s as int, self.n_masks() as int, self.n_cells());
            assert(self.start.0 * self.cols + self.start.1 < ncells) by (nonlinear_arith)
                requires
                    0 <= self.start.0 < self.rows,
                    0 <= self.start.1 < self.cols,
                    ncells == self.rows * self.cols,
            ;
        }
        let mask: u64 = (s / ncells) as u64;
        let cell = s % ncells;
        mask == self.target_mask && cell == self.start.0 * self.cols + self.start.1
    }
}

impl CollectSpace {
    /// Every edge built from in-bounds neighbors stays inside the state
    /// space with a cost that fits the cost width.
    proof fn lemma_edges_upto_wf(
        &self,
        grid: &GridModel,
        nbrs: Seq<((int, int), u8)>,
        mask: u64,
        n: int,
    )
        requires
            self.inv(),
            grid.wf(),
            self.fits(grid),
            mask < self.n_masks(),
            n <= nbrs.len(),
            forall|k: int|
                0 <= k < nbrs.len() ==> {
                    let e = #[trigger] nbrs[k];
                    grid.in_bounds(e.0.0, e.0.1)
                },
        ensures
            forall|i: int|
                0 <= i < self.edges_upto(nbrs, mask, n).len() ==> {
                    &&& 0 <= (#[trigger] self.edges_upto(nbrs, mask, n)[i]).0 < self.n_spec()
                    &&& 0 <= self.edges_upto(nbrs, mask, n)[i].1 <= u64::MAX
                },
        decreases n,
    {
        if n > 0 {
            self.lemma_edges_upto_wf(grid, nbrs, mask, n - 1);
            let prev = self.edges_upto(nbrs, mask, n - 1);
            let cur = self.edges_upto(nbrs, mask, n);
            if self.is_wall_spec(nbrs[n - 1].1) {
                assert(cur =~= prev);
            } else {
                let e = nbrs[n - 1];
                let new_mask = mask | self.marker_mask(e.1);
                self.lemma_marker_mask_bound(e.1, self.markers@.len() as int);
                self.lemma_mask_or_bound(mask, self.marker_mask(e.1));
                assert(0 <= self.cell_id(e.0.0, e.0.1) < self.n_cells()) by (nonlinear_arith)
                    requires
                        0 <= e.0.0 && e.0.0 < (self.rows as int),
                        0 <= e.0.1 && e.0.1 < (self.cols as int),
                        self.cell_id(e.0.0, e.0.1) == e.0.0 * (self.cols as int) + e.0.1,
                        self.n_cells() == (self.rows as int) * (self.cols as int),
                ;
                assert(0 <= (new_mask as int) * self.n_cells() + self.cell_id(e.0.0, e.0.1)
                    < self.n_spec()) by (nonlinear_arith)
                    requires
                        new_mask < self.n_masks(),
                        0 <= self.cell_id(e.0.0, e.0.1) < self.n_cells(),
                        self.n_spec() == (self.n_masks() as int) * self.n_cells(),
                ;
                assert forall|i: int| 0 <= i < cur.len() implies {
                    &&& 0 <= (#[trigger] cur[i]).0 < self.n_spec()
                    &&& 0 <= cur[i].1 <= u64::MAX
                } by {
                    if i < prev.len() {
                        assert(cur[i] == prev[i]);
                    } else {
                        assert(cur[i] == (
                            (new_mask as int) * self.n_cells() + self.cell_id(e.0.0, e.0.1),
                            1int,
                        ));
                    }
                }
            }
        }
    }
}

} // verus!
