use vstd::prelude::*;

use crate::errors::SearchError;

verus! {

/// Decomposition of a row-major index: dividing `q * m + rem` by a row
/// length `m` gives back the row `q` and the column `rem`.
pub proof fn lemma_row_major(q: int, rem: int, m: int)
    requires
        m > 0,
        0 <= rem < m,
        0 <= q,
    ensures
        (q * m + rem) / m == q,
        (q * m + rem) % m == rem,
{
    assert((q * m + rem) / m == q && (q * m + rem) % m == rem) by (nonlinear_arith)
        requires
            m > 0,
            0 <= rem < m,
            0 <= q,
    ;
}

/// Decoding a composite index `s` below `q * m`: its quotient by `m` is
/// below `q`, its remainder is below `m`, and the two recompose to `s`.
pub proof fn lemma_decode(s: int, q: int, m: int)
    requires
        m > 0,
        q > 0,
        0 <= s < q * m,
    ensures
        0 <= s / m < q,
        0 <= s % m < m,
        (s / m) * m + (s % m) == s,
{
    assert(0 <= s % m < m && (s / m) * m + (s % m) == s) by (nonlinear_arith)
        requires
            m > 0,
            s >= 0,
    ;
    assert(s / m < q) by (nonlinear_arith)
        requires
            m > 0,
            q > 0,
            0 <= s < q * m,
            (s / m) * m + (s % m) == s,
            0 <= s % m < m,
            s / m >= 0,
    ;
}

/// How many neighbors a cell has: the four orthogonal ones, or those plus
/// the four diagonal ones.
#[derive(Clone, Copy, PartialEq, Eq, Structural)]
pub enum Connectivity {
    Four,
    Eight,
}

/// An immutable dense 2-D array of cell symbols, stored row-major, with
/// bounds-checked access and deterministic neighbor enumeration.
pub struct GridModel {
    pub rows: usize,
    pub cols: usize,
    pub cells: Vec<u8>,
}

impl GridModel {
    /// The grid is non-empty and holds exactly one symbol per coordinate.
    pub open spec fn wf(&self) -> bool {
        self.rows > 0 && self.cols > 0 && self.cells@.len() == self.rows * self.cols
    }

    pub open spec fn rows_spec(&self) -> int {
        self.rows as int
    }

    pub open spec fn cols_spec(&self) -> int {
        self.cols as int
    }

    /// How many cells the grid has.
    pub open spec fn n_cells(&self) -> int {
        self.rows * self.cols
    }

    pub open spec fn in_bounds(&self, r: int, c: int) -> bool {
        0 <= r < self.rows && 0 <= c < self.cols
    }

    /// The symbol at row `r`, column `c`.
    pub open spec fn cell_spec(&self, r: int, c: int) -> u8
        recommends
            self.wf(),
            self.in_bounds(r, c),
    {
        self.cells@[r * self.cols_spec() + c]
    }

    proof fn lemma_index_in_range(&self, r: int, c: int)
        requires
            self.wf(),
            self.in_bounds(r, c),
        ensures
            0 <= r * self.cols_spec() + c < self.n_cells(),
    {
        assert(0 <= r * self.cols_spec() + c < self.rows_spec() * self.cols_spec())
            by (nonlinear_arith)
            requires
                0 <= r < self.rows_spec(),
                0 <= c < self.cols_spec(),
        ;
    }

    /// Builds a grid from a list of rows. Fails with `MalformedGrid` when the
    /// rows are not all of one positive length, when there are no rows, or
    /// when the cell count does not fit the machine word.
    pub fn from_rows(rows_in: &Vec<Vec<u8>>) -> (result: Result<GridModel, SearchError>)
        ensures
            match result {
                Ok(g) => {
                    &&& g.wf()
                    &&& g.rows_spec() == rows_in@.len()
                    &&& rows_in@.len() > 0
                    &&& g.cols_spec() == rows_in@[0].len()
                    &&& forall|r: int|
                        0 <= r < rows_in@.len() ==> (#[trigger] rows_in@[r]@.len())
                            == rows_in@[0]@.len()
                    &&& forall|r: int, c: int|
                        g.in_bounds(r, c) ==> g.cell_spec(r, c) == rows_in@[r]@[c]
                },
                Err(e) => {
                    &&& e == SearchError::MalformedGrid
                    &&& (rows_in@.len() == 0 || rows_in@[0]@.len() == 0
                        || (exists|r: int|
                            0 <= r < rows_in@.len() && (#[trigger] rows_in@[r]@.len())
                                != rows_in@[0]@.len())
                        || rows_in@.len() * rows_in@[0]@.len() > usize::MAX)
                },
            },
    {
        let nrows = rows_in.len();
        if nrows == 0 {
            return Err(SearchError::MalformedGrid);
        }
        let ncols = rows_in[0].len();
        if ncols == 0 {
            return Err(SearchError::MalformedGrid);
        }
        let total = match nrows.checked_mul(ncols) {
            Some(t) => t,
            None => {
                proof {
                    assert(rows_in@.len() * rows_in@[0]@.len() > usize::MAX);
                }
                return Err(SearchError::MalformedGrid);
            },
        };
        let mut cells: Vec<u8> = Vec::new();
        let mut r: usize = 0;
        while r < nrows
            invariant
                0 <= r <= nrows,
                nrows == rows_in@.len(),
                ncols == rows_in@[0]@.len(),
                ncols > 0,
                nrows * ncols <= usize::MAX,
                cells@.len() == r * ncols,
                forall|i: int| 0 <= i < r ==> (#[trigger] rows_in@[i]@.len()) == ncols,
                forall|k: int|
                    0 <= k < cells@.len() ==> #[trigger] cells@[k] == rows_in@[k / (
                    ncols as int
                    )]@[k % (ncols as int)],
            decreases nrows - r,
        {
            let row = &rows_in[r];
            if row.len() != ncols {
                return Err(SearchError::MalformedGrid);
            }
            let mut j: usize = 0;
            while j < ncols
                invariant
                    0 <= j <= ncols,
                    r < nrows,
                    nrows == rows_in@.len(),
                    ncols == rows_in@[0]@.len(),
                    ncols > 0,
                    nrows * ncols <= usize::MAX,
                    row@ =~= rows_in@[r as int]@,
                    row@.len() == ncols,
                    cells@.len() == r * ncols + j,
                    forall|k: int|
                        0 <= k < cells@.len() ==> #[trigger] cells@[k] == rows_in@[k / (
                        ncols as int
                        )]@[k % (ncols as int)],
                decreases ncols - j,
            {
                proof {
                    assert((r + 1) * ncols <= nrows * ncols) by (nonlinear_arith)
                        requires
                            0 <= r < nrows,
                            0 < ncols,
                    ;
                    assert(r * ncols + j < (r + 1) * ncols) by (nonlinear_arith)
                        requires
                            0 <= j < ncols,
                    ;
                    lemma_row_major(r as int, j as int, ncols as int);
                }
                cells.push(row[j]);
                j += 1;
            }
            r += 1;
            proof {
                assert((r - 1) * ncols + ncols == r * ncols) by (nonlinear_arith);
            }
        }
        let g = GridModel { rows: nrows, cols: ncols, cells };
        proof {
            assert(g.wf());
            assert forall|rr: int, cc: int| g.in_bounds(rr, cc) implies g.cell_spec(rr, cc)
                == rows_in@[rr]@[cc] by {
                g.lemma_index_in_range(rr, cc);
                lemma_row_major(rr, cc, ncols as int);
            }
        }
        Ok(g)
    }

    pub fn height(&self) -> (r: usize)
        ensures
            r as int == self.rows_spec(),
    {
        self.rows
    }

    pub fn width(&self) -> (r: usize)
        ensures
            r as int == self.cols_spec(),
    {
        self.cols
    }

    /// Bounds-checked access: the symbol at (r, c), or `None` outside bounds.
    pub fn cell(&self, r: usize, c: usize) -> (result: Option<u8>)
        requires
            self.wf(),
        ensures
            match result {
                Some(b) => self.in_bounds(r as int, c as int) && b == self.cell_spec(
                    r as int,
                    c as int,
                ),
                None => !self.in_bounds(r as int, c as int),
            },
    {
        if r < self.rows && c < self.cols {
            let stored = self.cells.len();
            proof {
                assert(stored as int == self.n_cells());
                self.lemma_index_in_range(r as int, c as int);
            }
            Some(self.cells[r * self.cols + c])
        } else {
            None
        }
    }

    /// The in-bounds neighbor at offset (dr, dc) from (r, c), as a singleton
    /// sequence, or the empty sequence when that offset leaves the grid.
    pub open spec fn maybe_neighbor(&self, r: int, c: int, dr: int, dc: int) -> Seq<
        ((int, int), u8),
    > {
        if self.in_bounds(r + dr, c + dc) {
            seq![(((r + dr), (c + dc)), self.cell_spec(r + dr, c + dc))]
        } else {
            Seq::empty()
        }
    }

    /// The in-bounds neighbors of (r, c) with their symbols, in a fixed
    /// order: row-major over the offsets, top to bottom, left to right.
    pub open spec fn neighbors_spec(&self, r: int, c: int, conn: Connectivity) -> Seq<
        ((int, int), u8),
    > {
        match conn {
            Connectivity::Four => self.maybe_neighbor(r, c, -1, 0) + self.maybe_neighbor(
                r,
                c,
                0,
                -1,
            ) + self.maybe_neighbor(r, c, 0, 1) + self.maybe_neighbor(r, c, 1, 0),
            Connectivity::Eight => self.maybe_neighbor(r, c, -1, -1) + self.maybe_neighbor(
                r,
                c,
                -1,
                0,
            ) + self.maybe_neighbor(r, c, -1, 1) + self.maybe_neighbor(r, c, 0, -1)
                + self.maybe_neighbor(r, c, 0, 1) + self.maybe_neighbor(r, c, 1, -1)
                + self.maybe_neighbor(r, c, 1, 0) + self.maybe_neighbor(r, c, 1, 1),
        }
    }

    /// Every enumerated neighbor is in bounds and paired with its cell's
    /// symbol.
    pub proof fn lemma_neighbors_wf(&self, r: int, c: int, conn: Connectivity)
        requires
            self.wf(),
            self.in_bounds(r, c),
        ensures
            forall|i: int|
                0 <= i < self.neighbors_spec(r, c, conn).len() ==> {
                    let e = #[trigger] self.neighbors_spec(r, c, conn)[i];
                    self.in_bounds(e.0.0, e.0.1) && e.1 == self.cell_spec(e.0.0, e.0.1)
                },
    {
    }

    /// Enumerates the in-bounds neighbors of (r, c) paired with their
    /// symbols, in the fixed order of `neighbors_spec`.
    pub fn neighbors(&self, r: usize, c: usize, conn: Connectivity) -> (result: Vec<
        ((usize, usize), u8),
    >)
        requires
            self.wf(),
            self.in_bounds(r as int, c as int),
        ensures
            result@.map_values(|p: ((usize, usize), u8)| (((p.0.0 as int, p.0.1 as int)), p.1))
                == self.neighbors_spec(r as int, c as int, conn),
    {
        let mut out: Vec<((usize, usize), u8)> = Vec::new();
        match conn {
            Connectivity::Four => {
                self.push_neighbor(&mut out, r, c, -1, 0);
                self.push_neighbor(&mut out, r, c, 0, -1);
                self.push_neighbor(&mut out, r, c, 0, 1);
                self.push_neighbor(&mut out, r, c, 1, 0);
                proof {
                    assert(out@.map_values(
                        |p: ((usize, usize), u8)| (((p.0.0 as int, p.0.1 as int)), p.1),
                    ) =~= self.neighbors_spec(r as int, c as int, conn));
                }
            },
            Connectivity::Eight => {
                self.push_neighbor(&mut out, r, c, -1, -1);
                self.push_neighbor(&mut out, r, c, -1, 0);
                self.push_neighbor(&mut out, r, c, -1, 1);
                self.push_neighbor(&mut out, r, c, 0, -1);
                self.push_neighbor(&mut out, r, c, 0, 1);
                self.push_neighbor(&mut out, r, c, 1, -1);
                self.push_neighbor(&mut out, r, c, 1, 0);
                self.push_neighbor(&mut out, r, c, 1, 1);
                proof {
                    assert(out@.map_values(
                        |p: ((usize, usize), u8)| (((p.0.0 as int, p.0.1 as int)), p.1),
                    ) =~= self.neighbors_spec(r as int, c as int, conn));
                }
            },
        }
        out
    }

    /// Appends the neighbor at offset (dr, dc), if it is in bounds.
    fn push_neighbor(&self, out: &mut Vec<((usize, usize), u8)>, r: usize, c: usize, dr: i8, dc: i8)
        requires
            self.wf(),
            self.in_bounds(r as int, c as int),
            -1 <= dr as int <= 1,
            -1 <= dc as int <= 1,
        ensures
            final(out)@.map_values(|p: ((usize, usize), u8)| (((p.0.0 as int, p.0.1 as int)), p.1))
                == old(out)@.map_values(
                |p: ((usize, usize), u8)| (((p.0.0 as int, p.0.1 as int)), p.1),
            ) + self.maybe_neighbor(r as int, c as int, dr as int, dc as int),
    {
        let ghost before = out@.map_values(
            |p: ((usize, usize), u8)| (((p.0.0 as int, p.0.1 as int)), p.1),
        );
        let in_rows: bool = if dr < 0 {
            r >= 1
        } else if dr > 0 {
            r + 1 < self.rows
        } else {
            true
        };
        let in_cols: bool = if dc < 0 {
            c >= 1
        } else if dc > 0 {
            c + 1 < self.cols
        } else {
            true
        };
        if in_rows && in_cols {
            let nr: usize = if dr < 0 {
                r - 1
            } else if dr > 0 {
                r + 1
            } else {
                r
            };
            let nc: usize = if dc < 0 {
                c - 1
            } else if dc > 0 {
                c + 1
            } else {
                c
            };
            let stored = self.cells.len();
            proof {
                assert(stored as int == self.n_cells());
                self.lemma_index_in_range(nr as int, nc as int);
            }
            let sym = self.cells[nr * self.cols + nc];
            out.push(((nr, nc), sym));
            proof {
                assert(out@.map_values(
                    |p: ((usize, usize), u8)| (((p.0.0 as int, p.0.1 as int)), p.1),
                ) =~= before + self.maybe_neighbor(r as int, c as int, dr as int, dc as int));
            }
        } else {
            proof {
                assert(self.maybe_neighbor(r as int, c as int, dr as int, dc as int)
                    =~= Seq::<((int, int), u8)>::empty());
                assert(out@.map_values(
                    |p: ((usize, usize), u8)| (((p.0.0 as int, p.0.1 as int)), p.1),
                ) =~= before + self.maybe_neighbor(r as int, c as int, dr as int, dc as int));
            }
        }
    }
}

} // verus!
