//! The fixed-size 2-D grid of cells.
//!
//! A grid owns a dense row-major arena of cells (`index = y * columns + x`)
//! and provides coordinate/index conversion and 8-connected neighbor
//! enumeration. A cell carries its classification together with the search
//! bookkeeping scores `g`, `h` and `f`; a Wall cell's `g` is pinned at `0`
//! for its entire lifetime, which is what makes walls impassable (no
//! positive candidate cost ever relaxes them).

use vstd::prelude::*;

verus! {

/// Largest accepted grid dimension; keeps every index and every fixed-point
/// score computation inside machine integer ranges.
pub const MAX_DIM: usize = 0x8000;

/// Cost-so-far of a cell that the search has not discovered yet.
pub const G_INFINITY: u64 = u64::MAX;

/// Classification of a single grid cell.
#[derive(Clone, Copy, Debug, PartialEq, Eq, Structural)]
pub enum CellKind {
    Start,
    End,
    Path,
    Wall,
    Background,
}

/// One grid location: its classification, its own coordinates, and the
/// search bookkeeping scores.
///
/// `g` is the best known cost from the start in whole steps
/// (`G_INFINITY` until discovered, and pinned at `0` for Wall cells);
/// `h` is the fixed-point heuristic distance to the end (see
/// [`crate::math::euclidean`]); `f == SCALE * g + h` is the total score used
/// as the ordering key of the open set.
#[derive(Clone, Copy, Debug)]
pub struct Cell {
    pub kind: CellKind,
    pub x: usize,
    pub y: usize,
    pub g: u64,
    pub h: u64,
    pub f: u128,
}

/// Failure of grid construction.
#[derive(Clone, Copy, Debug, PartialEq, Eq, Structural)]
pub enum GridError {
    InvalidDimensions,
}

/// The fixed-size row-major grid.
pub struct Grid {
    pub cells: Vec<Cell>,
    pub rows: usize,
    pub columns: usize,
}

/// 8-connected (Chebyshev) adjacency: the two coordinates differ, and each
/// component differs by at most one.
pub open spec fn adjacent(x1: int, y1: int, x2: int, y2: int) -> bool {
    &&& -1 <= x1 - x2 <= 1
    &&& -1 <= y1 - y2 <= 1
    &&& !(x1 == x2 && y1 == y2)
}

/// `ns` holds the index `i` somewhere.
pub open spec fn contains_index(ns: Seq<usize>, i: int) -> bool {
    exists|j: int| 0 <= j < ns.len() && ns[j] == i
}

impl Grid {
    /// `(x, y)` lies on the grid.
    pub open spec fn in_bounds(self, x: int, y: int) -> bool {
        0 <= x < self.columns && 0 <= y < self.rows
    }

    /// Row-major index of `(x, y)`.
    pub open spec fn spec_idx(self, x: int, y: int) -> int {
        y * self.columns + x
    }

    /// The x coordinate encoded in index `i`.
    pub open spec fn x_of(self, i: int) -> int {
        i % (self.columns as int)
    }

    /// The y coordinate encoded in index `i`.
    pub open spec fn y_of(self, i: int) -> int {
        i / (self.columns as int)
    }

    /// Well-formedness: positive bounded dimensions, a cell for every index,
    /// every cell placed at the index its coordinates encode, and every Wall
    /// cell's `g` pinned at `0`.
    pub open spec fn wf(self) -> bool {
        &&& 1 <= self.columns <= MAX_DIM
        &&& 1 <= self.rows <= MAX_DIM
        &&& self.cells@.len() == (self.rows as int) * (self.columns as int)
        &&& forall|i: int| 0 <= i < self.cells@.len() ==> {
            let c = #[trigger] self.cells@[i];
            c.x == self.x_of(i) && c.y == self.y_of(i)
        }
        &&& forall|i: int| 0 <= i < self.cells@.len() ==> ((#[trigger] self.cells@[i]).kind
            == CellKind::Wall ==> self.cells@[i].g == 0)
    }

    /// The row-major mapping takes every in-bounds coordinate to a valid
    /// index and is inverted by `x_of`/`y_of`.
    pub proof fn lemma_idx_coords(self, x: int, y: int)
        requires
            self.wf(),
            self.in_bounds(x, y),
        ensures
            0 <= self.spec_idx(x, y) < self.cells@.len(),
            self.x_of(self.spec_idx(x, y)) == x,
            self.y_of(self.spec_idx(x, y)) == y,
    {
        let c = self.columns as int;
        assert(0 <= y * c + x && y * c + x < (self.rows as int) * c) by (nonlinear_arith)
            requires
                0 <= x < c,
                0 <= y <= (self.rows as int) - 1,
        ;
        vstd::arithmetic::div_mod::lemma_fundamental_div_mod_converse(y * c + x, c, y, x);
    }

    /// Every valid index decodes to in-bounds coordinates that encode back
    /// to the same index: the mapping is a bijection over the grid's domain.
    pub proof fn lemma_coords_idx(self, i: int)
        requires
            self.wf(),
            0 <= i < self.cells@.len(),
        ensures
            self.in_bounds(self.x_of(i), self.y_of(i)),
            self.spec_idx(self.x_of(i), self.y_of(i)) == i,
    {
        let c = self.columns as int;
        vstd::arithmetic::div_mod::lemma_fundamental_div_mod(i, c);
        vstd::arithmetic::div_mod::lemma_mod_bound(i, c);
        assert(0 <= i / c) by (nonlinear_arith)
            requires 0 <= i, c >= 1,
        ;
        assert(i / c < self.rows as int) by (nonlinear_arith)
            requires
                c >= 1,
                i < (self.rows as int) * c,
                i == (i / c) * c + i % c,
                0 <= i % c < c,
        ;
    }

    /// Allocates a `columns * rows` grid of Background cells, each with `g`
    /// at `G_INFINITY` and `h`, `f` at zero. Fails exactly on invalid
    /// dimensions: zero, or beyond `MAX_DIM`.
    pub fn init(columns: usize, rows: usize) -> (result: Result<Grid, GridError>)
        ensures
            match result {
                Ok(grid) => {
                    &&& 1 <= columns <= MAX_DIM
                    &&& 1 <= rows <= MAX_DIM
                    &&& grid.wf()
                    &&& grid.columns == columns
                    &&& grid.rows == rows
                    &&& forall|i: int| 0 <= i < grid.cells@.len() ==> {
                        let c = #[trigger] grid.cells@[i];
                        c.kind == CellKind::Background && c.g == G_INFINITY && c.h == 0 && c.f == 0
                    }
                },
                Err(e) => {
                    &&& (columns < 1 || rows < 1 || columns > MAX_DIM || rows > MAX_DIM)
                    &&& e == GridError::InvalidDimensions
                },
            },
    {
        if columns < 1 || rows < 1 || columns > MAX_DIM || rows > MAX_DIM {
            return Err(GridError::InvalidDimensions);
        }
        proof {
            assert((rows as int) * (columns as int) <= 0x4000_0000) by (nonlinear_arith)
                requires
                    1 <= rows <= 0x8000,
                    1 <= columns <= 0x8000,
            ;
        }
        let total: usize = rows * columns;
        let mut cells: Vec<Cell> = Vec::new();
        let mut i: usize = 0;
        while i < total
            invariant
                i <= total,
                total == (rows as int) * (columns as int),
                1 <= columns <= MAX_DIM,
                1 <= rows <= MAX_DIM,
                cells@.len() == i,
                forall|j: int| 0 <= j < i ==> {
                    let c = #[trigger] cells@[j];
                    &&& c.x == j % (columns as int)
                    &&& c.y == j / (columns as int)
                    &&& c.kind == CellKind::Background
                    &&& c.g == G_INFINITY
                    &&& c.h == 0
                    &&& c.f == 0
                },
            decreases total - i,
        {
            let x = i % columns;
            let y = i / columns;
            cells.push(Cell { kind: CellKind::Background, x, y, g: G_INFINITY, h: 0, f: 0 });
            i = i + 1;
        }
        Ok(Grid { cells, rows, columns })
    }

    /// Pure coordinate-to-index conversion.
    pub fn idx(&self, x: usize, y: usize) -> (i: usize)
        requires
            self.wf(),
            self.in_bounds(x as int, y as int),
        ensures
            i == self.spec_idx(x as int, y as int),
            i < self.cells@.len(),
            self.cells@[i as int].x == x,
            self.cells@[i as int].y == y,
    {
        proof {
            self.lemma_idx_coords(x as int, y as int);
            assert((y as int) * (self.columns as int) + x < 0x4000_0000) by (nonlinear_arith)
                requires
                    0 <= x < self.columns <= 0x8000,
                    0 <= y < self.rows <= 0x8000,
            ;
        }
        y * self.columns + x
    }

    /// Overwrites the classification of the cell at `(x, y)` and returns its
    /// index; the scores `g`, `h`, `f` are not touched. Used to designate
    /// the Start and End cells. Walls are placed with [`Grid::set_wall`],
    /// which also pins `g`.
    pub fn mark(&mut self, x: usize, y: usize, kind: CellKind) -> (i: usize)
        requires
            old(self).wf(),
            old(self).in_bounds(x as int, y as int),
            kind != CellKind::Wall,
        ensures
            final(self).wf(),
            final(self).rows == old(self).rows,
            final(self).columns == old(self).columns,
            final(self).cells@.len() == old(self).cells@.len(),
            i == old(self).spec_idx(x as int, y as int) && i < final(self).cells@.len(),
            final(self).cells@[i as int].kind == kind,
            final(self).cells@[i as int] == (Cell { kind, ..old(self).cells@[i as int] }),
            forall|j: int| 0 <= j < final(self).cells@.len() && j != i ==> final(self).cells@[j]
                == old(self).cells@[j],
    {
        let i = self.idx(x, y);
        let mut cell = self.cells[i];
        cell.kind = kind;
        self.cells[i] = cell;
        i
    }

    /// Classifies the cell at `(x, y)` as Wall and pins its cost-so-far at
    /// zero, the sentinel that keeps walls from ever being relaxed. Wall
    /// placement is an initialization-time policy of the external driver.
    pub fn set_wall(&mut self, x: usize, y: usize) -> (i: usize)
        requires
            old(self).wf(),
            old(self).in_bounds(x as int, y as int),
        ensures
            final(self).wf(),
            final(self).rows == old(self).rows,
            final(self).columns == old(self).columns,
            final(self).cells@.len() == old(self).cells@.len(),
            i == old(self).spec_idx(x as int, y as int) && i < final(self).cells@.len(),
            final(self).cells@[i as int] == (Cell {
                kind: CellKind::Wall,
                g: 0,
                ..old(self).cells@[i as int]
            }),
            forall|j: int| 0 <= j < final(self).cells@.len() && j != i ==> final(self).cells@[j]
                == old(self).cells@[j],
    {
        let i = self.idx(x, y);
        let mut cell = self.cells[i];
        cell.kind = CellKind::Wall;
        cell.g = 0;
        self.cells[i] = cell;
        i
    }

    /// The up-to-8 orthogonally and diagonally adjacent in-bounds cell
    /// indices, in a fixed row-major order: exactly the indices whose
    /// coordinates are [`adjacent`] to `(x, y)`, each once.
    pub fn neighbors(&self, x: usize, y: usize) -> (ns: Vec<usize>)
        requires
            self.wf(),
            self.in_bounds(x as int, y as int),
        ensures
            forall|j: int| 0 <= j < ns@.len() ==> {
                let i = #[trigger] ns@[j];
                &&& i < self.cells@.len()
                &&& self.in_bounds(self.x_of(i as int), self.y_of(i as int))
                &&& adjacent(x as int, y as int, self.x_of(i as int), self.y_of(i as int))
            },
            forall|nx: int, ny: int|
                self.in_bounds(nx, ny) && adjacent(x as int, y as int, nx, ny)
                    ==> contains_index(ns@, self.spec_idx(nx, ny)),
            ns@.no_duplicates(),
    {
        let ghost xi = x as int;
        let ghost yi = y as int;
        let mut ns: Vec<usize> = Vec::new();
        let mut k: usize = 0;
        while k < 9
            invariant
                self.wf(),
                self.in_bounds(xi, yi),
                x == xi,
                y == yi,
                k <= 9,
                forall|j: int| 0 <= j < ns@.len() ==> {
                    let i = #[trigger] ns@[j];
                    &&& i < self.cells@.len()
                    &&& self.in_bounds(self.x_of(i as int), self.y_of(i as int))
                    &&& adjacent(xi, yi, self.x_of(i as int), self.y_of(i as int))
                    &&& (self.y_of(i as int) - yi + 1) * 3 + (self.x_of(i as int) - xi + 1) < k
                },
                forall|nx: int, ny: int|
                    self.in_bounds(nx, ny) && adjacent(xi, yi, nx, ny) && (ny - yi + 1) * 3 + (nx
                        - xi + 1) < k ==> contains_index(ns@, self.spec_idx(nx, ny)),
                ns@.no_duplicates(),
            decreases 9 - k,
        {
            if k != 4 {
                let dx = k % 3;
                let dy = k / 3;
                if (dx > 0 || x > 0) && (dx < 2 || x + 1 < self.columns) && (dy > 0 || y > 0) && (dy
                    < 2 || y + 1 < self.rows) {
                    let nx = x + dx - 1;
                    let ny = y + dy - 1;
                    let i = self.idx(nx, ny);
                    proof {
                        self.lemma_idx_coords(nx as int, ny as int);
                    }
                    let ghost old_ns = ns@;
                    ns.push(i);
                    proof {
                        assert(ns@[ns@.len() - 1] == i);
                        assert(forall|j: int| 0 <= j < old_ns.len() ==> ns@[j] == old_ns[j]);
                        assert forall|j: int| 0 <= j < ns@.len() - 1 implies ns@[j] != i by {
                            let e = ns@[j];
                            if e == i {
                                assert(self.x_of(e as int) == self.x_of(i as int));
                                assert((self.y_of(e as int) - yi + 1) * 3 + (self.x_of(e as int)
                                    - xi + 1) == (self.y_of(i as int) - yi + 1) * 3 + (self.x_of(
                                    i as int) - xi + 1));
                            }
                        }
                    }
                }
            }
            k = k + 1;
            proof {
                assert forall|nx: int, ny: int|
                    self.in_bounds(nx, ny) && adjacent(xi, yi, nx, ny) && (ny - yi + 1) * 3 + (nx
                        - xi + 1) < k implies contains_index(ns@, self.spec_idx(nx, ny)) by {
                    let off = (ny - yi + 1) * 3 + (nx - xi + 1);
                    if off == k - 1 && k - 1 != 4 {
                        assert(ns@[ns@.len() - 1] == self.spec_idx(nx, ny) || contains_index(
                            ns@, self.spec_idx(nx, ny)));
                    }
                }
            }
        }
        ns
    }
}

} // verus!
