//! Dense two-dimensional grids of scalar values.
//!
//! A grid of width `w` and height `h` holds `w * h` cells row by row: the
//! cell at column `x` of row `y` is cell number `y * w + x`.

use crate::error::StoreError;
use vstd::arithmetic::div_mod::lemma_fundamental_div_mod_converse;
use vstd::prelude::*;

verus! {

/// A grid as a mathematical value.
pub ghost struct GridModel<T> {
    pub width: nat,
    pub height: nat,
    /// The cells, row by row.
    pub cells: Seq<T>,
}

impl<T> GridModel<T> {
    /// There are as many cells as the dimensions say.
    pub open spec fn wf(self) -> bool {
        self.cells.len() == self.width * self.height
    }

    /// The coordinate lies in the grid.
    pub open spec fn in_bounds(self, x: int, y: int) -> bool {
        0 <= x < self.width && 0 <= y < self.height
    }

    /// The number of the cell at column `x` of row `y`.
    pub open spec fn slot(self, x: int, y: int) -> int {
        y * self.width + x
    }

    /// The cell at column `x` of row `y`.
    pub open spec fn at(self, x: int, y: int) -> T {
        self.cells[self.slot(x, y)]
    }

    /// The grid with the cell at column `x` of row `y` replaced by `v`.
    pub open spec fn with(self, x: int, y: int, v: T) -> GridModel<T> {
        GridModel { cells: self.cells.update(self.slot(x, y), v), ..self }
    }

    /// Cell number `k` with its column and its row.
    pub open spec fn triple(self, k: int) -> (int, int, T) {
        (k % (self.width as int), k / (self.width as int), self.cells[k])
    }

    /// All cells with their columns and rows, row by row.
    pub open spec fn triples(self) -> Seq<(int, int, T)> {
        Seq::new(self.cells.len(), |k: int| self.triple(k))
    }
}

/// A grid of `width` by `height` cells that all hold `fill`.
pub open spec fn filled<T>(width: nat, height: nat, fill: T) -> GridModel<T> {
    GridModel { width, height, cells: Seq::new(width * height, |k: int| fill) }
}

/// Every coordinate of a grid has a slot of its own among the cells.
pub proof fn lemma_slot_in_range(width: nat, height: nat, x: int, y: int)
    requires
        0 <= x < width,
        0 <= y < height,
    ensures
        0 <= y * width + x < width * height,
        (y * width + x) % (width as int) == x,
        (y * width + x) / (width as int) == y,
{
    assert(y * width + x < width * height) by (nonlinear_arith)
        requires
            0 <= x < width,
            0 <= y < height,
    ;
    assert(0 <= y * width + x) by (nonlinear_arith)
        requires
            0 <= x < width,
            0 <= y < height,
    ;
    lemma_fundamental_div_mod_converse(y * width + x, width as int, y, x);
}

/// Two coordinates of a grid with the same slot are the same coordinate.
pub proof fn lemma_slot_injective<T>(g: GridModel<T>, x1: int, y1: int, x2: int, y2: int)
    requires
        g.in_bounds(x1, y1),
        g.in_bounds(x2, y2),
        g.slot(x1, y1) == g.slot(x2, y2),
    ensures
        x1 == x2 && y1 == y2,
{
    lemma_slot_in_range(g.width, g.height, x1, y1);
    lemma_slot_in_range(g.width, g.height, x2, y2);
}

/// After a cell was replaced, its coordinate holds the new value and every
/// other coordinate holds what it held before.
pub proof fn lemma_with_at<T>(g: GridModel<T>, x: int, y: int, v: T, x2: int, y2: int)
    requires
        g.wf(),
        g.in_bounds(x, y),
        g.in_bounds(x2, y2),
    ensures
        g.with(x, y, v).wf(),
        g.with(x, y, v).at(x2, y2) == if x2 == x && y2 == y {
            v
        } else {
            g.at(x2, y2)
        },
{
    lemma_slot_in_range(g.width, g.height, x, y);
    lemma_slot_in_range(g.width, g.height, x2, y2);
    if g.slot(x, y) == g.slot(x2, y2) {
        lemma_slot_injective(g, x, y, x2, y2);
    }
}

/// The walk over a grid comes to every coordinate once, and to a coordinate
/// at the place that its row and its column give it.
pub proof fn lemma_triple_of_slot<T>(g: GridModel<T>, x: int, y: int)
    requires
        g.wf(),
        g.in_bounds(x, y),
    ensures
        0 <= g.slot(x, y) < g.triples().len(),
        g.triples()[g.slot(x, y)] == (x, y, g.at(x, y)),
{
    lemma_slot_in_range(g.width, g.height, x, y);
}

/// A dense grid of `width` by `height` values, stored row by row.
#[derive(Debug, PartialEq)]
pub struct Grid<T> {
    width: u32,
    height: u32,
    data: Vec<T>,
}

impl<T> View for Grid<T> {
    type V = GridModel<T>;

    closed spec fn view(&self) -> GridModel<T> {
        GridModel { width: self.width as nat, height: self.height as nat, cells: self.data@ }
    }
}

impl<T> Grid<T> {
    #[verifier::type_invariant]
    spec fn well_formed(&self) -> bool {
        self.data.len() == self.width * self.height
    }
}

impl<T: Copy> Grid<T> {
    /// A grid of the given dimensions in which every cell holds `fill`.
    pub fn new(width: u32, height: u32, fill: T) -> (g: Grid<T>)
        requires
            width * height <= usize::MAX,
        ensures
            g@ == filled(width as nat, height as nat, fill),
            g@.wf(),
    {
        let count = (width as usize) * (height as usize);
        let mut data: Vec<T> = Vec::with_capacity(count);
        let mut i: usize = 0;
        while i < count
            invariant
                i <= count,
                data.len() == i,
                forall|k: int| 0 <= k < i ==> data[k] == fill,
            decreases count - i,
        {
            data.push(fill);
            i = i + 1;
        }
        proof {
            assert(data@ =~= filled(width as nat, height as nat, fill).cells);
        }
        Grid { width, height, data }
    }

    /// The grid of the given dimensions whose cells are `data`, row by row.
    /// Fails with `OutOfBounds` if `data` has not `width * height` cells.
    pub fn from_cells(width: u32, height: u32, data: Vec<T>) -> (r: Result<Grid<T>, StoreError>)
        ensures
            match r {
                Ok(g) => data.len() == width * height && g@ == (GridModel {
                    width: width as nat,
                    height: height as nat,
                    cells: data@,
                }) && g@.wf(),
                Err(e) => e == StoreError::OutOfBounds && data.len() != width * height,
            },
    {
        assert(width * height <= u64::MAX) by (nonlinear_arith)
            requires
                width <= u32::MAX,
                height <= u32::MAX,
        ;
        let count = (width as u64) * (height as u64);
        if data.len() as u64 == count {
            Ok(Grid { width, height, data })
        } else {
            Err(StoreError::OutOfBounds)
        }
    }

    /// The number of columns.
    pub fn width(&self) -> (w: u32)
        ensures
            w == self@.width,
    {
        self.width
    }

    /// The number of rows.
    pub fn height(&self) -> (h: u32)
        ensures
            h == self@.height,
    {
        self.height
    }

    /// The number of cells.
    pub fn len(&self) -> (n: usize)
        ensures
            n == self@.cells.len(),
            self@.wf(),
    {
        proof {
            use_type_invariant(self);
        }
        self.data.len()
    }

    /// The cells, row by row.
    pub fn cells(&self) -> (cells: &[T])
        ensures
            cells@ == self@.cells,
            self@.wf(),
    {
        proof {
            use_type_invariant(self);
        }
        self.data.as_slice()
    }

    /// The value at column `x` of row `y`. Fails with `OutOfBounds` if the
    /// coordinate lies outside the grid.
    pub fn get(&self, x: u32, y: u32) -> (r: Result<T, StoreError>)
        ensures
            match r {
                Ok(v) => self@.in_bounds(x as int, y as int) && v == self@.at(x as int, y as int),
                Err(e) => e == StoreError::OutOfBounds && !self@.in_bounds(x as int, y as int),
            },
    {
        proof {
            use_type_invariant(self);
        }
        if x < self.width && y < self.height {
            proof {
                lemma_slot_in_range(self.width as nat, self.height as nat, x as int, y as int);
            }
            Ok(self.data[(y as usize) * (self.width as usize) + (x as usize)])
        } else {
            Err(StoreError::OutOfBounds)
        }
    }

    /// Puts `v` at column `x` of row `y`. Fails with `OutOfBounds`, and
    /// changes nothing, if the coordinate lies outside the grid.
    pub fn set(&mut self, x: u32, y: u32, v: T) -> (r: Result<(), StoreError>)
        ensures
            match r {
                Ok(_) => old(self)@.in_bounds(x as int, y as int) && final(self)@ == old(self)@.with(
                    x as int,
                    y as int,
                    v,
                ),
                Err(e) => e == StoreError::OutOfBounds && !old(self)@.in_bounds(x as int, y as int)
                    && final(self)@ == old(self)@,
            },
    {
        proof {
            use_type_invariant(&*self);
        }
        if x < self.width && y < self.height {
            proof {
                lemma_slot_in_range(self.width as nat, self.height as nat, x as int, y as int);
            }
            let slot = (y as usize) * (self.width as usize) + (x as usize);
            let mut taken = Grid { width: 0, height: 0, data: Vec::new() };
            std::mem::swap(self, &mut taken);
            let Grid { width, height, mut data } = taken;
            data.set(slot, v);
            *self = Grid { width, height, data };
            Ok(())
        } else {
            Err(StoreError::OutOfBounds)
        }
    }

    /// A cursor at the first cell of the grid.
    pub fn iter(&self) -> (c: GridCursor<'_, T>)
        ensures
            c.grid() == self@,
            c.position() == 0,
    {
        proof {
            use_type_invariant(self);
        }
        GridCursor { grid: self, x: 0, y: 0, pos: 0 }
    }

    /// All cells with their columns and rows, row by row.
    pub fn triples(&self) -> (r: Vec<(u32, u32, T)>)
        ensures
            r.len() == self@.cells.len(),
            forall|k: int|
                0 <= k < r.len() ==> (r[k].0 as int, r[k].1 as int, r[k].2) == self@.triple(k),
    {
        let mut out: Vec<(u32, u32, T)> = Vec::new();
        let mut cursor = self.iter();
        loop
            invariant
                cursor.grid() == self@,
                cursor.position() == out.len(),
                out.len() <= self@.cells.len(),
                forall|k: int|
                    0 <= k < out.len() ==> (out[k].0 as int, out[k].1 as int, out[k].2)
                        == self@.triple(k),
            ensures
                out.len() == self@.cells.len(),
            decreases self@.cells.len() - out.len(),
        {
            match cursor.next() {
                Some(t) => {
                    out.push(t);
                },
                None => {
                    break ;
                },
            }
        }
        out
    }
}

/// A place in the row-by-row walk over the cells of a grid.
pub struct GridCursor<'a, T> {
    grid: &'a Grid<T>,
    x: u32,
    y: u32,
    pos: usize,
}

impl<'a, T> GridCursor<'a, T> {
    #[verifier::type_invariant]
    spec fn well_formed(&self) -> bool {
        &&& self.grid.data.len() == self.grid.width * self.grid.height
        &&& self.pos <= self.grid.data.len()
        &&& self.pos == self.y * self.grid.width + self.x
        &&& self.pos < self.grid.data.len() ==> self.x < self.grid.width
    }
}

impl<'a, T: Copy> GridCursor<'a, T> {
    /// The grid that is walked.
    pub closed spec fn grid(&self) -> GridModel<T> {
        self.grid@
    }

    /// The number of cells that were handed out.
    pub closed spec fn position(&self) -> int {
        self.pos as int
    }

    /// Hands out the next cell with its column and its row, or `None` when
    /// every cell was handed out.
    pub fn next(&mut self) -> (r: Option<(u32, u32, T)>)
        ensures
            final(self).grid() == old(self).grid(),
            match r {
                Some(t) => {
                    &&& old(self).position() < old(self).grid().cells.len()
                    &&& (t.0 as int, t.1 as int, t.2) == old(self).grid().triple(old(self).position())
                    &&& final(self).position() == old(self).position() + 1
                },
                None => {
                    &&& old(self).position() >= old(self).grid().cells.len()
                    &&& final(self).position() == old(self).position()
                },
            },
    {
        proof {
            use_type_invariant(&*self);
        }
        if self.pos >= self.grid.data.len() {
            return None;
        }
        let ghost w = self.grid.width as int;
        proof {
            lemma_fundamental_div_mod_converse(self.pos as int, w, self.y as int, self.x as int);
            assert(self.y < self.grid.height) by (nonlinear_arith)
                requires
                    self.y * w + self.x < w * self.grid.height,
                    0 <= self.x,
                    0 < w,
            ;
        }
        let t = (self.x, self.y, self.grid.data[self.pos]);
        let (x, y) = if self.x + 1 < self.grid.width {
            (self.x + 1, self.y)
        } else {
            proof {
                assert((self.y + 1) * w == self.y * w + w) by (nonlinear_arith);
                assert((self.y + 1) * w <= self.grid.height * w) by (nonlinear_arith)
                    requires
                        self.y + 1 <= self.grid.height,
                        0 < w,
                ;
            }
            (0, self.y + 1)
        };
        let pos = self.pos + 1;
        *self = GridCursor { grid: self.grid, x, y, pos };
        Some(t)
    }
}

} // verus!
