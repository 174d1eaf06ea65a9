//! The mathematical model of a field: a rectangle of cells in row-major order.

use vstd::prelude::*;
use vstd::arithmetic::div_mod::lemma_fundamental_div_mod;
use vstd::arithmetic::div_mod::lemma_fundamental_div_mod_converse;
use crate::partition::chunk_size;
use crate::partition::inner_offsets;
use crate::partition::is_inner_column;
use crate::partition::offsets;
use crate::partition::spans;

verus! {

/// The five cells an equation reads: a cell and its four axis neighbours.
/// `up` is the cell one row above (smaller `y`), `down` the one below.
pub struct Stencil<T> {
    pub center: T,
    pub left: T,
    pub right: T,
    pub up: T,
    pub down: T,
}

impl<T: Copy> Clone for Stencil<T> {
    fn clone(&self) -> (copy: Self)
        ensures
            copy == *self,
    {
        *self
    }
}

impl<T: Copy> Copy for Stencil<T> {

}

/// A `width` by `height` rectangle of cells; the cell at `(x, y)` is
/// `cells[x + width * y]`.
pub struct Grid<T> {
    pub width: nat,
    pub height: nat,
    pub cells: Seq<T>,
}

impl<T> Grid<T> {
    /// There is one cell for every coordinate.
    pub open spec fn wf(self) -> bool {
        self.cells.len() == self.width * self.height
    }

    pub open spec fn contains(self, x: int, y: int) -> bool {
        0 <= x < self.width && 0 <= y < self.height
    }

    /// A cell is interior when it is not on the outermost ring.
    pub open spec fn is_inner(self, x: int, y: int) -> bool {
        1 <= x < self.width - 1 && 1 <= y < self.height - 1
    }

    pub open spec fn offset(self, x: int, y: int) -> int {
        x + self.width * y
    }

    /// The column of the cell stored at `offset`.
    pub open spec fn column(self, offset: int) -> int {
        offset % (self.width as int)
    }

    /// The row of the cell stored at `offset`.
    pub open spec fn row(self, offset: int) -> int {
        offset / (self.width as int)
    }

    pub open spec fn at(self, x: int, y: int) -> T {
        self.cells[self.offset(x, y)]
    }

    pub open spec fn stencil(self, x: int, y: int) -> Stencil<T> {
        Stencil {
            center: self.at(x, y),
            left: self.at(x - 1, y),
            right: self.at(x + 1, y),
            up: self.at(x, y - 1),
            down: self.at(x, y + 1),
        }
    }

    /// The grid with the cell at `(x, y)` replaced by `value`.
    pub open spec fn put(self, x: int, y: int, value: T) -> Grid<T> {
        Grid { cells: self.cells.update(self.offset(x, y), value), ..self }
    }

    /// Every cell holds `value`.
    pub open spec fn is_uniform(self, value: T) -> bool {
        forall|i: int| 0 <= i < self.cells.len() ==> #[trigger] self.cells[i] == value
    }

    /// Every cell holds a default value of the cell type, and all cells hold
    /// the same one.
    pub open spec fn is_default_filled(self) -> bool where T: Default {
        &&& forall|i: int|
            0 <= i < self.cells.len() ==> call_ensures(T::default, (), #[trigger] self.cells[i])
        &&& forall|i: int, j: int|
            0 <= i < self.cells.len() && 0 <= j < self.cells.len() ==> self.cells[i]
                == self.cells[j]
    }

    /// Every cell of the outermost ring holds `value`.
    pub open spec fn has_border(self, value: T) -> bool {
        forall|x: int, y: int|
            self.contains(x, y) && !self.is_inner(x, y) ==> #[trigger] self.at(x, y) == value
    }

    /// The offsets of all cells, in storage order.
    pub open spec fn all_cells(self) -> Seq<int> {
        offsets(0, self.cells.len() as int)
    }

    /// The offsets of the interior cells, in storage order: the cells in an
    /// inner column of a row other than the first and the last.
    pub open spec fn inner_cells(self) -> Seq<int> {
        inner_offsets(self.width as int, self.width as int, self.cells.len() - self.width)
    }

    /// The chunks into which the cells are cut for `count` workers.
    pub open spec fn chunks(self, count: nat) -> Seq<(int, int)> {
        spans(0, self.cells.len() as int, chunk_size(self.cells.len(), count) as int)
    }

    /// The chunks into which the rows that hold interior cells are cut for
    /// `count` workers. A grid without interior cells has none.
    pub open spec fn inner_chunks(self, count: nat) -> Seq<(int, int)> {
        if self.width >= 3 && self.height >= 3 {
            spans(
                self.width as int,
                self.cells.len() - self.width,
                chunk_size((self.cells.len() - 2 * self.width) as nat, count) as int,
            )
        } else {
            Seq::empty()
        }
    }

    /// The offset of a cell of the grid lies inside the storage.
    pub proof fn lemma_offset_in_range(self, x: int, y: int)
        requires
            self.wf(),
            self.contains(x, y),
        ensures
            0 <= self.offset(x, y) < self.cells.len(),
            self.column(self.offset(x, y)) == x,
            self.row(self.offset(x, y)) == y,
    {
        lemma_offset_bounds(self.width as int, self.height as int, x, y);
        lemma_offset_split(self.width as int, x, y);
    }

    /// The interior cells are those stored after the first row and before
    /// the last, in an inner column.
    pub proof fn lemma_inner_cell(self, offset: int)
        requires
            self.wf(),
            0 <= offset < self.cells.len(),
        ensures
            self.is_inner(self.column(offset), self.row(offset)) <==> (self.width <= offset
                < self.cells.len() - self.width && is_inner_column(self.width as int, offset)),
    {
        let w = self.width as int;
        let h = self.height as int;
        let row = offset / w;
        lemma_split_bounds(w, h, offset);
        assert(w * h - w == w * (h - 1)) by (nonlinear_arith);
        if row >= 1 {
            assert(w * row >= w) by (nonlinear_arith)
                requires
                    row >= 1,
                    w >= 0,
            ;
        } else {
            assert(w * row == 0) by (nonlinear_arith)
                requires
                    row == 0,
            ;
        }
        if row <= h - 2 {
            assert(w * row + w <= w * (h - 1)) by (nonlinear_arith)
                requires
                    row <= h - 2,
                    w >= 0,
            ;
        } else {
            assert(w * row >= w * (h - 1)) by (nonlinear_arith)
                requires
                    row >= h - 1,
                    w >= 0,
            ;
        }
    }

    /// Replacing one cell leaves every other cell as it was.
    pub proof fn lemma_put_at(self, x: int, y: int, value: T, cx: int, cy: int)
        requires
            self.wf(),
            self.contains(x, y),
            self.contains(cx, cy),
        ensures
            self.put(x, y, value).wf(),
            self.put(x, y, value).at(cx, cy) == if cx == x && cy == y {
                value
            } else {
                self.at(cx, cy)
            },
    {
        self.lemma_offset_in_range(x, y);
        self.lemma_offset_in_range(cx, cy);
    }

    /// Every place in the storage is the offset of exactly one cell.
    pub proof fn lemma_coordinates_of(self, offset: int)
        requires
            self.wf(),
            0 <= offset < self.cells.len(),
        ensures
            self.contains(self.column(offset), self.row(offset)),
            self.offset(self.column(offset), self.row(offset)) == offset,
    {
        lemma_split_bounds(self.width as int, self.height as int, offset);
    }
}

/// `x + w * y` stays below `w * h` for a coordinate inside a `w` by `h` rectangle.
pub proof fn lemma_offset_bounds(w: int, h: int, x: int, y: int)
    requires
        0 <= x < w,
        0 <= y < h,
    ensures
        0 <= x + w * y < w * h,
{
    assert(w * y + w == w * (y + 1)) by (nonlinear_arith);
    assert(0 <= w * y) by (nonlinear_arith)
        requires
            0 <= w,
            0 <= y,
    ;
    assert(w * (y + 1) <= w * h) by (nonlinear_arith)
        requires
            0 <= w,
            y + 1 <= h,
    ;
}

/// Column and row are recovered from an offset by remainder and quotient.
pub proof fn lemma_offset_split(w: int, x: int, y: int)
    requires
        0 <= x < w,
    ensures
        (x + w * y) % w == x,
        (x + w * y) / w == y,
{
    assert(x + w * y == y * w + x) by (nonlinear_arith);
    lemma_fundamental_div_mod_converse(x + w * y, w, y, x);
}

/// An offset below `w * h` splits into a column below `w` and a row below `h`.
pub proof fn lemma_split_bounds(w: int, h: int, i: int)
    requires
        0 <= i < w * h,
        0 <= h,
    ensures
        0 <= i % w < w,
        0 <= i / w < h,
        i == i % w + w * (i / w),
{
    assert(w > 0) by (nonlinear_arith)
        requires
            0 <= i < w * h,
            0 <= h,
    ;
    lemma_fundamental_div_mod(i, w);
    let q = i / w;
    assert(q >= 0) by (nonlinear_arith)
        requires
            i == w * q + i % w,
            0 <= i,
            0 <= i % w < w,
    ;
    assert(q < h) by (nonlinear_arith)
        requires
            i == w * q + i % w,
            i < w * h,
            0 <= i % w < w,
    ;
}

} // verus!
