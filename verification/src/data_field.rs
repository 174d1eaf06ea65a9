//! The field: a dense rectangle of cells stored row by row.

use std::ops::Index;
use vstd::prelude::*;
use crate::grid::Grid;
use crate::grid::Stencil;
use crate::grid::lemma_offset_bounds;
use crate::cells::IterInnerMut;
use crate::cells::IterMut;
use crate::chunks::ChunksInnerMut;
use crate::chunks::ChunksMut;
use crate::partition::chunk_size;
use crate::partition::inner_offsets;
use crate::partition::lemma_chunk_size;
use crate::partition::lemma_inner_offsets_members;

verus! {

/// The number of offsets in a chunk when `cells` offsets are cut for `count`
/// workers.
fn chunk_len(cells: usize, count: usize) -> (size: usize)
    ensures
        size == chunk_size(cells as nat, count as nat),
        cells >= 1 ==> size >= 1,
{
    if count == 0 {
        cells
    } else {
        proof {
            lemma_chunk_size(cells as nat, count as nat);
        }
        let quotient: usize = cells / count;
        if cells % count == 0 {
            quotient
        } else {
            quotient + 1
        }
    }
}

/// A rectangle of cells with fixed dimensions, stored in row-major order.
pub struct DataField<T> {
    dimensions: (usize, usize),
    field: Vec<T>,
}

impl<T> View for DataField<T> {
    type V = Grid<T>;

    closed spec fn view(&self) -> Grid<T> {
        Grid {
            width: self.dimensions.0 as nat,
            height: self.dimensions.1 as nat,
            cells: self.field@,
        }
    }
}

impl<T: Copy> vstd::std_specs::core::IndexSpecImpl<(usize, usize)> for DataField<T> {
    open spec fn index_req(&self, index: &(usize, usize)) -> bool {
        self.wf() && self@.contains(index.0 as int, index.1 as int)
    }
}

impl<T: Copy> Index<(usize, usize)> for DataField<T> {
    type Output = T;

    /// The cell at `index`, which has to be a cell of the field.
    fn index(&self, index: (usize, usize)) -> (value: &T)
        ensures
            *value == self@.at(index.0 as int, index.1 as int),
    {
        let (nx, _) = self.dimensions;
        proof {
            lemma_offset_bounds(
                self@.width as int,
                self@.height as int,
                index.0 as int,
                index.1 as int,
            );
        }
        let offset: usize = index.0 + nx * index.1;
        &self.field[offset]
    }
}

impl<T: Copy> DataField<T> {
    /// The storage holds one cell for every coordinate.
    pub open spec fn wf(&self) -> bool {
        &&& self@.wf()
        &&& self@.width <= usize::MAX
        &&& self@.height <= usize::MAX
        &&& self@.cells.len() <= usize::MAX
    }

    /// A field of `nx` by `ny` cells that all hold the default value of the
    /// cell type.
    pub fn new(dimensions: (usize, usize)) -> (field: Self) where T: Default
        requires
            dimensions.0 * dimensions.1 <= usize::MAX,
        ensures
            field.wf(),
            field@.width == dimensions.0,
            field@.height == dimensions.1,
            field@.is_default_filled(),
    {
        let (nx, ny) = dimensions;
        let count: usize = nx * ny;
        let fill = T::default();
        let mut cells: Vec<T> = Vec::with_capacity(count);
        while cells.len() < count
            invariant
                cells.len() <= count,
                call_ensures(T::default, (), fill),
                forall|i: int| 0 <= i < cells.len() ==> #[trigger] cells[i] == fill,
            decreases count - cells.len(),
        {
            cells.push(fill);
        }
        DataField { dimensions: (nx, ny), field: cells }
    }

    /// Width and height of the field.
    pub fn dimensions(&self) -> (dimensions: (usize, usize))
        ensures
            dimensions.0 == self@.width,
            dimensions.1 == self@.height,
    {
        self.dimensions
    }

    /// Whether `(x, y)` is a cell of the field.
    pub fn contains(&self, coord: (usize, usize)) -> (inside: bool)
        ensures
            inside == self@.contains(coord.0 as int, coord.1 as int),
    {
        let (nx, ny) = self.dimensions;
        coord.0 < nx && coord.1 < ny
    }

    /// The value of the cell at `coord`, which has to be a cell of the field.
    pub fn get(&self, coord: (usize, usize)) -> (value: T)
        requires
            self.wf(),
            self@.contains(coord.0 as int, coord.1 as int),
        ensures
            value == self@.at(coord.0 as int, coord.1 as int),
    {
        let (nx, _) = self.dimensions;
        proof {
            lemma_offset_bounds(
                self@.width as int,
                self@.height as int,
                coord.0 as int,
                coord.1 as int,
            );
        }
        let index: usize = coord.0 + nx * coord.1;
        self.field[index]
    }


    /// Stores `value` in the cell at `coord`; a coordinate outside the field is
    /// ignored.
    pub fn set(&mut self, coord: (usize, usize), value: T)
        requires
            old(self).wf(),
        ensures
            final(self).wf(),
            old(self)@.contains(coord.0 as int, coord.1 as int) ==> final(self)@ == old(self)@.put(
                coord.0 as int,
                coord.1 as int,
                value,
            ),
            !old(self)@.contains(coord.0 as int, coord.1 as int) ==> final(self)@ == old(self)@,
    {
        if self.contains(coord) {
            let (nx, _) = self.dimensions;
            proof {
                lemma_offset_bounds(
                    self@.width as int,
                    self@.height as int,
                    coord.0 as int,
                    coord.1 as int,
                );
            }
            let index: usize = coord.0 + nx * coord.1;
            self.field[index] = value;
        }
    }

    /// A cursor over all cells, row by row.
    pub fn iter_mut(&self) -> (cells: IterMut)
        requires
            self.wf(),
        ensures
            cells.wf(),
            cells.row_len() == self@.width,
            cells.pending() == self@.all_cells(),
    {
        assert(self.dimensions.0 * 0 == 0) by (nonlinear_arith);
        IterMut::over(0, self.field.len(), self.dimensions.0, 0, 0)
    }

    /// A cursor over the interior cells, row by row.
    pub fn iter_inner_mut(&self) -> (cells: IterInnerMut)
        requires
            self.wf(),
        ensures
            cells.wf(),
            cells.row_len() == self@.width,
            cells.pending() == self@.inner_cells(),
    {
        let (nx, ny) = self.dimensions;
        let len: usize = self.field.len();
        if nx < 3 || ny < 3 {
            proof {
                let none = inner_offsets(nx as int, nx as int, len - nx);
                lemma_inner_offsets_members(nx as int, nx as int, len - nx);
                if ny < 3 {
                    assert(nx * ny <= nx * 2) by (nonlinear_arith)
                        requires
                            ny < 3,
                            0 <= nx,
                    ;
                }
                if none.len() > 0 {
                    assert(nx <= none[0] < len - nx);
                }
                assert(none =~= Seq::<int>::empty());
            }
            IterInnerMut::empty(nx)
        } else {
            assert(nx * ny >= nx * 3) by (nonlinear_arith)
                requires
                    ny >= 3,
                    0 <= nx,
            ;
            assert(nx * 1 == nx) by (nonlinear_arith);
            IterInnerMut::over(nx, len - nx, nx, 0, 1)
        }
    }

    /// A cursor over the chunks into which all cells are cut for `count`
    /// workers.
    pub fn chunks_mut(&self, count: usize) -> (chunks: ChunksMut)
        requires
            self.wf(),
        ensures
            chunks.wf(),
            chunks.row_len() == self@.width,
            chunks.pending() == self@.chunks(count as nat),
    {
        let len: usize = self.field.len();
        let size: usize = chunk_len(len, count);
        assert(len > 0 ==> self.dimensions.0 >= 1) by (nonlinear_arith)
            requires
                len == self.dimensions.0 * self.dimensions.1,
        ;
        ChunksMut::over(len, size, self.dimensions.0)
    }

    /// A cursor over the chunks into which the interior cells are cut for
    /// `count` workers.
    pub fn chunks_inner_mut(&self, count: usize) -> (chunks: ChunksInnerMut)
        requires
            self.wf(),
        ensures
            chunks.wf(),
            chunks.row_len() == self@.width,
            chunks.pending() == self@.inner_chunks(count as nat),
    {
        let (nx, ny) = self.dimensions;
        let len: usize = self.field.len();
        if nx < 3 || ny < 3 {
            ChunksInnerMut::empty(nx)
        } else {
            assert(nx * ny >= nx * 3) by (nonlinear_arith)
                requires
                    ny >= 3,
                    0 <= nx,
            ;
            let end: usize = len - nx;
            let size: usize = chunk_len(end - nx, count);
            ChunksInnerMut::over(end, size, nx)
        }
    }

    /// Stores `values`, in order, in the cells that `cells` hands out.
    pub(crate) fn store(&mut self, cells: IterMut, values: &Vec<T>)
        requires
            old(self).wf(),
            cells.wf(),
            values.len() == cells.pending().len(),
            forall|j: int|
                0 <= j < cells.pending().len() ==> 0 <= #[trigger] cells.pending()[j] < old(self)@.cells.len(),
            forall|i: int, j: int|
                0 <= i < j < cells.pending().len() ==> cells.pending()[i] < cells.pending()[j],
        ensures
            final(self).wf(),
            final(self)@.width == old(self)@.width,
            final(self)@.height == old(self)@.height,
            forall|j: int|
                0 <= j < cells.pending().len() ==> final(self)@.cells[#[trigger] cells.pending()[j]]
                    == values[j],
            forall|i: int|
                0 <= i < old(self)@.cells.len() && !cells.pending().contains(i) ==> #[trigger] final(self)@.cells[i] == old(self)@.cells[i],
    {
        let ghost all = cells.pending();
        let mut cursor = cells;
        let mut done: usize = 0;
        let mut item = cursor.next();
        while item.is_some()
            invariant
                self.wf(),
                cursor.wf(),
                self@.width == old(self)@.width,
                self@.height == old(self)@.height,
                self@.cells.len() == old(self)@.cells.len(),
                values.len() == all.len(),
                done <= all.len(),
                forall|j: int| 0 <= j < all.len() ==> 0 <= #[trigger] all[j] < self@.cells.len(),
                forall|i: int, j: int| 0 <= i < j < all.len() ==> all[i] < all[j],
                match item {
                    Some((_, offset)) => done < all.len() && offset == all[done as int]
                        && cursor.pending() == all.skip(done + 1),
                    None => done == all.len(),
                },
                forall|j: int| 0 <= j < done ==> self@.cells[#[trigger] all[j]] == values[j],
                forall|i: int|
                    0 <= i < self@.cells.len() && !all.take(done as int).contains(i)
                        ==> #[trigger] self@.cells[i] == old(self)@.cells[i],
            decreases all.len() - done,
        {
            let (_, offset) = item.unwrap();
            proof {
                if cursor.pending().len() > 0 {
                    assert(cursor.pending()[0] == all[done + 1]);
                    assert(cursor.pending().drop_first() =~= all.skip(done + 2));
                }
            }
            let ghost before = self@;
            self.field[offset] = values[done];
            proof {
                assert forall|i: int|
                    0 <= i < self@.cells.len() && !all.take(done + 1).contains(
                        i,
                    ) implies #[trigger] self@.cells[i] == old(self)@.cells[i] by {
                    if all.take(done as int).contains(i) {
                        let j = choose|j: int|
                            0 <= j < all.take(done as int).len() && all.take(done as int)[j] == i;
                        assert(all.take(done + 1)[j] == i);
                    }
                    assert(all.take(done + 1)[done as int] == offset);
                    assert(self@.cells[i] == before.cells[i]);
                }
                assert forall|j: int| 0 <= j < done + 1 implies self@.cells[#[trigger] all[j]]
                    == values[j] by {
                    if j < done {
                        assert(all[j] < all[done as int]);
                        assert(self@.cells[all[j]] == before.cells[all[j]]);
                    }
                }
            }
            done = done + 1;
            item = cursor.next();
        }
        proof {
            assert(all.take(done as int) =~= all);
        }
    }

    /// Stores `values`, in order, in the interior cells that `cells` hands out.
    pub(crate) fn store_inner(&mut self, cells: IterInnerMut, values: &Vec<T>)
        requires
            old(self).wf(),
            cells.wf(),
            values.len() == cells.pending().len(),
            forall|j: int|
                0 <= j < cells.pending().len() ==> 0 <= #[trigger] cells.pending()[j] < old(self)@.cells.len(),
            forall|i: int, j: int|
                0 <= i < j < cells.pending().len() ==> cells.pending()[i] < cells.pending()[j],
        ensures
            final(self).wf(),
            final(self)@.width == old(self)@.width,
            final(self)@.height == old(self)@.height,
            forall|j: int|
                0 <= j < cells.pending().len() ==> final(self)@.cells[#[trigger] cells.pending()[j]]
                    == values[j],
            forall|i: int|
                0 <= i < old(self)@.cells.len() && !cells.pending().contains(i) ==> #[trigger] final(self)@.cells[i] == old(self)@.cells[i],
    {
        let ghost all = cells.pending();
        let mut cursor = cells;
        let mut done: usize = 0;
        let mut item = cursor.next();
        while item.is_some()
            invariant
                self.wf(),
                cursor.wf(),
                self@.width == old(self)@.width,
                self@.height == old(self)@.height,
                self@.cells.len() == old(self)@.cells.len(),
                values.len() == all.len(),
                done <= all.len(),
                forall|j: int| 0 <= j < all.len() ==> 0 <= #[trigger] all[j] < self@.cells.len(),
                forall|i: int, j: int| 0 <= i < j < all.len() ==> all[i] < all[j],
                match item {
                    Some((_, offset)) => done < all.len() && offset == all[done as int]
                        && cursor.pending() == all.skip(done + 1),
                    None => done == all.len(),
                },
                forall|j: int| 0 <= j < done ==> self@.cells[#[trigger] all[j]] == values[j],
                forall|i: int|
                    0 <= i < self@.cells.len() && !all.take(done as int).contains(i)
                        ==> #[trigger] self@.cells[i] == old(self)@.cells[i],
            decreases all.len() - done,
        {
            let (_, offset) = item.unwrap();
            proof {
                if cursor.pending().len() > 0 {
                    assert(cursor.pending()[0] == all[done + 1]);
                    assert(cursor.pending().drop_first() =~= all.skip(done + 2));
                }
            }
            let ghost before = self@;
            self.field[offset] = values[done];
            proof {
                assert forall|i: int|
                    0 <= i < self@.cells.len() && !all.take(done + 1).contains(
                        i,
                    ) implies #[trigger] self@.cells[i] == old(self)@.cells[i] by {
                    if all.take(done as int).contains(i) {
                        let j = choose|j: int|
                            0 <= j < all.take(done as int).len() && all.take(done as int)[j] == i;
                        assert(all.take(done + 1)[j] == i);
                    }
                    assert(all.take(done + 1)[done as int] == offset);
                    assert(self@.cells[i] == before.cells[i]);
                }
                assert forall|j: int| 0 <= j < done + 1 implies self@.cells[#[trigger] all[j]]
                    == values[j] by {
                    if j < done {
                        assert(all[j] < all[done as int]);
                        assert(self@.cells[all[j]] == before.cells[all[j]]);
                    }
                }
            }
            done = done + 1;
            item = cursor.next();
        }
        proof {
            assert(all.take(done as int) =~= all);
        }
    }

    /// The five cells around the interior cell at `coord`.
    pub fn stencil(&self, coord: (usize, usize)) -> (stencil: Stencil<T>)
        requires
            self.wf(),
            self@.is_inner(coord.0 as int, coord.1 as int),
        ensures
            stencil == self@.stencil(coord.0 as int, coord.1 as int),
    {
        let (x, y) = coord;
        Stencil {
            center: self.get((x, y)),
            left: self.get((x - 1, y)),
            right: self.get((x + 1, y)),
            up: self.get((x, y - 1)),
            down: self.get((x, y + 1)),
        }
    }
}

} // verus!
