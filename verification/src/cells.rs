//! Cursors over the cells of one chunk of a field. A cursor hands out, one by
//! one, the coordinate of a cell together with the offset at which the field
//! stores it.

use vstd::prelude::*;
use crate::grid::lemma_offset_split;
use crate::partition::inner_offsets;
use crate::partition::is_inner_column;
use crate::partition::lemma_inner_offsets_skip;
use crate::partition::offsets;

verus! {

/// A cursor over every cell of a run of offsets.
#[derive(Clone, Copy)]
pub struct IterMut {
    pos: usize,
    end: usize,
    nx: usize,
    x: usize,
    y: usize,
}

impl IterMut {
    /// The coordinate kept by the cursor is the coordinate of its position.
    pub closed spec fn wf(&self) -> bool {
        &&& self.pos <= self.end
        &&& self.pos == self.x + self.nx * self.y
        &&& self.pos < self.end ==> self.x < self.nx
    }

    /// The number of cells in a row of the field the cursor was made for.
    pub closed spec fn row_len(&self) -> int {
        self.nx as int
    }

    /// The offsets the cursor has yet to hand out, in the order in which it
    /// will do so.
    pub closed spec fn pending(&self) -> Seq<int> {
        offsets(self.pos as int, self.end as int)
    }

    /// A cursor over `[pos, end)` whose first cell has the coordinate `(x, y)`.
    pub(crate) fn over(pos: usize, end: usize, nx: usize, x: usize, y: usize) -> (cursor: Self)
        requires
            pos <= end,
            pos == x + nx * y,
            pos < end ==> x < nx,
        ensures
            cursor.wf(),
            cursor.row_len() == nx,
            cursor.pending() == offsets(pos as int, end as int),
    {
        IterMut { pos, end, nx, x, y }
    }

    /// Hands out the next cell: its coordinate and its offset. The coordinate
    /// is kept by counting columns and rows, without dividing.
    pub fn next(&mut self) -> (item: Option<((usize, usize), usize)>)
        requires
            old(self).wf(),
        ensures
            final(self).wf(),
            final(self).row_len() == old(self).row_len(),
            match item {
                Some((coord, offset)) => {
                    &&& old(self).pending().len() > 0
                    &&& offset == old(self).pending()[0]
                    &&& coord.0 == (offset as int) % old(self).row_len()
                    &&& coord.1 == (offset as int) / old(self).row_len()
                    &&& final(self).pending() == old(self).pending().drop_first()
                },
                None => old(self).pending().len() == 0 && *final(self) == *old(self),
            },
    {
        if self.pos >= self.end {
            return None;
        }
        let item = ((self.x, self.y), self.pos);
        proof {
            lemma_offset_split(self.nx as int, self.x as int, self.y as int);
            assert(self.nx * self.y + self.nx == self.nx * (self.y + 1)) by (nonlinear_arith);
            assert(self.y + 1 <= self.nx * (self.y + 1)) by (nonlinear_arith)
                requires
                    self.nx >= 1,
            ;
            assert(offsets(self.pos as int, self.end as int).drop_first() =~= offsets(
                self.pos + 1,
                self.end as int,
            ));
        }
        self.pos = self.pos + 1;
        self.x = self.x + 1;
        if self.x >= self.nx {
            self.x = 0;
            self.y = self.y + 1;
        }
        Some(item)
    }
}

/// A cursor over the cells of a run of offsets that lie in an inner column.
#[derive(Clone, Copy)]
pub struct IterInnerMut {
    pos: usize,
    end: usize,
    nx: usize,
    x: usize,
    y: usize,
}

impl IterInnerMut {
    /// The cursor rests on a cell of an inner column, whose coordinate it
    /// keeps, or it is exhausted.
    pub closed spec fn wf(&self) -> bool {
        self.pos < self.end ==> {
            &&& self.nx >= 3
            &&& 1 <= self.x <= self.nx - 2
            &&& self.pos == self.x + self.nx * self.y
            &&& self.end + 3 <= usize::MAX
        }
    }

    /// The number of cells in a row of the field the cursor was made for.
    pub closed spec fn row_len(&self) -> int {
        self.nx as int
    }

    /// The offsets the cursor has yet to hand out, in the order in which it
    /// will do so.
    pub closed spec fn pending(&self) -> Seq<int> {
        inner_offsets(self.nx as int, self.pos as int, self.end as int)
    }

    /// A cursor that hands out nothing.
    pub(crate) fn empty(nx: usize) -> (cursor: Self)
        ensures
            cursor.wf(),
            cursor.row_len() == nx,
            cursor.pending() == Seq::<int>::empty(),
    {
        IterInnerMut { pos: 0, end: 0, nx, x: 0, y: 0 }
    }

    /// A cursor over the inner columns of `[pos, end)`, where `pos` is the
    /// offset of `(x, y)`. It starts at the first cell of an inner column at
    /// or after `pos`.
    pub(crate) fn over(pos: usize, end: usize, nx: usize, x: usize, y: usize) -> (cursor: Self)
        requires
            pos < end,
            nx >= 3,
            x < nx,
            pos == x + nx * y,
            end + 3 <= usize::MAX,
        ensures
            cursor.wf(),
            cursor.row_len() == nx,
            cursor.pending() == inner_offsets(nx as int, pos as int, end as int),
    {
        proof {
            lemma_offset_split(nx as int, x as int, y as int);
            assert(nx * y + nx == nx * (y + 1)) by (nonlinear_arith);
            assert(y + 1 <= nx * (y + 1)) by (nonlinear_arith)
                requires
                    nx >= 1,
            ;
        }
        if x == 0 {
            proof {
                lemma_inner_offsets_skip(nx as int, pos as int, end as int);
            }
            IterInnerMut { pos: pos + 1, end, nx, x: 1, y }
        } else if x == nx - 1 {
            proof {
                lemma_offset_split(nx as int, 0, y + 1);
                lemma_inner_offsets_skip(nx as int, pos as int, end as int);
                lemma_inner_offsets_skip(nx as int, pos + 1, end as int);
            }
            IterInnerMut { pos: pos + 2, end, nx, x: 1, y: y + 1 }
        } else {
            IterInnerMut { pos, end, nx, x, y }
        }
    }

    /// Hands out the next cell of an inner column: its coordinate and its
    /// offset. After the last inner cell of a row the cursor steps over the
    /// last cell of that row and the first cell of the next.
    pub fn next(&mut self) -> (item: Option<((usize, usize), usize)>)
        requires
            old(self).wf(),
        ensures
            final(self).wf(),
            final(self).row_len() == old(self).row_len(),
            match item {
                Some((coord, offset)) => {
                    &&& old(self).pending().len() > 0
                    &&& offset == old(self).pending()[0]
                    &&& coord.0 == (offset as int) % old(self).row_len()
                    &&& coord.1 == (offset as int) / old(self).row_len()
                    &&& final(self).pending() == old(self).pending().drop_first()
                },
                None => old(self).pending().len() == 0 && *final(self) == *old(self),
            },
    {
        if self.pos >= self.end {
            return None;
        }
        let item = ((self.x, self.y), self.pos);
        proof {
            let nx = self.nx as int;
            let pos = self.pos as int;
            let end = self.end as int;
            lemma_offset_split(nx, self.x as int, self.y as int);
            assert(is_inner_column(nx, pos));
            let rest = inner_offsets(nx, pos + 1, end);
            assert(inner_offsets(nx, pos, end) == seq![pos] + rest);
            assert((seq![pos] + rest).drop_first() =~= rest);
            assert(nx * self.y + nx == nx * (self.y + 1)) by (nonlinear_arith);
            assert(self.y + 1 <= nx * (self.y + 1)) by (nonlinear_arith)
                requires
                    nx >= 1,
            ;
            if self.x + 1 >= nx - 1 {
                lemma_offset_split(nx, nx - 1, self.y as int);
                lemma_offset_split(nx, 0, self.y + 1);
                lemma_inner_offsets_skip(nx, pos + 1, end);
                lemma_inner_offsets_skip(nx, pos + 2, end);
            }
        }
        if self.x + 1 >= self.nx - 1 {
            self.pos = self.pos + 3;
            self.x = 1;
            self.y = self.y + 1;
        } else {
            self.pos = self.pos + 1;
            self.x = self.x + 1;
        }
        Some(item)
    }
}

} // verus!
