//! Cursors over the chunks of a field. A chunk is a run of consecutive
//! offsets; no two chunks that one cursor hands out share an offset.

use vstd::prelude::*;
use vstd::arithmetic::div_mod::lemma_fundamental_div_mod;
use crate::cells::IterInnerMut;
use crate::cells::IterMut;
use crate::partition::inner_offsets;
use crate::partition::lemma_spans_step;
use crate::partition::offsets;
use crate::partition::spans;

verus! {

/// The coordinate of the offset `len` places after the offset of `(x, y)`.
fn advance(nx: usize, x: usize, y: usize, len: usize) -> (coord: (usize, usize))
    requires
        x < nx,
        x + nx * y + len <= usize::MAX,
    ensures
        coord.0 < nx,
        x + nx * y + len == coord.0 + nx * coord.1,
{
    let column: usize = x + len;
    proof {
        let q = column as int / nx as int;
        let r = column as int % nx as int;
        lemma_fundamental_div_mod(column as int, nx as int);
        assert(0 <= q) by (nonlinear_arith)
            requires
                column == nx * q + r,
                0 <= r < nx,
                0 <= column,
        ;
        assert(nx * (y + q) == nx * y + nx * q) by (nonlinear_arith);
        assert(y + q <= nx * (y + q)) by (nonlinear_arith)
            requires
                nx >= 1,
                y + q >= 0,
        ;
    }
    (column % nx, y + column / nx)
}

/// A cursor over the chunks that cover every cell of a field.
#[derive(Clone, Copy)]
pub struct ChunksMut {
    pos: usize,
    end: usize,
    size: usize,
    nx: usize,
    x: usize,
    y: usize,
}

impl ChunksMut {
    /// The coordinate kept by the cursor is the coordinate of its position.
    pub closed spec fn wf(&self) -> bool {
        &&& self.pos <= self.end
        &&& self.pos < self.end ==> {
            &&& self.size >= 1
            &&& self.x < self.nx
            &&& self.pos == self.x + self.nx * self.y
        }
    }

    /// The number of cells in a row of the field the cursor was made for.
    pub closed spec fn row_len(&self) -> int {
        self.nx as int
    }

    /// The chunks the cursor has yet to hand out, each as the run
    /// `[first, second)` of offsets it covers.
    pub closed spec fn pending(&self) -> Seq<(int, int)> {
        spans(self.pos as int, self.end as int, self.size as int)
    }

    /// A cursor over the chunks of `[0, end)`, `size` offsets each.
    pub(crate) fn over(end: usize, size: usize, nx: usize) -> (cursor: Self)
        requires
            0 < end ==> size >= 1 && nx >= 1,
        ensures
            cursor.wf(),
            cursor.row_len() == nx,
            cursor.pending() == spans(0, end as int, size as int),
    {
        assert(nx * 0 == 0) by (nonlinear_arith);
        ChunksMut { pos: 0, end, size, nx, x: 0, y: 0 }
    }

    /// Hands out the next chunk as a cursor over its cells.
    pub fn next(&mut self) -> (chunk: Option<IterMut>)
        requires
            old(self).wf(),
        ensures
            final(self).wf(),
            final(self).row_len() == old(self).row_len(),
            match chunk {
                Some(cells) => {
                    &&& old(self).pending().len() > 0
                    &&& cells.wf()
                    &&& cells.row_len() == old(self).row_len()
                    &&& cells.pending() == offsets(
                        old(self).pending()[0].0,
                        old(self).pending()[0].1,
                    )
                    &&& final(self).pending() == old(self).pending().drop_first()
                },
                None => old(self).pending().len() == 0 && *final(self) == *old(self),
            },
    {
        if self.pos >= self.end {
            return None;
        }
        proof {
            lemma_spans_step(self.pos as int, self.end as int, self.size as int);
        }
        let rest: usize = self.end - self.pos;
        let len: usize = if rest < self.size {
            rest
        } else {
            self.size
        };
        let cells = IterMut::over(self.pos, self.pos + len, self.nx, self.x, self.y);
        let (x, y) = advance(self.nx, self.x, self.y, len);
        self.pos = self.pos + len;
        self.x = x;
        self.y = y;
        Some(cells)
    }
}

/// A cursor over the chunks that cover the rows between the first and the
/// last row of a field. The cells of a chunk are those of its offsets that lie
/// in an inner column.
#[derive(Clone, Copy)]
pub struct ChunksInnerMut {
    pos: usize,
    end: usize,
    size: usize,
    nx: usize,
    x: usize,
    y: usize,
}

impl ChunksInnerMut {
    /// The coordinate kept by the cursor is the coordinate of its position.
    pub closed spec fn wf(&self) -> bool {
        &&& self.pos <= self.end
        &&& self.pos < self.end ==> {
            &&& self.size >= 1
            &&& self.nx >= 3
            &&& self.x < self.nx
            &&& self.pos == self.x + self.nx * self.y
            &&& self.end + 3 <= usize::MAX
        }
    }

    /// The number of cells in a row of the field the cursor was made for.
    pub closed spec fn row_len(&self) -> int {
        self.nx as int
    }

    /// The chunks the cursor has yet to hand out, each as the run
    /// `[first, second)` of offsets it covers.
    pub closed spec fn pending(&self) -> Seq<(int, int)> {
        spans(self.pos as int, self.end as int, self.size as int)
    }

    /// A cursor that hands out nothing.
    pub(crate) fn empty(nx: usize) -> (cursor: Self)
        ensures
            cursor.wf(),
            cursor.row_len() == nx,
            cursor.pending() == Seq::<(int, int)>::empty(),
    {
        assert(spans(0, 0, 0) =~= Seq::<(int, int)>::empty());
        ChunksInnerMut { pos: 0, end: 0, size: 0, nx, x: 0, y: 0 }
    }

    /// A cursor over the chunks of `[nx, end)`, `size` offsets each: the rows
    /// from the second one on.
    pub(crate) fn over(end: usize, size: usize, nx: usize) -> (cursor: Self)
        requires
            nx >= 3,
            nx <= end,
            end + 3 <= usize::MAX,
            nx < end ==> size >= 1,
        ensures
            cursor.wf(),
            cursor.row_len() == nx,
            cursor.pending() == spans(nx as int, end as int, size as int),
    {
        assert(nx * 1 == nx) by (nonlinear_arith);
        ChunksInnerMut { pos: nx, end, size, nx, x: 0, y: 1 }
    }

    /// Hands out the next chunk as a cursor over its cells in inner columns.
    /// The chunk may begin or end anywhere in a row; its cursor starts at the
    /// first inner cell at or after the beginning of the chunk.
    pub fn next(&mut self) -> (chunk: Option<IterInnerMut>)
        requires
            old(self).wf(),
        ensures
            final(self).wf(),
            final(self).row_len() == old(self).row_len(),
            match chunk {
                Some(cells) => {
                    &&& old(self).pending().len() > 0
                    &&& cells.wf()
                    &&& cells.row_len() == old(self).row_len()
                    &&& cells.pending() == inner_offsets(
                        old(self).row_len(),
                        old(self).pending()[0].0,
                        old(self).pending()[0].1,
                    )
                    &&& final(self).pending() == old(self).pending().drop_first()
                },
                None => old(self).pending().len() == 0 && *final(self) == *old(self),
            },
    {
        if self.pos >= self.end {
            return None;
        }
        proof {
            lemma_spans_step(self.pos as int, self.end as int, self.size as int);
        }
        let rest: usize = self.end - self.pos;
        let len: usize = if rest < self.size {
            rest
        } else {
            self.size
        };
        let cells = IterInnerMut::over(self.pos, self.pos + len, self.nx, self.x, self.y);
        let (x, y) = advance(self.nx, self.x, self.y, len);
        self.pos = self.pos + len;
        self.x = x;
        self.y = y;
        Some(cells)
    }
}

} // verus!
