//! The two kinds of work that are handed to the worker threads, one chunk at
//! a time: giving cells their first value, and computing their next value.

use vstd::prelude::*;
use crate::cells::IterInnerMut;
use crate::cells::IterMut;
use crate::data_field::DataField;
use crate::differential_equation::next_value;
use crate::differential_equation::DifferentialEquation;
use crate::precondition::PreCondition;
use crate::workers::Job;

verus! {

/// The first values of the cells of one chunk.
pub(crate) struct InitJob<'a, P> {
    pub precondition: &'a P,
    pub cells: IterMut,
}

/// The first value of the cell at `offset` in a field with rows of `nx` cells.
pub(crate) open spec fn first_value<T, P: PreCondition<T>>(precondition: P, nx: int, offset: int) -> T {
    precondition.initial_value(((offset % nx) as usize, (offset / nx) as usize))
}

impl<'a, T, P: PreCondition<T>> Job<T> for InitJob<'a, P> {
    open spec fn ready(&self) -> bool {
        self.cells.wf()
    }

    open spec fn output(&self) -> Seq<T> {
        Seq::new(
            self.cells.pending().len(),
            |j: int| first_value(*self.precondition, self.cells.row_len(), self.cells.pending()[j]),
        )
    }

    fn run(self) -> (values: Vec<T>) {
        let ghost all = self.cells.pending();
        let ghost nx = self.cells.row_len();
        let mut cursor = self.cells;
        let mut values: Vec<T> = Vec::new();
        let mut item = cursor.next();
        while item.is_some()
            invariant
                cursor.wf(),
                cursor.row_len() == nx,
                values.len() <= all.len(),
                match item {
                    Some((coord, offset)) => {
                        &&& values.len() < all.len()
                        &&& offset == all[values.len() as int]
                        &&& coord.0 == (offset as int) % nx
                        &&& coord.1 == (offset as int) / nx
                        &&& cursor.pending() == all.skip(values.len() + 1)
                    },
                    None => values.len() == all.len(),
                },
                forall|j: int|
                    0 <= j < values.len() ==> #[trigger] values[j] == first_value(
                        *self.precondition,
                        nx,
                        all[j],
                    ),
            decreases all.len() - values.len(),
        {
            let (coord, _) = item.unwrap();
            proof {
                if cursor.pending().len() > 0 {
                    assert(cursor.pending()[0] == all[values.len() + 1]);
                    assert(cursor.pending().drop_first() =~= all.skip(values.len() + 2));
                }
            }
            values.push(self.precondition.precondition(coord));
            item = cursor.next();
        }
        assert(values@ =~= self.output());
        values
    }
}

/// The next values of the interior cells of one chunk.
pub(crate) struct FrameJob<'a, T, D> {
    pub equation: &'a D,
    pub current: &'a DataField<T>,
    pub cells: IterInnerMut,
    pub delta_t: T,
    pub h: T,
}

impl<'a, T: Copy, D: DifferentialEquation<T>> Job<T> for FrameJob<'a, T, D> {
    open spec fn ready(&self) -> bool {
        &&& self.current.wf()
        &&& self.cells.wf()
        &&& self.cells.row_len() == self.current@.width
        &&& forall|j: int|
            0 <= j < self.cells.pending().len() ==> self.current@.is_inner(
                self.current@.column(#[trigger] self.cells.pending()[j]),
                self.current@.row(self.cells.pending()[j]),
            )
    }

    open spec fn output(&self) -> Seq<T> {
        Seq::new(
            self.cells.pending().len(),
            |j: int|
                next_value(
                    *self.equation,
                    self.current@,
                    self.cells.pending()[j],
                    self.delta_t,
                    self.h,
                ),
        )
    }

    fn run(self) -> (values: Vec<T>) {
        let ghost all = self.cells.pending();
        let ghost grid = self.current@;
        let mut cursor = self.cells;
        let mut values: Vec<T> = Vec::new();
        let mut item = cursor.next();
        while item.is_some()
            invariant
                self.current.wf(),
                grid == self.current@,
                cursor.wf(),
                cursor.row_len() == grid.width,
                values.len() <= all.len(),
                forall|j: int|
                    0 <= j < all.len() ==> grid.is_inner(
                        grid.column(#[trigger] all[j]),
                        grid.row(all[j]),
                    ),
                match item {
                    Some((coord, offset)) => {
                        &&& values.len() < all.len()
                        &&& offset == all[values.len() as int]
                        &&& coord.0 == grid.column(offset as int)
                        &&& coord.1 == grid.row(offset as int)
                        &&& cursor.pending() == all.skip(values.len() + 1)
                    },
                    None => values.len() == all.len(),
                },
                forall|j: int|
                    0 <= j < values.len() ==> #[trigger] values[j] == next_value(
                        *self.equation,
                        grid,
                        all[j],
                        self.delta_t,
                        self.h,
                    ),
            decreases all.len() - values.len(),
        {
            let (coord, _) = item.unwrap();
            proof {
                if cursor.pending().len() > 0 {
                    assert(cursor.pending()[0] == all[values.len() + 1]);
                    assert(cursor.pending().drop_first() =~= all.skip(values.len() + 2));
                }
            }
            values.push(self.equation.solve(self.current, coord, self.delta_t, self.h));
            item = cursor.next();
        }
        assert(values@ =~= self.output());
        values
    }
}

} // verus!
