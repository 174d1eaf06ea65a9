//! Preconditions: the value every cell starts with.

use vstd::prelude::*;
use crate::grid::Grid;

verus! {

/// A rule that gives every cell its first value from its coordinate.
pub trait PreCondition<T> {
    /// The value the cell at `coord` starts with.
    spec fn initial_value(&self, coord: (usize, usize)) -> T;

    fn precondition(&self, coord: (usize, usize)) -> (value: T)
        ensures
            value == self.initial_value(coord),
    ;
}

/// The value the cell stored at `offset` of `grid` starts with.
pub open spec fn initial_cell<T, P: PreCondition<T>>(precondition: P, grid: Grid<T>, offset: int) -> T {
    precondition.initial_value((grid.column(offset) as usize, grid.row(offset) as usize))
}

/// `grid` with every cell set to the value it starts with.
pub open spec fn initialized<T, P: PreCondition<T>>(precondition: P, grid: Grid<T>) -> Grid<T> {
    Grid {
        cells: Seq::new(grid.cells.len(), |i: int| initial_cell(precondition, grid, i)),
        ..grid
    }
}

/// The cells of a grid that was given its first values, by coordinate.
pub proof fn lemma_initialized_at<T, P: PreCondition<T>>(
    precondition: P,
    grid: Grid<T>,
    x: int,
    y: int,
)
    requires
        grid.wf(),
        grid.contains(x, y),
        grid.width <= usize::MAX,
        grid.height <= usize::MAX,
    ensures
        initialized(precondition, grid).wf(),
        initialized(precondition, grid).at(x, y) == precondition.initial_value(
            (x as usize, y as usize),
        ),
{
    grid.lemma_offset_in_range(x, y);
}

/// Every cell starts with the same value.
pub struct ConstantPreCondition<T>(pub T);

impl<T: Copy> PreCondition<T> for ConstantPreCondition<T> {
    open spec fn initial_value(&self, coord: (usize, usize)) -> T {
        self.0
    }

    fn precondition(&self, coord: (usize, usize)) -> (value: T) {
        self.0
    }
}

} // verus!
