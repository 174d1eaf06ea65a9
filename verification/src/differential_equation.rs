//! Differential equations: the rule by which an interior cell follows from the
//! five cells around it.

use vstd::prelude::*;
use crate::data_field::DataField;
use crate::grid::Grid;
use crate::grid::Stencil;

verus! {

/// An explicit time step of a differential equation on the grid.
pub trait DifferentialEquation<T: Copy> {
    /// The value of a cell one time step `delta_t` later, given the five cells
    /// around it and the grid spacing `h`.
    spec fn update(&self, stencil: Stencil<T>, delta_t: T, h: T) -> T;

    /// The next value of the interior cell at `coord`. It depends on the field
    /// through the five cells around `coord` alone.
    fn solve(&self, field: &DataField<T>, coord: (usize, usize), delta_t: T, h: T) -> (value: T)
        requires
            field.wf(),
            field@.is_inner(coord.0 as int, coord.1 as int),
        ensures
            value == self.update(field@.stencil(coord.0 as int, coord.1 as int), delta_t, h),
    ;
}

/// The next value of the cell stored at `offset` of `current`.
pub open spec fn next_value<T: Copy, D: DifferentialEquation<T>>(
    equation: D,
    current: Grid<T>,
    offset: int,
    delta_t: T,
    h: T,
) -> T {
    equation.update(
        current.stencil(current.column(offset), current.row(offset)),
        delta_t,
        h,
    )
}

/// The grid one time step after `current`: every interior cell follows from
/// the five cells around it in `current`; the cells on the edge are those of
/// `target`, the grid that is written to.
pub open spec fn advanced<T: Copy, D: DifferentialEquation<T>>(
    equation: D,
    current: Grid<T>,
    target: Grid<T>,
    delta_t: T,
    h: T,
) -> Grid<T> {
    Grid {
        cells: Seq::new(
            target.cells.len(),
            |i: int|
                if current.is_inner(current.column(i), current.row(i)) {
                    next_value(equation, current, i, delta_t, h)
                } else {
                    target.cells[i]
                },
        ),
        ..target
    }
}

/// The cells of the grid one time step later, by coordinate.
pub proof fn lemma_advanced_at<T: Copy, D: DifferentialEquation<T>>(
    equation: D,
    current: Grid<T>,
    target: Grid<T>,
    delta_t: T,
    h: T,
    x: int,
    y: int,
)
    requires
        current.wf(),
        target.wf(),
        current.width == target.width,
        current.height == target.height,
        target.contains(x, y),
    ensures
        advanced(equation, current, target, delta_t, h).wf(),
        advanced(equation, current, target, delta_t, h).at(x, y) == if current.is_inner(x, y) {
            equation.update(current.stencil(x, y), delta_t, h)
        } else {
            target.at(x, y)
        },
{
    current.lemma_offset_in_range(x, y);
    target.lemma_offset_in_range(x, y);
}

} // verus!
