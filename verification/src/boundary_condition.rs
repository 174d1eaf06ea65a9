//! Boundary conditions: the rule by which a cell on the edge of the field
//! follows from its neighbour one step inward, and the set of four rules that
//! governs the four edges.

pub mod dirichlet;
pub mod neumann;
pub mod switchable;

pub use dirichlet::Dirichlet;
pub use neumann::Neumann;
pub use switchable::SwitchableBoundaryCondition;

use vstd::prelude::*;
use crate::data_field::DataField;
use crate::grid::Grid;

verus! {

/// A rule that gives an edge cell its value from the value of the neighbour
/// one step inward.
pub trait BoundaryCondition<T> {
    /// The value the rule gives an edge cell whose neighbour holds `other`.
    spec fn boundary_value(&self, other: T) -> T;

    fn calculate_boundary(&self, other: T) -> (value: T)
        ensures
            value == self.boundary_value(other),
    ;
}

/// One boundary condition for each edge of the field.
pub struct BoundaryConditions<BU, BD, BL, BR> {
    pub up: BU,
    pub down: BD,
    pub left: BL,
    pub right: BR,
}

impl<BU, BD, BL, BR> BoundaryConditions<BU, BD, BL, BR> {
    pub fn new(up: BU, down: BD, left: BL, right: BR) -> (conditions: Self)
        ensures
            conditions.up == up,
            conditions.down == down,
            conditions.left == left,
            conditions.right == right,
    {
        BoundaryConditions { up, down, left, right }
    }

    /// The cell at `(x, y)` after the first and the last row of `grid` were
    /// set from the rows next to them. In a column the first row is set before
    /// the last, so with two rows the last row follows the new first row.
    pub open spec fn rows_cell<T>(&self, grid: Grid<T>, x: int, y: int) -> T where
        BU: BoundaryCondition<T>,
        BD: BoundaryCondition<T>,
     {
        if y == 0 {
            self.up.boundary_value(grid.at(x, 1))
        } else if y == grid.height - 1 {
            self.down.boundary_value(
                if grid.height == 2 {
                    self.up.boundary_value(grid.at(x, 1))
                } else {
                    grid.at(x, grid.height - 2)
                },
            )
        } else {
            grid.at(x, y)
        }
    }

    /// The cell at `(x, y)` after the first and the last column of `grid` were
    /// set from the columns next to them. In a row the first column is set
    /// before the last, so with two columns the last column follows the new
    /// first column.
    pub open spec fn columns_cell<T>(&self, grid: Grid<T>, x: int, y: int) -> T where
        BL: BoundaryCondition<T>,
        BR: BoundaryCondition<T>,
     {
        if x == 0 {
            self.left.boundary_value(grid.at(1, y))
        } else if x == grid.width - 1 {
            self.right.boundary_value(
                if grid.width == 2 {
                    self.left.boundary_value(grid.at(1, y))
                } else {
                    grid.at(grid.width - 2, y)
                },
            )
        } else {
            grid.at(x, y)
        }
    }

    /// `grid` after the pass over its first and last row.
    pub open spec fn after_rows<T>(&self, grid: Grid<T>) -> Grid<T> where
        BU: BoundaryCondition<T>,
        BD: BoundaryCondition<T>,
     {
        Grid {
            cells: Seq::new(
                grid.cells.len(),
                |i: int| self.rows_cell(grid, grid.column(i), grid.row(i)),
            ),
            ..grid
        }
    }

    /// `grid` after the pass over its first and last column.
    pub open spec fn after_columns<T>(&self, grid: Grid<T>) -> Grid<T> where
        BL: BoundaryCondition<T>,
        BR: BoundaryCondition<T>,
     {
        Grid {
            cells: Seq::new(
                grid.cells.len(),
                |i: int| self.columns_cell(grid, grid.column(i), grid.row(i)),
            ),
            ..grid
        }
    }

    /// `grid` with all four boundary conditions applied: first the pass over
    /// the first and last row, then the pass over the first and last column,
    /// which therefore decides the corners.
    pub open spec fn applied<T>(&self, grid: Grid<T>) -> Grid<T> where
        BU: BoundaryCondition<T>,
        BD: BoundaryCondition<T>,
        BL: BoundaryCondition<T>,
        BR: BoundaryCondition<T>,
     {
        self.after_columns(self.after_rows(grid))
    }

    /// The cells of a grid after the boundary conditions were applied, by
    /// coordinate.
    pub proof fn lemma_applied_at<T>(&self, grid: Grid<T>, x: int, y: int) where
        BU: BoundaryCondition<T>,
        BD: BoundaryCondition<T>,
        BL: BoundaryCondition<T>,
        BR: BoundaryCondition<T>,

        requires
            grid.wf(),
            grid.contains(x, y),
        ensures
            self.after_rows(grid).wf(),
            self.applied(grid).wf(),
            self.after_rows(grid).at(x, y) == self.rows_cell(grid, x, y),
            self.applied(grid).at(x, y) == self.columns_cell(self.after_rows(grid), x, y),
    {
        grid.lemma_offset_in_range(x, y);
        self.after_rows(grid).lemma_offset_in_range(x, y);
    }

    /// Sets every cell on the edge of `field` from its neighbour one step
    /// inward. The field needs at least two rows and two columns.
    pub fn calculate_boundaries<T: Copy>(&self, field: &mut DataField<T>) where
        BU: BoundaryCondition<T>,
        BD: BoundaryCondition<T>,
        BL: BoundaryCondition<T>,
        BR: BoundaryCondition<T>,

        requires
            old(field).wf(),
            old(field)@.width >= 2,
            old(field)@.height >= 2,
        ensures
            final(field).wf(),
            final(field)@ == self.applied(old(field)@),
    {
        let (nx, ny) = field.dimensions();
        let ghost before = field@;
        let mut x: usize = 0;
        while x < nx
            invariant
                field.wf(),
                before.wf(),
                x <= nx,
                nx >= 2,
                ny >= 2,
                field@.width == nx,
                field@.height == ny,
                before.width == nx,
                before.height == ny,
                forall|cx: int, cy: int|
                    0 <= cx < nx && 0 <= cy < ny ==> #[trigger] field@.at(cx, cy) == if cx < x {
                        self.rows_cell(before, cx, cy)
                    } else {
                        before.at(cx, cy)
                    },
            decreases nx - x,
        {
            let ghost start = field@;
            let other = field.get((x, 1));
            let first = self.up.calculate_boundary(other);
            field.set((x, 0), first);
            let ghost middle = field@;
            let other = field.get((x, ny - 2));
            let last = self.down.calculate_boundary(other);
            field.set((x, ny - 1), last);
            proof {
                assert forall|cx: int, cy: int| 0 <= cx < nx && 0 <= cy < ny implies #[trigger] field@.at(
                    cx,
                    cy,
                ) == if cx < x + 1 {
                    self.rows_cell(before, cx, cy)
                } else {
                    before.at(cx, cy)
                } by {
                    start.lemma_put_at(x as int, 0, first, cx, cy);
                    start.lemma_put_at(x as int, 0, first, x as int, ny - 2);
                    middle.lemma_put_at(x as int, ny - 1, last, cx, cy);
                }
            }
            x = x + 1;
        }
        let ghost rows = field@;
        proof {
            let target = self.after_rows(before);
            assert forall|i: int| 0 <= i < rows.cells.len() implies rows.cells[i]
                == target.cells[i] by {
                before.lemma_coordinates_of(i);
                assert(rows.at(before.column(i), before.row(i)) == rows.cells[i]);
            }
            assert(rows.cells =~= target.cells);
            assert(rows == target);
        }
        let mut y: usize = 0;
        while y < ny
            invariant
                field.wf(),
                rows.wf(),
                y <= ny,
                nx >= 2,
                ny >= 2,
                field@.width == nx,
                field@.height == ny,
                rows.width == nx,
                rows.height == ny,
                forall|cx: int, cy: int|
                    0 <= cx < nx && 0 <= cy < ny ==> #[trigger] field@.at(cx, cy) == if cy < y {
                        self.columns_cell(rows, cx, cy)
                    } else {
                        rows.at(cx, cy)
                    },
            decreases ny - y,
        {
            let ghost start = field@;
            let other = field.get((1, y));
            let first = self.left.calculate_boundary(other);
            field.set((0, y), first);
            let ghost middle = field@;
            let other = field.get((nx - 2, y));
            let last = self.right.calculate_boundary(other);
            field.set((nx - 1, y), last);
            proof {
                assert forall|cx: int, cy: int| 0 <= cx < nx && 0 <= cy < ny implies #[trigger] field@.at(
                    cx,
                    cy,
                ) == if cy < y + 1 {
                    self.columns_cell(rows, cx, cy)
                } else {
                    rows.at(cx, cy)
                } by {
                    start.lemma_put_at(0, y as int, first, cx, cy);
                    start.lemma_put_at(0, y as int, first, nx - 2, y as int);
                    middle.lemma_put_at(nx - 1, y as int, last, cx, cy);
                }
            }
            y = y + 1;
        }
        proof {
            let target = self.after_columns(rows);
            assert forall|i: int| 0 <= i < field@.cells.len() implies field@.cells[i]
                == target.cells[i] by {
                rows.lemma_coordinates_of(i);
                assert(field@.at(rows.column(i), rows.row(i)) == field@.cells[i]);
            }
            assert(field@.cells =~= target.cells);
            assert(field@ == target);
        }
    }
}

} // verus!
