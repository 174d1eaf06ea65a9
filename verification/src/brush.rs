//! Tools that paint into a field between two time steps.

use vstd::prelude::*;
use crate::boundary_condition::BoundaryCondition;
use crate::boundary_condition::Neumann;
use crate::data_field::DataField;
use crate::grid::Grid;

verus! {

/// Whether `(cx, cy)` lies in the square of ten by ten cells whose corner
/// with the smallest coordinates is five cells left of and above `(x, y)`.
pub open spec fn in_cube(x: int, y: int, cx: int, cy: int) -> bool {
    x - 5 <= cx < x + 5 && y - 5 <= cy < y + 5
}

/// `grid` with `value` in every cell of the square around `(x, y)`.
pub open spec fn cube_drawn<T>(grid: Grid<T>, x: int, y: int, value: T) -> Grid<T> {
    Grid {
        cells: Seq::new(
            grid.cells.len(),
            |i: int|
                if in_cube(x, y, grid.column(i), grid.row(i)) {
                    value
                } else {
                    grid.cells[i]
                },
        ),
        ..grid
    }
}

/// Paints `temperature` into the square of ten by ten cells around `coord`.
/// The part of the square that lies outside the field is left out.
pub fn draw_cube<T: Copy>(field: &mut DataField<T>, coord: (isize, isize), temperature: T)
    requires
        old(field).wf(),
        isize::MIN + 5 <= coord.0 <= isize::MAX - 5,
        isize::MIN + 5 <= coord.1 <= isize::MAX - 5,
    ensures
        final(field).wf(),
        final(field)@ == cube_drawn(old(field)@, coord.0 as int, coord.1 as int, temperature),
{
    let (x0, y0) = coord;
    let ghost before = field@;
    let mut y: isize = y0 - 5;
    while y < y0 + 5
        invariant
            field.wf(),
            before.wf(),
            field@.width == before.width,
            field@.height == before.height,
            isize::MIN + 5 <= x0 <= isize::MAX - 5,
            isize::MIN + 5 <= y0 <= isize::MAX - 5,
            y0 - 5 <= y <= y0 + 5,
            forall|cx: int, cy: int|
                before.contains(cx, cy) ==> #[trigger] field@.at(cx, cy) == if in_cube(
                    x0 as int,
                    y0 as int,
                    cx,
                    cy,
                ) && cy < y {
                    temperature
                } else {
                    before.at(cx, cy)
                },
        decreases y0 + 5 - y,
    {
        let mut x: isize = x0 - 5;
        while x < x0 + 5
            invariant
                field.wf(),
                before.wf(),
                field@.width == before.width,
                field@.height == before.height,
                isize::MIN + 5 <= x0 <= isize::MAX - 5,
                isize::MIN + 5 <= y0 <= isize::MAX - 5,
                y0 - 5 <= y < y0 + 5,
                x0 - 5 <= x <= x0 + 5,
                forall|cx: int, cy: int|
                    before.contains(cx, cy) ==> #[trigger] field@.at(cx, cy) == if in_cube(
                        x0 as int,
                        y0 as int,
                        cx,
                        cy,
                    ) && (cy < y || (cy == y && cx < x)) {
                        temperature
                    } else {
                        before.at(cx, cy)
                    },
            decreases x0 + 5 - x,
        {
            if y >= 0 && x >= 0 {
                let ghost start = field@;
                field.set((x as usize, y as usize), temperature);
                proof {
                    assert forall|cx: int, cy: int| before.contains(cx, cy) implies #[trigger] field@.at(
                        cx,
                        cy,
                    ) == if in_cube(x0 as int, y0 as int, cx, cy) && (cy < y || (cy == y && cx < x
                        + 1)) {
                        temperature
                    } else {
                        before.at(cx, cy)
                    } by {
                        if start.contains(x as int, y as int) {
                            start.lemma_put_at(x as int, y as int, temperature, cx, cy);
                        }
                    }
                }
            }
            x = x + 1;
        }
        y = y + 1;
    }
    proof {
        let goal = cube_drawn(before, x0 as int, y0 as int, temperature);
        assert forall|i: int| 0 <= i < field@.cells.len() implies field@.cells[i]
            == goal.cells[i] by {
            before.lemma_coordinates_of(i);
            assert(field@.at(before.column(i), before.row(i)) == field@.cells[i]);
        }
        assert(field@.cells =~= goal.cells);
    }
}

/// Whether `(cx, cy)` lies in the rectangle of `width` by `height` cells whose
/// corner with the smallest coordinates is `(x, y)`.
pub open spec fn in_rectangle(x: int, y: int, width: int, height: int, cx: int, cy: int) -> bool {
    x <= cx < x + width && y <= cy < y + height
}

/// The cell at `(cx, cy)` after the sides of the rectangle were set from the
/// cells just outside it: the last row from the row below, the first row from
/// the row above, the last column from the column to the right, the first
/// column from the column to the left. Where two sides meet, the one named
/// first here decides.
pub open spec fn rectangle_cell<T>(
    grid: Grid<T>,
    x: int,
    y: int,
    width: int,
    height: int,
    cx: int,
    cy: int,
) -> T {
    if !in_rectangle(x, y, width, height, cx, cy) {
        grid.at(cx, cy)
    } else if cy == y + height - 1 {
        grid.at(cx, y + height)
    } else if cy == y {
        grid.at(cx, y - 1)
    } else if cx == x + width - 1 {
        grid.at(x + width, cy)
    } else if cx == x {
        grid.at(x - 1, cy)
    } else {
        grid.at(cx, cy)
    }
}

/// `grid` with the sides of the rectangle set from the cells just outside it.
pub open spec fn rectangle_drawn<T>(grid: Grid<T>, x: int, y: int, width: int, height: int) -> Grid<
    T,
> {
    Grid {
        cells: Seq::new(
            grid.cells.len(),
            |i: int| rectangle_cell(grid, x, y, width, height, grid.column(i), grid.row(i)),
        ),
        ..grid
    }
}

/// Turns the sides of a rectangle into mirrors of the cells just outside it,
/// so that nothing flows through them: first the left and right side, then the
/// upper and lower side. The rectangle is not empty and lies inside the
/// field, at least one cell away from its edge.
pub fn draw_neumann_rectangle<T: Copy>(
    field: &mut DataField<T>,
    corner: (usize, usize),
    size: (usize, usize),
)
    requires
        old(field).wf(),
        corner.0 >= 1,
        corner.1 >= 1,
        size.0 >= 1,
        size.1 >= 1,
        corner.0 + size.0 < old(field)@.width,
        corner.1 + size.1 < old(field)@.height,
    ensures
        final(field).wf(),
        final(field)@ == rectangle_drawn(
            old(field)@,
            corner.0 as int,
            corner.1 as int,
            size.0 as int,
            size.1 as int,
        ),
{
    let neumann = Neumann;
    let (x0, y0) = corner;
    let (width, height) = size;
    let (x_end, y_end) = (x0 + width - 1, y0 + height - 1);
    let ghost before = field@;
    let mut y: usize = y0;
    while y < y0 + height
        invariant
            field.wf(),
            before.wf(),
            field@.width == before.width,
            field@.height == before.height,
            x0 >= 1,
            y0 >= 1,
            width >= 1,
            height >= 1,
            x0 + width < before.width,
            y0 + height < before.height,
            x_end == x0 + width - 1,
            y_end == y0 + height - 1,
            y0 <= y <= y0 + height,
            forall|cx: int, cy: int|
                before.contains(cx, cy) ==> #[trigger] field@.at(cx, cy) == if y0 <= cy < y && cx
                    == x_end {
                    before.at(x0 + width, cy)
                } else if y0 <= cy < y && cx == x0 {
                    before.at(x0 - 1, cy)
                } else {
                    before.at(cx, cy)
                },
        decreases y0 + height - y,
    {
        let ghost start = field@;
        let other = field.get((x0 - 1, y));
        let left = neumann.calculate_boundary(other);
        field.set((x0, y), left);
        let ghost middle = field@;
        let other = field.get((x_end + 1, y));
        let right = neumann.calculate_boundary(other);
        field.set((x_end, y), right);
        proof {
            start.lemma_put_at(x0 as int, y as int, left, x_end + 1, y as int);
            assert forall|cx: int, cy: int| before.contains(cx, cy) implies #[trigger] field@.at(
                cx,
                cy,
            ) == if y0 <= cy < y + 1 && cx == x_end {
                before.at(x0 + width, cy)
            } else if y0 <= cy < y + 1 && cx == x0 {
                before.at(x0 - 1, cy)
            } else {
                before.at(cx, cy)
            } by {
                start.lemma_put_at(x0 as int, y as int, left, cx, cy);
                middle.lemma_put_at(x_end as int, y as int, right, cx, cy);
            }
        }
        y = y + 1;
    }
    let ghost sides = field@;
    let mut x: usize = x0;
    while x < x0 + width
        invariant
            field.wf(),
            before.wf(),
            sides.wf(),
            field@.width == before.width,
            field@.height == before.height,
            sides.width == before.width,
            sides.height == before.height,
            x0 >= 1,
            y0 >= 1,
            width >= 1,
            height >= 1,
            x0 + width < before.width,
            y0 + height < before.height,
            x_end == x0 + width - 1,
            y_end == y0 + height - 1,
            x0 <= x <= x0 + width,
            forall|cx: int, cy: int|
                before.contains(cx, cy) ==> #[trigger] sides.at(cx, cy) == if y0 <= cy < y0
                    + height && cx == x_end {
                    before.at(x0 + width, cy)
                } else if y0 <= cy < y0 + height && cx == x0 {
                    before.at(x0 - 1, cy)
                } else {
                    before.at(cx, cy)
                },
            forall|cx: int, cy: int|
                before.contains(cx, cy) ==> #[trigger] field@.at(cx, cy) == if x0 <= cx < x && cy
                    == y_end {
                    before.at(cx, y0 + height)
                } else if x0 <= cx < x && cy == y0 {
                    before.at(cx, y0 - 1)
                } else {
                    sides.at(cx, cy)
                },
        decreases x0 + width - x,
    {
        let ghost start = field@;
        let other = field.get((x, y0 - 1));
        let up = neumann.calculate_boundary(other);
        field.set((x, y0), up);
        let ghost middle = field@;
        let other = field.get((x, y_end + 1));
        let down = neumann.calculate_boundary(other);
        field.set((x, y_end), down);
        proof {
            assert(sides.at(x as int, y0 - 1) == before.at(x as int, y0 - 1));
            assert(sides.at(x as int, y_end + 1) == before.at(x as int, y_end + 1));
            start.lemma_put_at(x as int, y0 as int, up, x as int, y_end + 1);
            assert forall|cx: int, cy: int| before.contains(cx, cy) implies #[trigger] field@.at(
                cx,
                cy,
            ) == if x0 <= cx < x + 1 && cy == y_end {
                before.at(cx, y0 + height)
            } else if x0 <= cx < x + 1 && cy == y0 {
                before.at(cx, y0 - 1)
            } else {
                sides.at(cx, cy)
            } by {
                start.lemma_put_at(x as int, y0 as int, up, cx, cy);
                middle.lemma_put_at(x as int, y_end as int, down, cx, cy);
            }
        }
        x = x + 1;
    }
    proof {
        let goal = rectangle_drawn(before, x0 as int, y0 as int, width as int, height as int);
        assert forall|i: int| 0 <= i < field@.cells.len() implies field@.cells[i]
            == goal.cells[i] by {
            before.lemma_coordinates_of(i);
            assert(field@.at(before.column(i), before.row(i)) == field@.cells[i]);
        }
        assert(field@.cells =~= goal.cells);
    }
}

} // verus!
