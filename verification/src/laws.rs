//! What holds of the engine as a whole: how the chunks cover a field, what
//! the boundary conditions leave on the edges, and which states are steady.

use vstd::prelude::*;
use crate::boundary_condition::BoundaryCondition;
use crate::boundary_condition::BoundaryConditions;
use crate::boundary_condition::Dirichlet;
use crate::boundary_condition::Neumann;
use crate::boundary_condition::SwitchableBoundaryCondition;
use crate::differential_equation::advanced;
use crate::differential_equation::lemma_advanced_at;
use crate::differential_equation::DifferentialEquation;
use crate::grid::Grid;
use crate::grid::Stencil;
use crate::partition::chunk_size;
use crate::partition::inner_offsets;
use crate::partition::lemma_chunks_exist;
use crate::partition::lemma_inner_offsets_concat;
use crate::partition::lemma_inner_offsets_members;
use crate::partition::lemma_offsets_concat;
use crate::partition::lemma_span_bounds;
use crate::partition::lemma_span_of_offset;
use crate::partition::lemma_spans_step;
use crate::partition::offsets;
use crate::partition::span;
use crate::partition::spans;
use crate::precondition::initialized;
use crate::precondition::lemma_initialized_at;
use crate::precondition::ConstantPreCondition;

verus! {

/// The chunks into which all cells are cut hand out every cell exactly once,
/// under its own coordinate: the cell at `(x, y)` is found at one place of one
/// chunk and nowhere else, and whatever a chunk hands out is a cell of the
/// grid.
pub proof fn lemma_chunks_cover_every_cell_once<T>(grid: Grid<T>, count: nat, x: int, y: int)
    requires
        grid.wf(),
        grid.contains(x, y),
    ensures
        ({
            let plan = grid.chunks(count);
            let offset = grid.offset(x, y);
            let k = offset / (chunk_size(grid.cells.len(), count) as int);
            let j = offset - plan[k].0;
            &&& grid.column(offset) == x
            &&& grid.row(offset) == y
            &&& 0 <= k < plan.len()
            &&& 0 <= j < offsets(plan[k].0, plan[k].1).len()
            &&& offsets(plan[k].0, plan[k].1)[j] == offset
            &&& forall|k2: int, j2: int|
                0 <= k2 < plan.len() && 0 <= j2 < offsets(plan[k2].0, plan[k2].1).len()
                    && #[trigger] offsets(plan[k2].0, plan[k2].1)[j2] == offset ==> k2 == k && j2
                    == j
            &&& forall|k2: int, j2: int|
                0 <= k2 < plan.len() && 0 <= j2 < offsets(plan[k2].0, plan[k2].1).len()
                    ==> 0 <= #[trigger] offsets(plan[k2].0, plan[k2].1)[j2] < grid.cells.len()
        }),
{
    let len = grid.cells.len() as int;
    let size = chunk_size(grid.cells.len(), count) as int;
    let plan = grid.chunks(count);
    let offset = grid.offset(x, y);
    grid.lemma_offset_in_range(x, y);
    lemma_chunks_exist(0, len as nat, count);
    lemma_span_of_offset(0, len, size, offset);
    let k = offset / size;
    assert(plan[k] == span(0, len, size, k));
    assert forall|k2: int, j2: int|
        0 <= k2 < plan.len() && 0 <= j2 < offsets(plan[k2].0, plan[k2].1).len()
            && #[trigger] offsets(plan[k2].0, plan[k2].1)[j2] == offset implies k2 == k && j2
        == offset - plan[k].0 by {
        assert(plan[k2] == span(0, len, size, k2));
    }
    assert forall|k2: int, j2: int|
        0 <= k2 < plan.len() && 0 <= j2 < offsets(plan[k2].0, plan[k2].1).len() implies 0
        <= #[trigger] offsets(plan[k2].0, plan[k2].1)[j2] < len by {
        assert(plan[k2] == span(0, len, size, k2));
        lemma_span_bounds(0, len, size, k2);
    }
}

/// The chunks into which the interior cells are cut hand out every interior
/// cell exactly once, under its own coordinate: the interior cell at `(x, y)`
/// is found at one place of one chunk and nowhere else, and whatever a chunk
/// hands out is an interior cell of the grid.
pub proof fn lemma_inner_chunks_cover_every_inner_cell_once<T>(
    grid: Grid<T>,
    count: nat,
    x: int,
    y: int,
)
    requires
        grid.wf(),
        grid.is_inner(x, y),
    ensures
        ({
            let plan = grid.inner_chunks(count);
            let nx = grid.width as int;
            let offset = grid.offset(x, y);
            &&& grid.column(offset) == x
            &&& grid.row(offset) == y
            &&& exists|k: int, j: int|
                0 <= k < plan.len() && 0 <= j < inner_offsets(nx, plan[k].0, plan[k].1).len()
                    && #[trigger] inner_offsets(nx, plan[k].0, plan[k].1)[j] == offset
            &&& forall|k1: int, j1: int, k2: int, j2: int|
                0 <= k1 < plan.len() && 0 <= j1 < inner_offsets(nx, plan[k1].0, plan[k1].1).len()
                    && 0 <= k2 < plan.len() && 0 <= j2 < inner_offsets(
                    nx,
                    plan[k2].0,
                    plan[k2].1,
                ).len() && #[trigger] inner_offsets(nx, plan[k1].0, plan[k1].1)[j1] == offset
                    && #[trigger] inner_offsets(nx, plan[k2].0, plan[k2].1)[j2] == offset ==> k1
                    == k2 && j1 == j2
            &&& forall|k2: int, j2: int|
                0 <= k2 < plan.len() && 0 <= j2 < inner_offsets(nx, plan[k2].0, plan[k2].1).len()
                    ==> {
                    let found = #[trigger] inner_offsets(nx, plan[k2].0, plan[k2].1)[j2];
                    0 <= found < grid.cells.len() && grid.is_inner(
                        grid.column(found),
                        grid.row(found),
                    )
                }
        }),
{
    let len = grid.cells.len() as int;
    let nx = grid.width as int;
    let lo = nx;
    let hi = len - nx;
    let cells = (len - 2 * nx) as nat;
    let size = chunk_size(cells, count) as int;
    let plan = grid.inner_chunks(count);
    let offset = grid.offset(x, y);
    grid.lemma_offset_in_range(x, y);
    grid.lemma_inner_cell(offset);
    lemma_chunks_exist(lo, cells, count);
    lemma_span_of_offset(lo, hi, size, offset);
    let k = (offset - lo) / size;
    assert(plan[k] == span(lo, hi, size, k));
    lemma_inner_offsets_members(nx, plan[k].0, plan[k].1);
    let chunk = inner_offsets(nx, plan[k].0, plan[k].1);
    assert(chunk.contains(offset));
    let j = choose|j: int| 0 <= j < chunk.len() && chunk[j] == offset;
    assert(inner_offsets(nx, plan[k].0, plan[k].1)[j] == offset);
    assert forall|k1: int, j1: int, k2: int, j2: int|
        0 <= k1 < plan.len() && 0 <= j1 < inner_offsets(nx, plan[k1].0, plan[k1].1).len() && 0
            <= k2 < plan.len() && 0 <= j2 < inner_offsets(nx, plan[k2].0, plan[k2].1).len()
            && #[trigger] inner_offsets(nx, plan[k1].0, plan[k1].1)[j1] == offset
            && #[trigger] inner_offsets(nx, plan[k2].0, plan[k2].1)[j2] == offset implies k1
        == k2 && j1 == j2 by {
        assert(plan[k1] == span(lo, hi, size, k1));
        assert(plan[k2] == span(lo, hi, size, k2));
        lemma_inner_offsets_members(nx, plan[k1].0, plan[k1].1);
        lemma_inner_offsets_members(nx, plan[k2].0, plan[k2].1);
        assert(k1 == k);
        assert(k2 == k);
        if j1 < j2 {
            assert(chunk[j1] < chunk[j2]);
        }
        if j2 < j1 {
            assert(chunk[j2] < chunk[j1]);
        }
    }
    assert forall|k2: int, j2: int|
        0 <= k2 < plan.len() && 0 <= j2 < inner_offsets(
            nx,
            plan[k2].0,
            plan[k2].1,
        ).len() implies {
        let found = #[trigger] inner_offsets(nx, plan[k2].0, plan[k2].1)[j2];
        0 <= found < grid.cells.len() && grid.is_inner(grid.column(found), grid.row(found))
    } by {
        assert(plan[k2] == span(lo, hi, size, k2));
        lemma_span_bounds(lo, hi, size, k2);
        lemma_inner_offsets_members(nx, plan[k2].0, plan[k2].1);
        grid.lemma_inner_cell(inner_offsets(nx, plan[k2].0, plan[k2].1)[j2]);
    }
}

/// The offsets that the chunks of `plan` hand out, one chunk after the other.
pub open spec fn gathered(plan: Seq<(int, int)>) -> Seq<int>
    decreases plan.len(),
{
    if plan.len() == 0 {
        Seq::empty()
    } else {
        offsets(plan[0].0, plan[0].1) + gathered(plan.drop_first())
    }
}

/// The offsets in an inner column that the chunks of `plan` hand out, one
/// chunk after the other.
pub open spec fn gathered_inner(nx: int, plan: Seq<(int, int)>) -> Seq<int>
    decreases plan.len(),
{
    if plan.len() == 0 {
        Seq::empty()
    } else {
        inner_offsets(nx, plan[0].0, plan[0].1) + gathered_inner(nx, plan.drop_first())
    }
}

/// The chunks of a run hand out, one after the other, what a single pass over
/// the run hands out.
pub proof fn lemma_spans_gather_the_run(nx: int, lo: int, hi: int, size: int)
    requires
        lo <= hi,
        lo < hi ==> size >= 1,
    ensures
        gathered(spans(lo, hi, size)) == offsets(lo, hi),
        gathered_inner(nx, spans(lo, hi, size)) == inner_offsets(nx, lo, hi),
    decreases hi - lo,
{
    if lo < hi {
        lemma_spans_step(lo, hi, size);
        let next = if hi - lo < size {
            hi
        } else {
            lo + size
        };
        lemma_spans_gather_the_run(nx, next, hi, size);
        lemma_offsets_concat(lo, next, hi);
        lemma_inner_offsets_concat(nx, lo, next, hi);
    } else {
        assert(spans(lo, hi, size).len() == 0);
        assert(offsets(lo, hi) =~= Seq::<int>::empty());
    }
}

/// Taken one after the other, the chunks of all cells hand out what a pass
/// over all cells hands out, and the chunks of the interior cells hand out
/// what a pass over the interior cells hands out: the same cells, each once,
/// in the same order, whatever the number of workers.
pub proof fn lemma_chunks_gather_the_field<T>(grid: Grid<T>, count: nat)
    requires
        grid.wf(),
    ensures
        gathered(grid.chunks(count)) == grid.all_cells(),
        gathered_inner(grid.width as int, grid.inner_chunks(count)) == grid.inner_cells(),
{
    let len = grid.cells.len() as int;
    let nx = grid.width as int;
    if len > 0 {
        lemma_chunks_exist(0, len as nat, count);
    }
    lemma_spans_gather_the_run(nx, 0, len, chunk_size(len as nat, count) as int);
    if grid.width >= 3 && grid.height >= 3 {
        assert(nx * grid.height >= nx * 3) by (nonlinear_arith)
            requires
                grid.height >= 3,
                nx >= 0,
        ;
        let cells = (len - 2 * nx) as nat;
        lemma_chunks_exist(nx, cells, count);
        lemma_spans_gather_the_run(nx, nx, len - nx, chunk_size(cells, count) as int);
    } else {
        let none = inner_offsets(nx, nx, len - nx);
        lemma_inner_offsets_members(nx, nx, len - nx);
        if grid.height < 3 {
            assert(nx * grid.height <= nx * 2) by (nonlinear_arith)
                requires
                    grid.height < 3,
                    nx >= 0,
            ;
        }
        if none.len() > 0 {
            assert(nx <= none[0] < len - nx);
        }
        assert(none =~= Seq::<int>::empty());
    }
}

/// A pass over the interior cells hands out the interior cells and no others,
/// in ascending order of their offsets, so each of them once.
pub proof fn lemma_inner_cells_are_the_interior<T>(grid: Grid<T>)
    requires
        grid.wf(),
    ensures
        forall|x: int, y: int|
            grid.contains(x, y) ==> (grid.inner_cells().contains(#[trigger] grid.offset(x, y))
                <==> grid.is_inner(x, y)),
        forall|j: int|
            0 <= j < grid.inner_cells().len() ==> 0 <= #[trigger] grid.inner_cells()[j]
                < grid.cells.len(),
        forall|i: int, j: int|
            0 <= i < j < grid.inner_cells().len() ==> grid.inner_cells()[i]
                < grid.inner_cells()[j],
{
    let nx = grid.width as int;
    let len = grid.cells.len() as int;
    lemma_inner_offsets_members(nx, nx, len - nx);
    assert forall|x: int, y: int| grid.contains(x, y) implies (grid.inner_cells().contains(
        #[trigger] grid.offset(x, y),
    ) <==> grid.is_inner(x, y)) by {
        let offset = grid.offset(x, y);
        grid.lemma_offset_in_range(x, y);
        grid.lemma_inner_cell(offset);
        if grid.inner_cells().contains(offset) {
            let j = choose|j: int|
                0 <= j < grid.inner_cells().len() && grid.inner_cells()[j] == offset;
            assert(nx <= grid.inner_cells()[j] < len - nx);
        }
    }
}

/// A mirroring boundary gives the edge cell the value of its neighbour.
pub proof fn lemma_neumann_mirrors<T>(other: T)
    ensures
        Neumann.boundary_value(other) == other,
{
}

/// A fixed boundary gives the edge cell its own value, whatever the
/// neighbour holds.
pub proof fn lemma_dirichlet_is_fixed<T: Copy>(value: T, other: T)
    ensures
        Dirichlet(value).boundary_value(other) == value,
{
}

/// A switchable boundary that starts with its first condition follows the
/// first condition after an even number of toggles (none included) and the
/// second after an odd number.
pub proof fn lemma_switchable_follows_parity<T, F: BoundaryCondition<T>, S: BoundaryCondition<T>>(
    condition: SwitchableBoundaryCondition<F, S>,
    n: nat,
    other: T,
)
    requires
        !condition.uses_second(),
    ensures
        condition.toggled_times(n).boundary_value(other) == if n % 2 == 0 {
            condition.first().boundary_value(other)
        } else {
            condition.second().boundary_value(other)
        },
{
    condition.lemma_toggled_times(n);
}

/// After a constant precondition every cell holds the constant.
pub proof fn lemma_constant_precondition_fills<T: Copy>(value: T, grid: Grid<T>, x: int, y: int)
    requires
        grid.wf(),
        grid.contains(x, y),
        grid.width <= usize::MAX,
        grid.height <= usize::MAX,
    ensures
        initialized(ConstantPreCondition(value), grid).at(x, y) == value,
        initialized(ConstantPreCondition(value), grid).is_uniform(value),
{
    lemma_initialized_at(ConstantPreCondition(value), grid, x, y);
}

/// After the boundary conditions were applied, every cell of the first column
/// holds what the left condition makes of the cell beside it as the pass over
/// the rows left it, and every cell of the last column holds what the right
/// condition makes of the cell beside it.
pub proof fn lemma_edges_follow_their_neighbours<T, BU, BD, BL, BR>(
    conditions: BoundaryConditions<BU, BD, BL, BR>,
    grid: Grid<T>,
    y: int,
) where
    BU: BoundaryCondition<T>,
    BD: BoundaryCondition<T>,
    BL: BoundaryCondition<T>,
    BR: BoundaryCondition<T>,

    requires
        grid.wf(),
        grid.width >= 2,
        grid.height >= 2,
        0 <= y < grid.height,
    ensures
        conditions.applied(grid).at(0, y) == conditions.left.boundary_value(
            conditions.after_rows(grid).at(1, y),
        ),
        conditions.applied(grid).at(grid.width - 1, y) == conditions.right.boundary_value(
            conditions.applied(grid).at(grid.width - 2, y),
        ),
{
    conditions.lemma_applied_at(grid, 0, y);
    conditions.lemma_applied_at(grid, 1, y);
    conditions.lemma_applied_at(grid, grid.width - 1, y);
    conditions.lemma_applied_at(grid, grid.width - 2, y);
}

/// With a fixed value on the left edge, every cell of the first column holds
/// that value after the boundary conditions were applied, whatever its
/// neighbour holds.
pub proof fn lemma_fixed_left_edge<T: Copy, BU, BD, BR>(
    conditions: BoundaryConditions<BU, BD, Dirichlet<T>, BR>,
    grid: Grid<T>,
    y: int,
) where BU: BoundaryCondition<T>, BD: BoundaryCondition<T>, BR: BoundaryCondition<T>
    requires
        grid.wf(),
        grid.width >= 2,
        grid.height >= 2,
        0 <= y < grid.height,
    ensures
        conditions.applied(grid).at(0, y) == conditions.left.0,
{
    lemma_edges_follow_their_neighbours(conditions, grid, y);
}

/// With a mirror on the right edge, the last column equals the column beside
/// it after the boundary conditions were applied.
pub proof fn lemma_mirrored_right_edge<T, BU, BD, BL>(
    conditions: BoundaryConditions<BU, BD, BL, Neumann>,
    grid: Grid<T>,
    y: int,
) where BU: BoundaryCondition<T>, BD: BoundaryCondition<T>, BL: BoundaryCondition<T>
    requires
        grid.wf(),
        grid.width >= 2,
        grid.height >= 2,
        0 <= y < grid.height,
    ensures
        conditions.applied(grid).at(grid.width - 1, y) == conditions.applied(grid).at(
            grid.width - 2,
            y,
        ),
{
    lemma_edges_follow_their_neighbours(conditions, grid, y);
}

/// The stencil whose five cells all hold `value`.
pub open spec fn uniform_stencil<T>(value: T) -> Stencil<T> {
    Stencil { center: value, left: value, right: value, up: value, down: value }
}

/// A uniform state is steady. Let every cell of the current field hold `c`,
/// let the field that is written to hold `c` on its edge, let every boundary
/// condition give `c` to an edge whose neighbour holds `c` (as a boundary
/// fixed at `c` does), and let the equation leave a cell at `c` when the five
/// cells around it hold `c`. Then after a time step every cell of both fields
/// holds `c`, so the same holds of every later step.
pub proof fn lemma_uniform_state_is_steady<T: Copy, D, BU, BD, BL, BR>(
    equation: D,
    conditions: BoundaryConditions<BU, BD, BL, BR>,
    current: Grid<T>,
    target: Grid<T>,
    delta_t: T,
    h: T,
    c: T,
) where
    D: DifferentialEquation<T>,
    BU: BoundaryCondition<T>,
    BD: BoundaryCondition<T>,
    BL: BoundaryCondition<T>,
    BR: BoundaryCondition<T>,

    requires
        current.wf(),
        target.wf(),
        current.width == target.width,
        current.height == target.height,
        current.width >= 2,
        current.height >= 2,
        current.is_uniform(c),
        target.has_border(c),
        conditions.up.boundary_value(c) == c,
        conditions.down.boundary_value(c) == c,
        conditions.left.boundary_value(c) == c,
        conditions.right.boundary_value(c) == c,
        equation.update(uniform_stencil(c), delta_t, h) == c,
    ensures
        conditions.applied(current).is_uniform(c),
        advanced(equation, conditions.applied(current), target, delta_t, h).is_uniform(c),
{
    let rows = conditions.after_rows(current);
    let bounded = conditions.applied(current);
    let next = advanced(equation, bounded, target, delta_t, h);
    assert forall|x: int, y: int| current.contains(x, y) implies #[trigger] current.at(x, y)
        == c by {
        current.lemma_offset_in_range(x, y);
    }
    assert forall|x: int, y: int| current.contains(x, y) implies #[trigger] rows.at(x, y)
        == c by {
        conditions.lemma_applied_at(current, x, y);
        assert(current.at(x, 1) == c);
        assert(current.at(x, current.height - 2) == c);
        assert(current.at(x, y) == c);
    }
    assert forall|x: int, y: int| current.contains(x, y) implies #[trigger] bounded.at(x, y)
        == c by {
        conditions.lemma_applied_at(current, x, y);
        assert(rows.at(1, y) == c);
        assert(rows.at(current.width - 2, y) == c);
        assert(rows.at(x, y) == c);
    }
    conditions.lemma_applied_at(current, 0, 0);
    assert forall|i: int| 0 <= i < bounded.cells.len() implies #[trigger] bounded.cells[i]
        == c by {
        current.lemma_coordinates_of(i);
        assert(bounded.at(current.column(i), current.row(i)) == c);
    }
    assert forall|i: int| 0 <= i < next.cells.len() implies #[trigger] next.cells[i] == c by {
        target.lemma_coordinates_of(i);
        let x = target.column(i);
        let y = target.row(i);
        lemma_advanced_at(equation, bounded, target, delta_t, h, x, y);
        if bounded.is_inner(x, y) {
            assert(bounded.at(x, y) == c);
            assert(bounded.at(x - 1, y) == c);
            assert(bounded.at(x + 1, y) == c);
            assert(bounded.at(x, y - 1) == c);
            assert(bounded.at(x, y + 1) == c);
            assert(bounded.stencil(x, y) == uniform_stencil(c));
        } else {
            assert(target.at(x, y) == c);
        }
    }
}

} // verus!
