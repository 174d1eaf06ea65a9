//! The solver: two fields that take turns as the current state and as the
//! target of the next time step.

use std::ops::Index;
use vstd::prelude::*;
use scoped_threadpool::Pool;
use crate::boundary_condition::BoundaryCondition;
use crate::boundary_condition::BoundaryConditions;
use crate::data_field::DataField;
use crate::differential_equation::DifferentialEquation;
use crate::cells::IterInnerMut;
use crate::cells::IterMut;
use crate::differential_equation::advanced;
use crate::grid::Grid;
use crate::jobs::FrameJob;
use crate::jobs::InitJob;
use crate::partition::inner_offsets;
use crate::partition::lemma_inner_offsets_members;
use crate::partition::lemma_span_bounds;
use crate::partition::offsets;
use crate::partition::chunk_size;
use crate::partition::lemma_chunks_exist;
use crate::partition::span;
use crate::partition::spans;
use crate::precondition::initialized;
use crate::precondition::PreCondition;
use crate::workers::run_jobs;
use crate::workers::Job;

verus! {

/// The number of worker threads for a machine with `cpus` processors: one for
/// each processor, at least one, and no more than the pool can count.
pub fn worker_count(cpus: usize) -> (n: u32)
    ensures
        n == if cpus < 1 {
            1
        } else if cpus > u32::MAX {
            u32::MAX as int
        } else {
            cpus as int
        },
{
    if cpus < 1 {
        1
    } else if cpus > 0xffff_ffff {
        0xffff_ffff
    } else {
        cpus as u32
    }
}

/// Gives every cell of `field` its first value. The cells are cut into one
/// chunk for each thread of the pool; the threads compute the values of the
/// chunks side by side.
fn initialize<T, P>(field: &mut DataField<T>, pool: &mut Pool, precondition: &P) where
    T: Copy + Send,
    P: PreCondition<T> + Sync,

    requires
        old(field).wf(),
    ensures
        final(field).wf(),
        final(field)@ == initialized(*precondition, old(field)@),
{
    let count: usize = pool.thread_count() as usize;
    let ghost before = field@;
    let ghost plan = before.chunks(count as nat);
    let ghost len = before.cells.len() as int;
    let mut chunks = field.chunks_mut(count);
    let mut jobs: Vec<InitJob<P>> = Vec::new();
    let mut cursors: Vec<IterMut> = Vec::new();
    let mut chunk = chunks.next();
    while chunk.is_some()
        invariant
            chunks.wf(),
            chunks.row_len() == before.width,
            jobs.len() == cursors.len(),
            jobs.len() <= plan.len(),
            match chunk {
                Some(cells) => {
                    &&& jobs.len() < plan.len()
                    &&& cells.wf()
                    &&& cells.row_len() == before.width
                    &&& cells.pending() == offsets(
                        plan[jobs.len() as int].0,
                        plan[jobs.len() as int].1,
                    )
                    &&& chunks.pending() == plan.skip(jobs.len() + 1)
                },
                None => jobs.len() == plan.len(),
            },
            forall|k: int|
                0 <= k < jobs.len() ==> {
                    &&& (#[trigger] jobs[k]).precondition == precondition
                    &&& jobs[k].cells == cursors[k]
                    &&& cursors[k].wf()
                    &&& cursors[k].row_len() == before.width
                    &&& cursors[k].pending() == offsets(plan[k].0, plan[k].1)
                },
        decreases plan.len() - jobs.len(),
    {
        let cells = chunk.unwrap();
        proof {
            if chunks.pending().len() > 0 {
                assert(chunks.pending()[0] == plan[jobs.len() + 1]);
                assert(chunks.pending().drop_first() =~= plan.skip(jobs.len() + 2));
            }
        }
        jobs.push(InitJob { precondition, cells });
        cursors.push(cells);
        chunk = chunks.next();
    }
    let ghost planned = jobs@;
    let results = run_jobs(pool, jobs);
    let ghost size = chunk_size(len as nat, count as nat) as int;
    proof {
        if len > 0 {
            lemma_chunks_exist(0, len as nat, count as nat);
        }
    }
    let mut done: usize = 0;
    while done < cursors.len()
        invariant
            field.wf(),
            before.wf(),
            field@.width == before.width,
            field@.height == before.height,
            len == before.cells.len(),
            plan == spans(0, len, size),
            cursors.len() == plan.len(),
            results.len() == plan.len(),
            planned.len() == plan.len(),
            done <= cursors.len(),
            forall|k: int|
                0 <= k < plan.len() ==> {
                    &&& (#[trigger] planned[k]).precondition == precondition
                    &&& planned[k].cells == cursors[k]
                    &&& cursors[k].wf()
                    &&& cursors[k].row_len() == before.width
                    &&& cursors[k].pending() == offsets(plan[k].0, plan[k].1)
                },
            forall|k: int| 0 <= k < plan.len() ==> (#[trigger] results[k])@ == planned[k].output(),
            forall|i: int|
                0 <= i < len && (done == plan.len() || i < plan[done as int].0)
                    ==> #[trigger] field@.cells[i] == initialized(*precondition, before).cells[i],
        decreases cursors.len() - done,
    {
        let ghost (lo, hi) = plan[done as int];
        proof {
            lemma_span_bounds(0, len, size, done as int);
            assert(plan[done as int] == span(0, len, size, done as int));
            if done + 1 < plan.len() {
                assert(plan[done + 1] == span(0, len, size, done + 1));
            }
            assert(planned[done as int].precondition == precondition);
            assert(results[done as int]@ == planned[done as int].output());
        }
        field.store(cursors[done], &results[done]);
        proof {
            let pending = cursors[done as int].pending();
            assert forall|i: int|
                0 <= i < len && (done + 1 == plan.len() || i < plan[done + 1].0)
                    implies #[trigger] field@.cells[i] == initialized(
                    *precondition,
                    before,
                ).cells[i] by {
                if i < lo {
                    assert(!pending.contains(i));
                } else {
                    assert(i < hi);
                    assert(pending[i - lo] == i);
                }
            }
        }
        done = done + 1;
    }
    proof {
        assert(field@.cells =~= initialized(*precondition, before).cells);
    }
}

/// Writes to `target` the next value of every interior cell of `current`.
/// The rows that hold interior cells are cut into one chunk for each thread of
/// the pool; the threads compute the values of the chunks side by side, from
/// `current` alone. The cells on the edge of `target` stay as they are.
fn advance<T, D>(
    current: &DataField<T>,
    target: &mut DataField<T>,
    pool: &mut Pool,
    equation: &D,
    delta_t: T,
    h: T,
) where T: Copy + Send + Sync, D: DifferentialEquation<T> + Sync
    requires
        current.wf(),
        old(target).wf(),
        current@.width == old(target)@.width,
        current@.height == old(target)@.height,
    ensures
        final(target).wf(),
        final(target)@ == advanced(*equation, current@, old(target)@, delta_t, h),
{
    let count: usize = pool.thread_count() as usize;
    let ghost before = target@;
    let ghost grid = current@;
    let ghost plan = before.inner_chunks(count as nat);
    let ghost len = before.cells.len() as int;
    let ghost nx = before.width as int;
    let mut chunks = target.chunks_inner_mut(count);
    let mut jobs: Vec<FrameJob<T, D>> = Vec::new();
    let mut cursors: Vec<IterInnerMut> = Vec::new();
    let mut chunk = chunks.next();
    while chunk.is_some()
        invariant
            chunks.wf(),
            chunks.row_len() == nx,
            jobs.len() == cursors.len(),
            jobs.len() <= plan.len(),
            match chunk {
                Some(cells) => {
                    &&& jobs.len() < plan.len()
                    &&& cells.wf()
                    &&& cells.row_len() == nx
                    &&& cells.pending() == inner_offsets(
                        nx,
                        plan[jobs.len() as int].0,
                        plan[jobs.len() as int].1,
                    )
                    &&& chunks.pending() == plan.skip(jobs.len() + 1)
                },
                None => jobs.len() == plan.len(),
            },
            forall|k: int|
                0 <= k < jobs.len() ==> {
                    &&& (#[trigger] jobs[k]).equation == equation
                    &&& jobs[k].current == current
                    &&& jobs[k].delta_t == delta_t
                    &&& jobs[k].h == h
                    &&& jobs[k].cells == cursors[k]
                    &&& cursors[k].wf()
                    &&& cursors[k].row_len() == nx
                    &&& cursors[k].pending() == inner_offsets(nx, plan[k].0, plan[k].1)
                },
        decreases plan.len() - jobs.len(),
    {
        let cells = chunk.unwrap();
        proof {
            if chunks.pending().len() > 0 {
                assert(chunks.pending()[0] == plan[jobs.len() + 1]);
                assert(chunks.pending().drop_first() =~= plan.skip(jobs.len() + 2));
            }
        }
        jobs.push(FrameJob { equation, current, cells, delta_t, h });
        cursors.push(cells);
        chunk = chunks.next();
    }
    let ghost planned = jobs@;
    let ghost lo = nx;
    let ghost hi = len - nx;
    let ghost size = chunk_size((len - 2 * nx) as nat, count as nat) as int;
    proof {
        if before.width >= 3 && before.height >= 3 {
            assert(nx * before.height >= nx * 3) by (nonlinear_arith)
                requires
                    before.height >= 3,
                    nx >= 0,
            ;
            assert(plan == spans(lo, hi, size));
            lemma_chunks_exist(lo, (len - 2 * nx) as nat, count as nat);
            assert(plan[0] == span(lo, hi, size, 0));
        } else {
            assert(plan.len() == 0);
        }
        assert forall|k: int| 0 <= k < plan.len() implies (#[trigger] planned[k]).ready() by {
            lemma_span_bounds(lo, hi, size, k);
            assert(plan[k] == span(lo, hi, size, k));
            lemma_inner_offsets_members(nx, plan[k].0, plan[k].1);
            let pending = planned[k].cells.pending();
            assert forall|j: int| 0 <= j < pending.len() implies grid.is_inner(
                grid.column(#[trigger] pending[j]),
                grid.row(pending[j]),
            ) by {
                grid.lemma_inner_cell(pending[j]);
            }
        }
    }
    let results = run_jobs(pool, jobs);
    let mut done: usize = 0;
    while done < cursors.len()
        invariant
            target.wf(),
            before.wf(),
            grid.wf(),
            target@.width == before.width,
            target@.height == before.height,
            grid.width == before.width,
            grid.height == before.height,
            len == before.cells.len(),
            nx == before.width,
            lo == nx,
            hi == len - nx,
            plan.len() > 0 ==> plan == spans(lo, hi, size) && lo < hi && span(lo, hi, size, 0).0
                == lo,
            cursors.len() == plan.len(),
            results.len() == plan.len(),
            planned.len() == plan.len(),
            done <= cursors.len(),
            forall|k: int|
                0 <= k < plan.len() ==> {
                    &&& (#[trigger] planned[k]).equation == equation
                    &&& planned[k].current@ == grid
                    &&& planned[k].delta_t == delta_t
                    &&& planned[k].h == h
                    &&& planned[k].cells == cursors[k]
                    &&& cursors[k].wf()
                    &&& cursors[k].pending() == inner_offsets(nx, plan[k].0, plan[k].1)
                },
            forall|k: int| 0 <= k < plan.len() ==> (#[trigger] results[k])@ == planned[k].output(),
            forall|i: int|
                0 <= i < len ==> #[trigger] target@.cells[i] == if lo <= i && (done == plan.len()
                    || i < plan[done as int].0) && grid.is_inner(grid.column(i), grid.row(i)) {
                    advanced(*equation, grid, before, delta_t, h).cells[i]
                } else {
                    before.cells[i]
                },
        decreases cursors.len() - done,
    {
        let ghost start = target@;
        let ghost from = plan[done as int].0;
        let ghost to = plan[done as int].1;
        proof {
            lemma_span_bounds(lo, hi, size, done as int);
            assert(plan[done as int] == span(lo, hi, size, done as int));
            if done + 1 < plan.len() {
                assert(plan[done + 1] == span(lo, hi, size, done + 1));
            }
            lemma_inner_offsets_members(nx, from, to);
            assert(planned[done as int].equation == equation);
            assert(results[done as int]@ == planned[done as int].output());
        }
        target.store_inner(cursors[done], &results[done]);
        proof {
            let pending = cursors[done as int].pending();
            assert forall|i: int| 0 <= i < len implies #[trigger] target@.cells[i] == if lo <= i
                && (done + 1 == plan.len() || i < plan[done + 1].0) && grid.is_inner(
                grid.column(i),
                grid.row(i),
            ) {
                advanced(*equation, grid, before, delta_t, h).cells[i]
            } else {
                before.cells[i]
            } by {
                grid.lemma_inner_cell(i);
                if from <= i < to && grid.is_inner(grid.column(i), grid.row(i)) {
                    assert(pending.contains(i));
                    let j = choose|j: int| 0 <= j < pending.len() && pending[j] == i;
                    assert(target@.cells[pending[j]] == results[done as int]@[j]);
                } else {
                    if pending.contains(i) {
                        let j = choose|j: int| 0 <= j < pending.len() && pending[j] == i;
                        assert(from <= pending[j] < to);
                    }
                    assert(!pending.contains(i));
                    assert(target@.cells[i] == start.cells[i]);
                }
            }
        }
        done = done + 1;
    }
    proof {
        let goal = advanced(*equation, grid, before, delta_t, h);
        assert forall|i: int| 0 <= i < len implies target@.cells[i] == goal.cells[i] by {
            grid.lemma_inner_cell(i);
        }
        assert(target@.cells =~= goal.cells);
    }
}

/// Steps a field forward in time with a differential equation and a boundary
/// condition for each edge.
pub struct Solver<T, D, BU, BD, BL, BR> {
    differential_equation: D,
    pub boundary_conditions: BoundaryConditions<BU, BD, BL, BR>,
    delta_t: T,
    h: T,
    first: DataField<T>,
    second: DataField<T>,
    current_field: usize,
    thread_pool: Pool,
}

impl<T, D, BU, BD, BL, BR> vstd::std_specs::core::IndexSpecImpl<(usize, usize)> for Solver<T, D, BU, BD, BL, BR> where
    T: Copy + Send + Sync,
    D: DifferentialEquation<T> + Sync + Send,
    BU: BoundaryCondition<T> + Sync + Send,
    BD: BoundaryCondition<T> + Sync + Send,
    BL: BoundaryCondition<T> + Sync + Send,
    BR: BoundaryCondition<T> + Sync + Send,
 {
    open spec fn index_req(&self, index: &(usize, usize)) -> bool {
        self.wf() && self.current().contains(index.0 as int, index.1 as int)
    }
}

impl<T, D, BU, BD, BL, BR> Index<(usize, usize)> for Solver<T, D, BU, BD, BL, BR> where
    T: Copy + Send + Sync,
    D: DifferentialEquation<T> + Sync + Send,
    BU: BoundaryCondition<T> + Sync + Send,
    BD: BoundaryCondition<T> + Sync + Send,
    BL: BoundaryCondition<T> + Sync + Send,
    BR: BoundaryCondition<T> + Sync + Send,
 {
    type Output = T;

    /// The cell of the current field at `index`, which has to be a cell of
    /// the field.
    fn index(&self, index: (usize, usize)) -> (value: &T)
        ensures
            *value == self.current().at(index.0 as int, index.1 as int),
    {
        if self.current_field == 0 {
            &self.first[index]
        } else {
            &self.second[index]
        }
    }
}

impl<T, D, BU, BD, BL, BR> Solver<T, D, BU, BD, BL, BR> where
    T: Copy + Send + Sync,
    D: DifferentialEquation<T> + Sync + Send,
    BU: BoundaryCondition<T> + Sync + Send,
    BD: BoundaryCondition<T> + Sync + Send,
    BL: BoundaryCondition<T> + Sync + Send,
    BR: BoundaryCondition<T> + Sync + Send,
 {
    /// One of the two fields is the current one.
    pub closed spec fn roles_valid(&self) -> bool {
        self.current_field < 2
    }

    /// Both fields hold one cell for every coordinate, within the limits of
    /// the machine, and have the same dimensions.
    pub open spec fn wf(&self) -> bool {
        &&& self.roles_valid()
        &&& self.current().wf()
        &&& self.target().wf()
        &&& self.current().width == self.target().width
        &&& self.current().height == self.target().height
        &&& self.current().width <= usize::MAX
        &&& self.current().height <= usize::MAX
        &&& self.current().cells.len() <= usize::MAX
    }

    /// The field that holds the state computed last.
    pub closed spec fn current(&self) -> Grid<T> {
        if self.current_field == 0 {
            self.first@
        } else {
            self.second@
        }
    }

    /// The field that the next time step writes to.
    pub closed spec fn target(&self) -> Grid<T> {
        if self.current_field == 0 {
            self.second@
        } else {
            self.first@
        }
    }

    /// The boundary conditions, one for each edge.
    pub closed spec fn conditions(&self) -> BoundaryConditions<BU, BD, BL, BR> {
        self.boundary_conditions
    }

    pub closed spec fn equation(&self) -> D {
        self.differential_equation
    }

    pub closed spec fn delta_t(&self) -> T {
        self.delta_t
    }

    pub closed spec fn h(&self) -> T {
        self.h
    }

    /// A solver whose two fields have the given dimensions and hold the
    /// default value of the cell type in every cell. Its pool has one worker
    /// thread for each processor of the machine.
    pub fn new(
        equation: D,
        boundary_conditions: BoundaryConditions<BU, BD, BL, BR>,
        dimensions: (usize, usize),
        delta_t: T,
        h: T,
    ) -> (solver: Self) where T: Default
        requires
            dimensions.0 * dimensions.1 <= usize::MAX,
        ensures
            solver.wf(),
            solver.equation() == equation,
            solver.conditions() == boundary_conditions,
            solver.delta_t() == delta_t,
            solver.h() == h,
            solver.current().width == dimensions.0,
            solver.current().height == dimensions.1,
            solver.target().width == dimensions.0,
            solver.target().height == dimensions.1,
            solver.current().is_default_filled(),
            solver.target().is_default_filled(),
    {
        let threads = worker_count(num_cpus::get());
        Self::with_threads(equation, boundary_conditions, dimensions, delta_t, h, threads)
    }

    /// A solver like that of `new`, with a pool of `threads` worker threads,
    /// at least one.
    pub fn with_threads(
        equation: D,
        boundary_conditions: BoundaryConditions<BU, BD, BL, BR>,
        dimensions: (usize, usize),
        delta_t: T,
        h: T,
        threads: u32,
    ) -> (solver: Self) where T: Default
        requires
            dimensions.0 * dimensions.1 <= usize::MAX,
            threads >= 1,
        ensures
            solver.wf(),
            solver.equation() == equation,
            solver.conditions() == boundary_conditions,
            solver.delta_t() == delta_t,
            solver.h() == h,
            solver.current().width == dimensions.0,
            solver.current().height == dimensions.1,
            solver.target().width == dimensions.0,
            solver.target().height == dimensions.1,
            solver.current().is_default_filled(),
            solver.target().is_default_filled(),
    {
        Solver {
            differential_equation: equation,
            boundary_conditions,
            delta_t,
            h,
            first: DataField::new(dimensions),
            second: DataField::new(dimensions),
            current_field: 0,
            thread_pool: Pool::new(threads),
        }
    }

    /// Gives every cell of the current field the value it starts with. The
    /// other field stays as it is.
    pub fn execute_precondition<P: PreCondition<T> + Sync>(&mut self, precondition: &P)
        requires
            old(self).wf(),
        ensures
            final(self).wf(),
            final(self).current() == initialized(*precondition, old(self).current()),
            final(self).target() == old(self).target(),
            final(self).equation() == old(self).equation(),
            final(self).conditions() == old(self).conditions(),
            final(self).delta_t() == old(self).delta_t(),
            final(self).h() == old(self).h(),
    {
        if self.current_field == 0 {
            initialize(&mut self.first, &mut self.thread_pool, precondition);
        } else {
            initialize(&mut self.second, &mut self.thread_pool, precondition);
        }
    }

    /// Advances the field by one time step. First the boundary conditions
    /// are applied to the current field. Then every interior cell of the
    /// other field is computed from the current field, and the two fields
    /// change roles. The cells on the edge of the new current field are the
    /// ones that field held before. The field needs at least two rows and two
    /// columns.
    pub fn solve_next_frame(&mut self)
        requires
            old(self).wf(),
            old(self).current().width >= 2,
            old(self).current().height >= 2,
        ensures
            final(self).wf(),
            final(self).target() == old(self).conditions().applied(old(self).current()),
            final(self).current() == advanced(
                old(self).equation(),
                final(self).target(),
                old(self).target(),
                old(self).delta_t(),
                old(self).h(),
            ),
            final(self).equation() == old(self).equation(),
            final(self).conditions() == old(self).conditions(),
            final(self).delta_t() == old(self).delta_t(),
            final(self).h() == old(self).h(),
    {
        if self.current_field == 0 {
            self.boundary_conditions.calculate_boundaries(&mut self.first);
            advance(
                &self.first,
                &mut self.second,
                &mut self.thread_pool,
                &self.differential_equation,
                self.delta_t,
                self.h,
            );
        } else {
            self.boundary_conditions.calculate_boundaries(&mut self.second);
            advance(
                &self.second,
                &mut self.first,
                &mut self.thread_pool,
                &self.differential_equation,
                self.delta_t,
                self.h,
            );
        }
        self.current_field = 1 - self.current_field;
    }

    /// The current field.
    pub fn get_field(&self) -> (field: &DataField<T>)
        requires
            self.wf(),
        ensures
            field.wf(),
            field@ == self.current(),
    {
        if self.current_field == 0 {
            &self.first
        } else {
            &self.second
        }
    }

    /// The current field, to be changed in place.
    pub fn get_field_mut(&mut self) -> (field: &mut DataField<T>)
        requires
            old(self).wf(),
        ensures
            field.wf(),
            field@ == old(self).current(),
            final(self).current() == final(field)@,
            final(self).target() == old(self).target(),
            final(self).equation() == old(self).equation(),
            final(self).conditions() == old(self).conditions(),
            final(self).delta_t() == old(self).delta_t(),
            final(self).h() == old(self).h(),
            final(field).wf() && final(field)@.width == field@.width && final(field)@.height
                == field@.height ==> final(self).wf(),
    {
        if self.current_field == 0 {
            &mut self.first
        } else {
            &mut self.second
        }
    }
}

} // verus!
