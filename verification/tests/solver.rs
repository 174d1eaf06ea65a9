use rusty_solver::boundary_condition::Dirichlet;
use rusty_solver::boundary_condition::Neumann;
use rusty_solver::boundary_condition::SwitchableBoundaryCondition;
use rusty_solver::precondition::ConstantPreCondition;
use rusty_solver::BoundaryConditions;
use rusty_solver::DataField;
use rusty_solver::DifferentialEquation;
use rusty_solver::PreCondition;
use rusty_solver::Solver;
use rusty_solver::Stencil;
use rusty_solver::solver::worker_count;

struct Heat;

impl DifferentialEquation<f32> for Heat {
    fn update(&self, s: Stencil<f32>, delta_t: f32, h: f32) -> f32 {
        let sum = s.left + s.right + s.up + s.down - 4.0 * s.center;
        s.center + delta_t * sum / (h * h)
    }

    fn solve(&self, field: &DataField<f32>, coord: (usize, usize), delta_t: f32, h: f32) -> f32 {
        self.update(field.stencil(coord), delta_t, h)
    }
}

struct PhaseField {
    t: f32,
    gamma: f32,
    tau: f32,
    epsilon: f32,
    tm: f32,
    la: f32,
}

impl DifferentialEquation<f32> for PhaseField {
    fn update(&self, s: Stencil<f32>, delta_t: f32, h: f32) -> f32 {
        let center = s.center;
        let center2 = center * center;
        let center3 = center2 * center;
        let l = self.la * (self.tm - self.t) / self.tm;
        let a = 2.0 * self.gamma * (s.up + s.down + s.left + s.right - 4.0 * center) / (h * h);
        let w = 18.0 / (self.epsilon * self.epsilon) * self.gamma
            * (2.0 * center3 - 3.0 * center2 + center);
        let f = l / self.epsilon * 6.0 * center * (1.0 - center);
        center + delta_t / self.tau * (a - w + f)
    }

    fn solve(&self, field: &DataField<f32>, coord: (usize, usize), delta_t: f32, h: f32) -> f32 {
        self.update(field.stencil(coord), delta_t, h)
    }
}

struct Ramp;

impl PreCondition<f32> for Ramp {
    fn initial_value(&self, coord: (usize, usize)) -> f32 {
        (coord.0 + 100 * coord.1) as f32
    }

    fn precondition(&self, coord: (usize, usize)) -> f32 {
        self.initial_value(coord)
    }
}

fn fixed(value: f32) -> BoundaryConditions<Dirichlet<f32>, Dirichlet<f32>, Dirichlet<f32>, Dirichlet<f32>> {
    BoundaryConditions::new(Dirichlet(value), Dirichlet(value), Dirichlet(value), Dirichlet(value))
}

#[test]
fn one_worker_for_each_processor() {
    assert_eq!(worker_count(0), 1);
    assert_eq!(worker_count(1), 1);
    assert_eq!(worker_count(12), 12);
    assert_eq!(worker_count(u32::MAX as usize), u32::MAX);
    assert_eq!(worker_count(usize::MAX), u32::MAX);
}

#[test]
fn solver_starts_with_zero_cells() {
    let solver = Solver::new(Heat, fixed(0.0), (5, 4), 0.1f32, 1.0);
    assert_eq!(solver.get_field().dimensions(), (5, 4));
    for y in 0..4 {
        for x in 0..5 {
            assert_eq!(solver.get_field().get((x, y)), 0.0);
        }
    }
}

#[test]
fn solver_is_indexed_by_coordinate() {
    let mut solver = Solver::new(Heat, fixed(0.0), (5, 4), 0.1f32, 1.0);
    solver.execute_precondition(&Ramp);
    assert_eq!(solver[(3, 2)], 203.0);
    assert_eq!(solver[(0, 0)], 0.0);
    assert_eq!(solver[(4, 3)], 304.0);
}

#[test]
fn constant_precondition_fills_every_cell() {
    for (w, h) in [(1, 1), (5, 5), (7, 3), (64, 33)] {
        let mut solver = Solver::new(Heat, fixed(0.0), (w, h), 0.1f32, 1.0);
        solver.execute_precondition(&ConstantPreCondition(2.5f32));
        for y in 0..h {
            for x in 0..w {
                assert_eq!(solver.get_field().get((x, y)), 2.5);
            }
        }
    }
}

#[test]
fn precondition_sees_the_coordinate_of_each_cell() {
    let mut solver = Solver::new(Heat, fixed(0.0), (13, 11), 0.1f32, 1.0);
    solver.execute_precondition(&Ramp);
    for y in 0..11 {
        for x in 0..13 {
            assert_eq!(solver.get_field().get((x, y)), (x + 100 * y) as f32);
        }
    }
}

#[test]
fn precondition_of_an_empty_field_does_nothing() {
    let mut solver = Solver::new(Heat, fixed(0.0), (0, 0), 0.1f32, 1.0);
    solver.execute_precondition(&ConstantPreCondition(2.5f32));
    assert_eq!(solver.get_field().dimensions(), (0, 0));
}

#[test]
fn heat_spreads_from_a_hot_cell() {
    let mut solver = Solver::new(Heat, fixed(0.0), (5, 5), 0.1f32, 1.0);
    solver.execute_precondition(&ConstantPreCondition(0.0f32));
    solver.get_field_mut().set((2, 2), 100.0);
    solver.solve_next_frame();
    let field = solver.get_field();
    assert!(field.get((2, 2)) < 100.0);
    assert_eq!(field.get((2, 2)), 100.0 + 0.1 * (0.0 - 4.0 * 100.0) / 1.0);
    for coord in [(1, 2), (3, 2), (2, 1), (2, 3)] {
        assert!(field.get(coord) > 0.0);
        assert_eq!(field.get(coord), 0.1 * 100.0);
    }
    for coord in [(0, 0), (4, 0), (0, 4), (4, 4), (1, 1), (3, 3)] {
        assert_eq!(field.get(coord), 0.0);
    }
}

#[test]
fn uniform_field_with_matching_edges_is_a_steady_state() {
    let c = 3.75f32;
    let mut solver = Solver::new(Heat, fixed(c), (6, 5), 0.1f32, 1.0);
    solver.execute_precondition(&ConstantPreCondition(c));
    // The first step swaps in the field that has never been current: its
    // edge is still zero. From the second step on both fields have been
    // through the boundary pass.
    solver.solve_next_frame();
    for _ in 0..20 {
        solver.solve_next_frame();
        for y in 0..5 {
            for x in 0..6 {
                assert_eq!(solver.get_field().get((x, y)), c);
            }
        }
    }
}

#[test]
fn uniform_zero_field_stays_zero_from_the_first_step() {
    let mut solver = Solver::new(Heat, fixed(0.0), (6, 5), 0.1f32, 1.0);
    solver.execute_precondition(&ConstantPreCondition(0.0f32));
    for _ in 0..10 {
        solver.solve_next_frame();
        for y in 0..5 {
            for x in 0..6 {
                assert_eq!(solver.get_field().get((x, y)), 0.0);
            }
        }
    }
}

#[test]
fn edge_of_the_new_field_is_the_one_it_held_before() {
    let mut solver = Solver::new(Heat, fixed(9.0), (4, 4), 0.1f32, 1.0);
    solver.execute_precondition(&ConstantPreCondition(1.0f32));
    solver.solve_next_frame();
    // The field that is current now was zero-filled and never went through a
    // boundary pass: its edge is stale.
    assert_eq!(solver.get_field().get((0, 0)), 0.0);
    assert_eq!(solver.get_field().get((3, 2)), 0.0);
    // Its interior was computed from the other field after the boundary pass.
    assert_eq!(solver.get_field().get((1, 1)), 1.0 + 0.1 * (9.0 + 1.0 + 9.0 + 1.0 - 4.0 * 1.0));
    solver.solve_next_frame();
    // Back on the first field, whose edge was set during the first step.
    assert_eq!(solver.get_field().get((0, 0)), 9.0);
    assert_eq!(solver.get_field().get((3, 2)), 9.0);
}

#[test]
fn painted_cells_are_seen_by_the_next_step() {
    let conditions = BoundaryConditions::new(Neumann, Neumann, Neumann, Neumann);
    let mut solver = Solver::new(Heat, conditions, (5, 5), 0.25f32, 1.0);
    solver.get_field_mut().set((1, 1), 8.0);
    solver.get_field_mut().set((7, 7), 8.0);
    solver.solve_next_frame();
    let field = solver.get_field();
    // the edges above and left of the painted cell mirror it
    assert_eq!(field.get((1, 1)), 8.0 + 0.25 * (8.0 + 0.0 + 8.0 + 0.0 - 4.0 * 8.0));
    assert_eq!(field.get((2, 1)), 2.0);
    assert_eq!(field.get((1, 2)), 2.0);
    assert_eq!(field.get((2, 2)), 0.0);
}

#[test]
fn toggled_edge_changes_the_next_step() {
    let conditions = BoundaryConditions::new(
        SwitchableBoundaryCondition::new(Dirichlet(4.0f32), Neumann),
        Dirichlet(0.0),
        Dirichlet(0.0),
        Dirichlet(0.0),
    );
    let mut solver = Solver::new(Heat, conditions, (3, 3), 0.25f32, 1.0);
    solver.solve_next_frame();
    assert_eq!(solver.get_field().get((1, 1)), 1.0);
    solver.boundary_conditions.up.toggle();
    solver.solve_next_frame();
    // the upper edge now mirrors the centre cell, which holds 1.0
    assert_eq!(solver.get_field().get((1, 1)), 0.0 + 0.25 * (0.0 + 0.0 + 1.0 + 0.0 - 0.0));
}

#[test]
fn large_field_matches_a_plain_loop() {
    let (w, h) = (67, 41);
    let mut solver =
        Solver::new(Heat, BoundaryConditions::new(Neumann, Dirichlet(1.0), Neumann, Dirichlet(2.0)), (w, h), 0.1f32, 1.0);
    solver.execute_precondition(&Ramp);
    let mut expected: DataField<f32> = DataField::new((w, h));
    for y in 0..h {
        for x in 0..w {
            expected.set((x, y), (x + 100 * y) as f32);
        }
    }
    let mut other: DataField<f32> = DataField::new((w, h));
    for _ in 0..3 {
        for x in 0..w {
            let v = expected.get((x, 1));
            expected.set((x, 0), v);
            expected.set((x, h - 1), 1.0);
        }
        for y in 0..h {
            let v = expected.get((1, y));
            expected.set((0, y), v);
            expected.set((w - 1, y), 2.0);
        }
        for y in 1..h - 1 {
            for x in 1..w - 1 {
                let v = Heat.update(expected.stencil((x, y)), 0.1, 1.0);
                other.set((x, y), v);
            }
        }
        std::mem::swap(&mut expected, &mut other);
        solver.solve_next_frame();
        for y in 0..h {
            for x in 0..w {
                assert_eq!(solver.get_field().get((x, y)), expected.get((x, y)));
            }
        }
    }
}

#[test]
fn result_does_not_depend_on_the_number_of_threads() {
    let (w, h) = (23, 17);
    let mut reference: Vec<f32> = Vec::new();
    for threads in 1..9 {
        let conditions = BoundaryConditions::new(Neumann, Dirichlet(1.0), Neumann, Dirichlet(2.0));
        let mut solver = Solver::with_threads(Heat, conditions, (w, h), 0.1f32, 1.0, threads);
        solver.execute_precondition(&Ramp);
        for _ in 0..5 {
            solver.solve_next_frame();
        }
        let mut cells = Vec::new();
        for y in 0..h {
            for x in 0..w {
                cells.push(solver[(x, y)]);
            }
        }
        if threads == 1 {
            reference = cells;
        } else {
            assert_eq!(cells, reference);
        }
    }
    assert_eq!(reference.len(), w * h);
    assert!(reference.iter().any(|v| *v != 0.0));
}

#[test]
fn more_threads_than_cells_still_fill_the_field() {
    let mut solver = Solver::with_threads(Heat, fixed(1.0), (3, 3), 0.25f32, 1.0, 16);
    solver.execute_precondition(&ConstantPreCondition(4.0f32));
    for y in 0..3 {
        for x in 0..3 {
            assert_eq!(solver[(x, y)], 4.0);
        }
    }
    solver.solve_next_frame();
    assert_eq!(solver[(1, 1)], 4.0 + 0.25 * (1.0 + 1.0 + 1.0 + 1.0 - 16.0));
}

#[test]
fn field_of_two_rows_has_nothing_to_compute() {
    let mut solver = Solver::with_threads(Heat, fixed(7.0), (4, 2), 0.1f32, 1.0, 3);
    solver.execute_precondition(&ConstantPreCondition(1.0f32));
    solver.solve_next_frame();
    for y in 0..2 {
        for x in 0..4 {
            assert_eq!(solver[(x, y)], 0.0);
        }
    }
    solver.solve_next_frame();
    for y in 0..2 {
        for x in 0..4 {
            assert_eq!(solver[(x, y)], 7.0);
        }
    }
}

#[test]
fn phase_field_stays_bounded() {
    let equation = PhaseField { t: 0.9, gamma: 1.0, tau: 2.0, epsilon: 5.0, tm: 1.0, la: 0.5 };
    let mut solver = Solver::new(equation, fixed(0.0), (10, 10), 0.1f32, 1.0);
    solver.execute_precondition(&ConstantPreCondition(0.0f32));
    for _ in 0..1000 {
        solver.solve_next_frame();
    }
    for y in 0..10 {
        for x in 0..10 {
            let v = solver.get_field().get((x, y));
            assert!(v.is_finite());
            assert!(v.abs() <= 1.0);
        }
    }
}

#[test]
fn phase_field_step_has_three_terms() {
    let equation = PhaseField { t: 0.0, gamma: 1.0, tau: 1.0, epsilon: 1.0, tm: 1.0, la: 2.0 };
    // l = 2; laplacian term 2 * (3 + 3 + 3 + 3 - 8) = 8; double well term
    // 18 * (16 - 12 + 2) = 108; driving term 2 * 6 * 2 * (1 - 2) = -24
    let s = Stencil { center: 2.0f32, left: 3.0, right: 3.0, up: 3.0, down: 3.0 };
    assert_eq!(equation.update(s, 0.5, 1.0), 2.0 + 0.5 * (8.0 - 108.0 - 24.0));
    // at phase 1 the double well and the driving term vanish
    let s = Stencil { center: 1.0f32, left: 2.0, right: 3.0, up: 4.0, down: 5.0 };
    assert_eq!(equation.update(s, 0.5, 1.0), 11.0);
    // the spacing divides the laplacian term by its square
    assert_eq!(equation.update(s, 0.5, 2.0), 1.0 + 0.5 * 5.0);
}

#[test]
fn heat_step_reads_each_neighbour_once() {
    let mut solver = Solver::with_threads(Heat, fixed(0.0), (3, 3), 0.5f32, 2.0, 1);
    solver.get_field_mut().set((1, 1), 8.0);
    solver.solve_next_frame();
    // the edges are fixed at zero: 8 + 0.5 * (0 - 32) / 4
    assert_eq!(solver[(1, 1)], 4.0);
    let s = Stencil { center: 1.0f32, left: 2.0, right: 4.0, up: 8.0, down: 16.0 };
    assert_eq!(Heat.update(s, 0.5, 2.0), 1.0 + 0.5 * 26.0 / 4.0);
}

#[test]
fn phase_field_grows_a_seed() {
    let equation = PhaseField { t: 0.9, gamma: 1.0, tau: 2.0, epsilon: 5.0, tm: 1.0, la: 0.5 };
    let s = Stencil { center: 0.5f32, left: 0.5, right: 0.5, up: 0.5, down: 0.5 };
    // l = 0.05; laplacian 0; double well 0; driving term 0.05 / 5 * 6 * 0.5 * 0.5
    let next = equation.update(s, 0.1, 1.0);
    let expected = 0.5f32 + 0.1 / 2.0 * (0.0 - 0.0 + 0.5 * (1.0 - 0.9) / 1.0 / 5.0 * 6.0 * 0.5 * 0.5);
    assert!((next - expected).abs() < 1.0e-6);
    assert!(next > 0.5);
}
