use rusty_solver::boundary_condition::Dirichlet;
use rusty_solver::boundary_condition::Neumann;
use rusty_solver::boundary_condition::SwitchableBoundaryCondition;
use rusty_solver::BoundaryCondition;
use rusty_solver::BoundaryConditions;
use rusty_solver::DataField;

fn numbered(w: usize, h: usize) -> DataField<f32> {
    let mut field: DataField<f32> = DataField::new((w, h));
    for y in 0..h {
        for x in 0..w {
            field.set((x, y), (1 + x + 10 * y) as f32);
        }
    }
    field
}

#[test]
fn neumann_mirrors_the_neighbour() {
    for v in [0.0f32, -1.5, 3.25, 1.0e30] {
        assert_eq!(Neumann.calculate_boundary(v), v);
    }
}

#[test]
fn dirichlet_ignores_the_neighbour() {
    for v in [0.0f32, -1.5, 3.25, 1.0e30] {
        assert_eq!(Dirichlet(5.0f32).calculate_boundary(v), 5.0);
    }
}

#[test]
fn switchable_starts_with_the_first_condition() {
    let condition = SwitchableBoundaryCondition::new(Dirichlet(5.0f32), Neumann);
    assert_eq!(condition.calculate_boundary(2.0), 5.0);
}

#[test]
fn switchable_follows_the_parity_of_toggles() {
    let mut condition = SwitchableBoundaryCondition::new(Dirichlet(5.0f32), Neumann);
    for n in 1..8 {
        condition.toggle();
        let expected = if n % 2 == 1 { 2.0 } else { 5.0 };
        assert_eq!(condition.calculate_boundary(2.0), expected);
    }
}

#[test]
fn fixed_left_edge_fills_the_first_column() {
    let mut field = numbered(4, 4);
    let conditions = BoundaryConditions::new(Neumann, Neumann, Dirichlet(5.0f32), Neumann);
    conditions.calculate_boundaries(&mut field);
    for y in 0..4 {
        assert_eq!(field.get((0, y)), 5.0);
    }
}

#[test]
fn mirrored_right_edge_equals_the_column_beside_it() {
    let mut field = numbered(4, 4);
    let conditions =
        BoundaryConditions::new(Dirichlet(-1.0f32), Dirichlet(-2.0), Dirichlet(5.0), Neumann);
    conditions.calculate_boundaries(&mut field);
    for y in 0..4 {
        assert_eq!(field.get((3, y)), field.get((2, y)));
    }
    assert_eq!(field.get((3, 0)), -1.0);
    assert_eq!(field.get((3, 3)), -2.0);
    assert_eq!(field.get((3, 1)), 13.0);
}

#[test]
fn columns_are_set_after_rows_and_decide_the_corners() {
    let mut field = numbered(4, 3);
    let conditions =
        BoundaryConditions::new(Dirichlet(100.0f32), Dirichlet(200.0), Neumann, Dirichlet(400.0));
    conditions.calculate_boundaries(&mut field);
    // first and last row, away from the corners
    assert_eq!(field.get((1, 0)), 100.0);
    assert_eq!(field.get((2, 0)), 100.0);
    assert_eq!(field.get((1, 2)), 200.0);
    assert_eq!(field.get((2, 2)), 200.0);
    // the left corners mirror the row values set just before
    assert_eq!(field.get((0, 0)), 100.0);
    assert_eq!(field.get((0, 2)), 200.0);
    assert_eq!(field.get((0, 1)), 12.0);
    // the right corners take the value of the right edge
    assert_eq!(field.get((3, 0)), 400.0);
    assert_eq!(field.get((3, 1)), 400.0);
    assert_eq!(field.get((3, 2)), 400.0);
    // the interior is untouched
    assert_eq!(field.get((1, 1)), 12.0);
    assert_eq!(field.get((2, 1)), 13.0);
}

#[test]
fn mirror_reads_the_neighbour_one_step_inward() {
    let mut field = numbered(4, 4);
    let conditions = BoundaryConditions::new(Neumann, Neumann, Neumann, Neumann);
    conditions.calculate_boundaries(&mut field);
    assert_eq!(field.get((1, 0)), 12.0);
    assert_eq!(field.get((2, 3)), 23.0);
    assert_eq!(field.get((0, 1)), 12.0);
    assert_eq!(field.get((3, 2)), 23.0);
    assert_eq!(field.get((0, 0)), 12.0);
    assert_eq!(field.get((3, 3)), 23.0);
}

#[test]
fn two_by_two_field_follows_the_order_of_writes() {
    let mut field = numbered(2, 2);
    // cells: (0,0)=1 (1,0)=2 (0,1)=11 (1,1)=12
    let conditions = BoundaryConditions::new(Neumann, Neumann, Neumann, Neumann);
    conditions.calculate_boundaries(&mut field);
    // rows: (x,0) <- (x,1), then (x,1) <- (x,0); columns: (0,y) <- (1,y), then (1,y) <- (0,y)
    assert_eq!(field.get((0, 0)), 12.0);
    assert_eq!(field.get((1, 0)), 12.0);
    assert_eq!(field.get((0, 1)), 12.0);
    assert_eq!(field.get((1, 1)), 12.0);
}
