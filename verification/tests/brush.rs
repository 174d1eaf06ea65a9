use rusty_solver::brush::draw_cube;
use rusty_solver::brush::draw_neumann_rectangle;
use rusty_solver::DataField;

fn numbered(w: usize, h: usize) -> DataField<f32> {
    let mut field: DataField<f32> = DataField::new((w, h));
    for y in 0..h {
        for x in 0..w {
            field.set((x, y), (1 + x + 100 * y) as f32);
        }
    }
    field
}

#[test]
fn cube_covers_ten_by_ten_cells() {
    let mut field: DataField<f32> = DataField::new((30, 30));
    draw_cube(&mut field, (15, 12), 7.0);
    for y in 0..30isize {
        for x in 0..30isize {
            let inside = 10 <= x && x < 20 && 7 <= y && y < 17;
            let expected = if inside { 7.0 } else { 0.0 };
            assert_eq!(field[(x as usize, y as usize)], expected);
        }
    }
}

#[test]
fn cube_is_clipped_at_the_edges() {
    let mut field: DataField<f32> = DataField::new((8, 8));
    draw_cube(&mut field, (0, 0), 1.0);
    draw_cube(&mut field, (9, 9), 2.0);
    draw_cube(&mut field, (-5, 3), 3.0);
    draw_cube(&mut field, (100, 100), 4.0);
    for y in 0..8 {
        for x in 0..8 {
            let expected = if x >= 4 && y >= 4 {
                2.0
            } else if x < 5 && y < 5 {
                1.0
            } else {
                0.0
            };
            assert_eq!(field[(x, y)], expected);
        }
    }
}

#[test]
fn rectangle_sides_mirror_the_cells_outside() {
    let mut field = numbered(10, 10);
    draw_neumann_rectangle(&mut field, (3, 2), (4, 5));
    let plain = numbered(10, 10);
    for y in 0..10 {
        for x in 0..10 {
            let inside = 3 <= x && x < 7 && 2 <= y && y < 7;
            let expected = if !inside {
                plain[(x, y)]
            } else if y == 6 {
                plain[(x, 7)]
            } else if y == 2 {
                plain[(x, 1)]
            } else if x == 6 {
                plain[(7, y)]
            } else if x == 3 {
                plain[(2, y)]
            } else {
                plain[(x, y)]
            };
            assert_eq!(field[(x, y)], expected);
        }
    }
}

#[test]
fn rectangle_of_one_cell_mirrors_the_cell_below() {
    let mut field = numbered(5, 5);
    draw_neumann_rectangle(&mut field, (2, 2), (1, 1));
    assert_eq!(field[(2, 2)], (1 + 2 + 100 * 3) as f32);
    assert_eq!(field[(1, 2)], (1 + 1 + 100 * 2) as f32);
    assert_eq!(field[(2, 1)], (1 + 2 + 100 * 1) as f32);
}

#[test]
fn rectangle_of_one_row_takes_the_ends_from_the_row_below() {
    let mut field = numbered(6, 5);
    draw_neumann_rectangle(&mut field, (1, 2), (3, 1));
    for x in 1..4 {
        assert_eq!(field[(x, 2)], (1 + x + 100 * 3) as f32);
    }
    assert_eq!(field[(0, 2)], 201.0);
    assert_eq!(field[(4, 2)], 205.0);
}
