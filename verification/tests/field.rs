use rusty_solver::DataField;

fn ceil_div(a: usize, b: usize) -> usize {
    (a + b - 1) / b
}

#[test]
fn new_field_is_zero_filled() {
    let field: DataField<f32> = DataField::new((4, 3));
    assert_eq!(field.dimensions(), (4, 3));
    for y in 0..3 {
        for x in 0..4 {
            assert_eq!(field.get((x, y)), 0.0);
        }
    }
}

#[test]
fn new_field_may_be_empty() {
    let field: DataField<f32> = DataField::new((0, 7));
    assert_eq!(field.dimensions(), (0, 7));
    assert!(!field.contains((0, 0)));
    assert!(field.iter_mut().next().is_none());
    assert!(field.chunks_mut(3).next().is_none());
    assert!(field.chunks_inner_mut(3).next().is_none());
}

#[test]
fn contains_tests_both_coordinates() {
    let field: DataField<f32> = DataField::new((4, 3));
    assert!(field.contains((0, 0)));
    assert!(field.contains((3, 2)));
    assert!(!field.contains((4, 2)));
    assert!(!field.contains((3, 3)));
    assert!(!field.contains((usize::MAX, 0)));
}

#[test]
fn set_stores_in_row_major_order() {
    let mut field: DataField<f32> = DataField::new((4, 3));
    field.set((1, 2), 7.5);
    assert_eq!(field.get((1, 2)), 7.5);
    let mut cells = field.iter_mut();
    let mut seen = Vec::new();
    while let Some((coord, offset)) = cells.next() {
        if field.get(coord) == 7.5 {
            seen.push(offset);
        }
    }
    assert_eq!(seen, vec![1 + 4 * 2]);
}

#[test]
fn set_ignores_cells_outside() {
    let mut field: DataField<f32> = DataField::new((4, 3));
    field.set((4, 0), 1.0);
    field.set((0, 3), 1.0);
    field.set((usize::MAX, usize::MAX), 1.0);
    for y in 0..3 {
        for x in 0..4 {
            assert_eq!(field.get((x, y)), 0.0);
        }
    }
}

#[test]
fn stencil_reads_the_four_neighbours() {
    let mut field: DataField<f32> = DataField::new((3, 3));
    for y in 0..3 {
        for x in 0..3 {
            field.set((x, y), (x + 10 * y) as f32);
        }
    }
    let stencil = field.stencil((1, 1));
    assert_eq!(stencil.center, 11.0);
    assert_eq!(stencil.left, 10.0);
    assert_eq!(stencil.right, 12.0);
    assert_eq!(stencil.up, 1.0);
    assert_eq!(stencil.down, 21.0);
}

#[test]
fn index_reads_the_cell_at_a_coordinate() {
    let mut field: DataField<f32> = DataField::new((3, 2));
    field.set((2, 1), 4.5);
    assert_eq!(field[(2, 1)], 4.5);
    assert_eq!(field[(1, 1)], 0.0);
}

#[test]
fn iter_mut_walks_rows_in_order() {
    let field: DataField<f32> = DataField::new((3, 2));
    let mut cells = field.iter_mut();
    let mut seen = Vec::new();
    while let Some(item) = cells.next() {
        seen.push(item);
    }
    assert_eq!(
        seen,
        vec![((0, 0), 0), ((1, 0), 1), ((2, 0), 2), ((0, 1), 3), ((1, 1), 4), ((2, 1), 5)]
    );
    assert!(cells.next().is_none());
}

#[test]
fn iter_inner_mut_skips_the_ring() {
    let field: DataField<f32> = DataField::new((4, 4));
    let mut cells = field.iter_inner_mut();
    let mut seen = Vec::new();
    while let Some(item) = cells.next() {
        seen.push(item);
    }
    assert_eq!(seen, vec![((1, 1), 5), ((2, 1), 6), ((1, 2), 9), ((2, 2), 10)]);
}

#[test]
fn iter_inner_mut_of_a_field_without_interior_is_empty() {
    for (w, h) in [(0, 0), (1, 5), (2, 5), (5, 1), (5, 2), (2, 2)] {
        let field: DataField<f32> = DataField::new((w, h));
        assert!(field.iter_inner_mut().next().is_none());
        assert!(field.chunks_inner_mut(2).next().is_none());
    }
}

#[test]
fn chunks_mut_cover_every_cell_once() {
    for w in 1..7 {
        for h in 1..6 {
            let field: DataField<f32> = DataField::new((w, h));
            for count in 1..(w * h + 3) {
                let mut hits = vec![0usize; w * h];
                let mut chunks = field.chunks_mut(count);
                let mut produced = 0;
                let mut next_offset = 0;
                while let Some(mut cells) = chunks.next() {
                    produced += 1;
                    let mut len = 0;
                    while let Some(((x, y), offset)) = cells.next() {
                        assert!(x < w && y < h);
                        assert_eq!(offset, x + w * y);
                        assert_eq!(offset, next_offset);
                        next_offset += 1;
                        hits[offset] += 1;
                        len += 1;
                    }
                    let size = ceil_div(w * h, count);
                    assert!(len == size || (len < size && next_offset == w * h));
                    assert!(len >= 1);
                }
                assert!(produced <= count);
                assert_eq!(produced, ceil_div(w * h, ceil_div(w * h, count)));
                assert!(hits.iter().all(|n| *n == 1));
            }
        }
    }
}

#[test]
fn chunks_inner_mut_cover_every_interior_cell_once() {
    for w in 3..8 {
        for h in 3..7 {
            let field: DataField<f32> = DataField::new((w, h));
            for count in 1..(w * h + 3) {
                let mut hits = vec![0usize; w * h];
                let mut chunks = field.chunks_inner_mut(count);
                let mut produced = 0;
                let mut last = 0;
                while let Some(mut cells) = chunks.next() {
                    produced += 1;
                    while let Some(((x, y), offset)) = cells.next() {
                        assert!(1 <= x && x + 1 < w && 1 <= y && y + 1 < h);
                        assert_eq!(offset, x + w * y);
                        assert!(offset > last);
                        last = offset;
                        hits[offset] += 1;
                    }
                }
                assert!(produced <= count);
                assert_eq!(produced, ceil_div(w * (h - 2), ceil_div(w * (h - 2), count)));
                for y in 0..h {
                    for x in 0..w {
                        let inner = 1 <= x && x + 1 < w && 1 <= y && y + 1 < h;
                        assert_eq!(hits[x + w * y], if inner { 1 } else { 0 });
                    }
                }
            }
        }
    }
}

#[test]
fn chunk_that_starts_on_the_last_column_keeps_its_labels() {
    // Rows of 5 cells cut every 4 offsets: the second chunk starts at offset
    // 9, the last cell of the second row.
    let field: DataField<f32> = DataField::new((5, 5));
    let mut chunks = field.chunks_inner_mut(4);
    let mut first = chunks.next().unwrap();
    assert_eq!(first.next(), Some(((1, 1), 6)));
    assert_eq!(first.next(), Some(((2, 1), 7)));
    assert_eq!(first.next(), Some(((3, 1), 8)));
    assert_eq!(first.next(), None);
    let mut second = chunks.next().unwrap();
    assert_eq!(second.next(), Some(((1, 2), 11)));
    assert_eq!(second.next(), Some(((2, 2), 12)));
    assert_eq!(second.next(), None);
    let mut third = chunks.next().unwrap();
    assert_eq!(third.next(), Some(((3, 2), 13)));
    assert_eq!(third.next(), Some(((1, 3), 16)));
    assert_eq!(third.next(), None);
    let mut fourth = chunks.next().unwrap();
    assert_eq!(fourth.next(), Some(((2, 3), 17)));
    assert_eq!(fourth.next(), Some(((3, 3), 18)));
    assert_eq!(fourth.next(), None);
    assert!(chunks.next().is_none());
}

#[test]
fn chunk_size_is_the_rounded_up_quotient() {
    let field: DataField<f32> = DataField::new((5, 2));
    let mut chunks = field.chunks_mut(3);
    let mut lens = Vec::new();
    while let Some(mut cells) = chunks.next() {
        let mut len = 0;
        while cells.next().is_some() {
            len += 1;
        }
        lens.push(len);
    }
    assert_eq!(lens, vec![4, 4, 2]);
}

#[test]
fn more_workers_than_cells_get_one_cell_each() {
    let field: DataField<f32> = DataField::new((2, 2));
    let mut chunks = field.chunks_mut(9);
    let mut lens = Vec::new();
    while let Some(mut cells) = chunks.next() {
        let mut len = 0;
        while cells.next().is_some() {
            len += 1;
        }
        lens.push(len);
    }
    assert_eq!(lens, vec![1, 1, 1, 1]);
}

#[test]
fn no_workers_means_one_chunk() {
    let field: DataField<f32> = DataField::new((3, 3));
    let mut chunks = field.chunks_mut(0);
    let mut cells = chunks.next().unwrap();
    let mut len = 0;
    while cells.next().is_some() {
        len += 1;
    }
    assert_eq!(len, 9);
    assert!(chunks.next().is_none());
    let mut inner = field.chunks_inner_mut(0);
    let mut cells = inner.next().unwrap();
    assert_eq!(cells.next(), Some(((1, 1), 4)));
    assert_eq!(cells.next(), None);
    assert!(inner.next().is_none());
}
