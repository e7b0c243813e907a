use ndgrid::{false_index, Grid, IndexError};

#[test]
fn new_grid() {
    let grid = Grid::new("default_value", vec![5, 5]);
    // Test grid size
    assert_eq!(grid.as_slice().len(), 25);
    // Test default values
    for i in grid.as_slice().iter() {
        assert_eq!(*i, "default_value");
    }
}

#[test]
fn translate_index() {
    // 2d grid (10x10)
    let mut grid = Grid::new(0, vec![10, 10]);

    grid.set(&[5, 9], 5).unwrap();
    grid.set(&[0, 5], 32).unwrap();
    grid.set(&[5, 0], 25).unwrap();
    grid.set(&[9, 9], 56).unwrap();
    grid.set(&[0, 0], 7).unwrap();

    assert_eq!(grid.as_slice()[59], 5);
    assert_eq!(grid.as_slice()[5], 32);
    assert_eq!(grid.as_slice()[50], 25);
    assert_eq!(grid.as_slice()[99], 56);
    assert_eq!(grid.as_slice()[0], 7);

    // 3d grid (10x10x10)
    let mut grid = Grid::new(0, vec![10, 10, 10]);

    grid.set(&[3, 7, 6], 12).unwrap();
    grid.set(&[0, 4, 3], 23).unwrap();
    grid.set(&[5, 0, 7], 32).unwrap();
    grid.set(&[4, 6, 0], 63).unwrap();
    grid.set(&[9, 9, 9], 87).unwrap();
    grid.set(&[0, 0, 0], 34).unwrap();

    assert_eq!(grid.as_slice()[376], 12);
    assert_eq!(grid.as_slice()[43], 23);
    assert_eq!(grid.as_slice()[507], 32);
    assert_eq!(grid.as_slice()[460], 63);
    assert_eq!(grid.as_slice()[999], 87);
    assert_eq!(grid.as_slice()[0], 34);

    // 4d grid (10x10x10x10)
    let mut grid = Grid::new(0, vec![10, 10, 10, 10]);

    grid.set(&[5, 3, 7, 9], 20).unwrap();
    grid.set(&[9, 9, 9, 9], 24).unwrap();
    grid.set(&[0, 0, 0, 0], 10).unwrap();

    assert_eq!(grid.as_slice()[5379], 20);
    assert_eq!(grid.as_slice()[9999], 24);
    assert_eq!(grid.as_slice()[0], 10);

    // Test default values
    assert_eq!(grid.as_slice()[8654], 0);
    assert_eq!(grid.as_slice()[23], 0);
}

#[test]
fn into_iterator() {
    let mut grid = Grid::new(0, vec![10, 10]);

    let mut cells = grid.iter_mut();
    while let Some(i) = cells.next() {
        println!("{i}");
        *i += 1;
    }
}

#[test]
fn iter_mut_touches_every_cell_once() {
    let mut grid = Grid::new(0, vec![10, 10]);
    let mut cells = grid.iter_mut();
    let mut n: usize = 0;
    while let Some(i) = cells.next() {
        *i += n;
        n += 1;
    }
    assert_eq!(n, 100);
    for (k, v) in grid.as_slice().iter().enumerate() {
        assert_eq!(*v, k);
    }
}

#[test]
fn new_fills_every_cell_and_sizes_buffer() {
    let grid = Grid::new(3u8, vec![2, 3, 4]);
    assert_eq!(grid.as_slice().len(), 24);
    assert!(grid.as_slice().iter().all(|v| *v == 3));
    assert_eq!(grid.dimensions(), &[2, 3, 4]);
}

#[test]
fn new_with_zero_extent_is_empty() {
    let grid = Grid::new(1u32, vec![3, 0, 5]);
    assert_eq!(grid.as_slice().len(), 0);
    assert_eq!(
        grid.get(&[0, 0, 0]),
        Err(IndexError::OutOfBounds { offset: 0, size: 0 })
    );
}

#[test]
fn new_with_huge_extent_before_zero_is_empty() {
    let grid = Grid::new(1u8, vec![usize::MAX, usize::MAX, 0]);
    assert_eq!(grid.as_slice().len(), 0);
}

#[test]
fn new_with_no_axes_holds_one_cell() {
    let grid = Grid::new(7i64, vec![]);
    assert_eq!(grid.as_slice().len(), 1);
    assert_eq!(grid.get(&[]), Ok(&7));
}

#[test]
fn translate_index_exact_offsets() {
    let grid = Grid::new(0, vec![10, 10]);
    assert_eq!(grid.translate_index(&[5, 9]), Ok(59));
    assert_eq!(grid.translate_index(&[0, 0]), Ok(0));
    let grid = Grid::new(0, vec![2, 3, 4]);
    assert_eq!(grid.translate_index(&[1, 2, 3]), Ok(23));
    assert_eq!(grid.translate_index(&[1, 0, 0]), Ok(12));
}

#[test]
fn translate_index_steps_by_one_and_carries() {
    let grid = Grid::new(0, vec![3, 4, 5]);
    let mut expected: usize = 0;
    for a in 0..3 {
        for b in 0..4 {
            for c in 0..5 {
                assert_eq!(grid.translate_index(&[a, b, c]), Ok(expected));
                expected += 1;
            }
        }
    }
}

#[test]
fn wrong_arity_is_dimension_mismatch() {
    let mut grid = Grid::new(0, vec![10, 10]);
    let err = IndexError::DimensionMismatch { got: 3, expected: 2 };
    assert_eq!(grid.get(&[1, 2, 3]), Err(err));
    assert_eq!(grid.set(&[1, 2, 3], 4), Err(err));
    assert!(matches!(grid.get_mut(&[1, 2, 3]), Err(e) if e == err));
    assert_eq!(
        grid.get(&[1]),
        Err(IndexError::DimensionMismatch { got: 1, expected: 2 })
    );
    assert!(grid.as_slice().iter().all(|v| *v == 0));
}

#[test]
fn offset_past_end_is_out_of_bounds() {
    let mut grid = Grid::new(0, vec![10, 10]);
    let err = IndexError::OutOfBounds { offset: 100, size: 100 };
    assert_eq!(grid.get(&[10, 0]), Err(err));
    assert_eq!(grid.set(&[10, 0], 1), Err(err));
    assert!(matches!(grid.get_mut(&[10, 0]), Err(e) if e == err));
    assert!(grid.as_slice().iter().all(|v| *v == 0));
}

#[test]
fn overflowing_offset_is_clamped() {
    let grid = Grid::new(0, vec![10, 10]);
    assert_eq!(
        grid.translate_index(&[usize::MAX, usize::MAX]),
        Err(IndexError::OutOfBounds { offset: usize::MAX, size: 100 })
    );
}

#[test]
fn coarse_bound_accepts_overlong_last_coordinate() {
    let grid = Grid::new(0, vec![10, 10]);
    assert_eq!(grid.translate_index(&[0, 15]), Ok(15));
}

#[test]
fn set_then_get_returns_written_value() {
    let mut grid = Grid::new(0, vec![4, 5]);
    grid.set(&[2, 3], 42).unwrap();
    assert_eq!(grid.get(&[2, 3]), Ok(&42));
    assert_eq!(grid.get(&[3, 2]), Ok(&0));
}

#[test]
fn get_mut_writes_the_addressed_cell() {
    let mut grid = Grid::new(0, vec![3, 3]);
    *grid.get_mut(&[1, 2]).unwrap() = 9;
    assert_eq!(grid.as_slice()[5], 9);
    assert_eq!(grid.as_slice().iter().filter(|v| **v == 9).count(), 1);
}

#[test]
fn false_index_inverts_translation() {
    assert_eq!(false_index(376, &[10, 10, 10]), vec![3, 7, 6]);
    assert_eq!(false_index(5379, &[10, 10, 10, 10]), vec![5, 3, 7, 9]);
    assert_eq!(false_index(23, &[2, 3, 4]), vec![1, 2, 3]);
    assert_eq!(false_index(0, &[]), Vec::<usize>::new());
    let grid = Grid::new(0, vec![2, 3, 4]);
    for a in 0..2 {
        for b in 0..3 {
            for c in 0..4 {
                let off = grid.translate_index(&[a, b, c]).unwrap();
                assert_eq!(false_index(off, &[2, 3, 4]), vec![a, b, c]);
            }
        }
    }
}

#[test]
fn iter_yields_every_cell_in_buffer_order() {
    let mut grid = Grid::new(0, vec![3, 4]);
    for k in 0..12usize {
        grid.set(&[k / 4, k % 4], k).unwrap();
    }
    let mut cells = grid.iter();
    let mut n: usize = 0;
    while let Some(v) = cells.next() {
        assert_eq!(*v, grid.as_slice()[n]);
        n += 1;
    }
    assert_eq!(n, 12);
    assert_eq!(cells.next(), None);
}

#[test]
fn position_finds_first_match() {
    let mut grid = Grid::new(0, vec![3, 4]);
    grid.set(&[1, 2], 5).unwrap();
    grid.set(&[2, 0], 5).unwrap();
    let mut cells = grid.iter();
    assert_eq!(cells.position(|v| *v == 5), Some(vec![1, 2]));
    assert_eq!(cells.position(|v| *v == 5), Some(vec![2, 0]));
    assert_eq!(cells.position(|v| *v == 5), None);
    assert_eq!(cells.next(), None);
}

#[test]
fn enumerate_pairs_multi_index_with_cell() {
    let mut grid = Grid::new(0, vec![2, 3]);
    grid.set(&[1, 1], 8).unwrap();
    let pairs = grid.iter().enumerate();
    assert_eq!(pairs.len(), 6);
    assert_eq!(pairs[0].0, vec![0, 0]);
    assert_eq!(pairs[2].0, vec![0, 2]);
    assert_eq!(pairs[3].0, vec![1, 0]);
    assert_eq!(pairs[4], (vec![1, 1], &8));
    let mut rest = grid.iter();
    rest.next();
    rest.next();
    let pairs = rest.enumerate();
    assert_eq!(pairs.len(), 4);
    assert_eq!(pairs[0].0, vec![0, 2]);
}
