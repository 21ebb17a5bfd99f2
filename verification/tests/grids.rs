use tile_workspace::error::StoreError;
use tile_workspace::grid::Grid;

#[test]
fn new_fills_every_cell() {
    let g = Grid::new(3, 2, 7u64);
    assert_eq!(g.width(), 3);
    assert_eq!(g.height(), 2);
    assert_eq!(g.len(), 6);
    for y in 0..2 {
        for x in 0..3 {
            assert_eq!(g.get(x, y), Ok(7));
        }
    }
    assert_eq!(g.cells(), &[7, 7, 7, 7, 7, 7]);
}

#[test]
fn get_and_set_are_bounds_checked() {
    let mut g = Grid::new(3, 2, 0i32);
    assert_eq!(g.get(3, 0), Err(StoreError::OutOfBounds));
    assert_eq!(g.get(0, 2), Err(StoreError::OutOfBounds));
    assert_eq!(g.get(u32::MAX, u32::MAX), Err(StoreError::OutOfBounds));
    assert_eq!(g.set(3, 1, 5), Err(StoreError::OutOfBounds));
    assert_eq!(g.set(2, 2, 5), Err(StoreError::OutOfBounds));
    assert_eq!(g.cells(), &[0, 0, 0, 0, 0, 0]);
    assert_eq!(g.set(2, 1, 5), Ok(()));
    assert_eq!(g.get(2, 1), Ok(5));
    assert_eq!(g.cells(), &[0, 0, 0, 0, 0, 5]);
}

#[test]
fn set_changes_one_cell_in_row_major_storage() {
    let mut g = Grid::new(3, 2, 0u8);
    g.set(1, 0, 10).unwrap();
    g.set(0, 1, 20).unwrap();
    assert_eq!(g.cells(), &[0, 10, 0, 20, 0, 0]);
}

#[test]
fn iteration_is_row_major() {
    let mut g = Grid::new(2, 2, 0u64);
    g.set(0, 0, 1).unwrap();
    g.set(1, 0, 2).unwrap();
    g.set(0, 1, 3).unwrap();
    g.set(1, 1, 4).unwrap();
    let mut cursor = g.iter();
    assert_eq!(cursor.next(), Some((0, 0, 1)));
    assert_eq!(cursor.next(), Some((1, 0, 2)));
    assert_eq!(cursor.next(), Some((0, 1, 3)));
    assert_eq!(cursor.next(), Some((1, 1, 4)));
    assert_eq!(cursor.next(), None);
    assert_eq!(cursor.next(), None);
    assert_eq!(g.triples(), vec![(0, 0, 1), (1, 0, 2), (0, 1, 3), (1, 1, 4)]);
}

#[test]
fn iteration_can_be_started_again() {
    let g = Grid::from_cells(3, 1, vec![5u16, 6, 7]).unwrap();
    let mut first = g.iter();
    assert_eq!(first.next(), Some((0, 0, 5)));
    let mut second = g.iter();
    assert_eq!(second.next(), Some((0, 0, 5)));
    assert_eq!(first.next(), Some((1, 0, 6)));
    assert_eq!(g.triples(), g.triples());
}

#[test]
fn iteration_over_a_tall_grid() {
    let g = Grid::from_cells(1, 3, vec![5u16, 6, 7]).unwrap();
    assert_eq!(g.triples(), vec![(0, 0, 5), (0, 1, 6), (0, 2, 7)]);
}

#[test]
fn a_grid_without_cells_yields_nothing() {
    for (w, h) in [(0, 0), (0, 5), (5, 0)] {
        let g = Grid::new(w, h, 1u64);
        assert_eq!(g.len(), 0);
        assert_eq!(g.iter().next(), None);
        assert!(g.triples().is_empty());
        assert_eq!(g.get(0, 0), Err(StoreError::OutOfBounds));
    }
}

#[test]
fn from_cells_wants_width_times_height_cells() {
    assert_eq!(Grid::from_cells(2, 2, vec![1u8, 2, 3]), Err(StoreError::OutOfBounds));
    assert_eq!(Grid::from_cells(2, 2, vec![1u8, 2, 3, 4, 5]), Err(StoreError::OutOfBounds));
    let g = Grid::from_cells(2, 2, vec![1u8, 2, 3, 4]).unwrap();
    assert_eq!(g.get(1, 0), Ok(2));
    assert_eq!(g.get(0, 1), Ok(3));
    assert!(Grid::from_cells(0, 7, Vec::<u8>::new()).is_ok());
}

#[test]
fn the_slot_of_a_coordinate_is_row_times_width_plus_column() {
    let cells: Vec<u32> = (0..12).collect();
    let g = Grid::from_cells(4, 3, cells).unwrap();
    for y in 0..3u32 {
        for x in 0..4u32 {
            assert_eq!(g.get(x, y), Ok(y * 4 + x));
        }
    }
}
