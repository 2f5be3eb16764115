use deskthing::grid::Grid;

fn test_cells() -> Vec<i32> {
    Vec::from([1, 2, 3, 4, 5, 6])
}

fn test_grid() -> Grid<i32> {
    Grid::new(test_cells(), 2, 3)
}

#[test]
fn grid_length_matches_cell_dimensions() {
    let grid = test_grid();
    assert_eq!(6, grid.size());
    assert_eq!(6, grid.iter().len());
}

#[test]
fn grid_indexes_correctly() {
    let grid = Grid::new(test_cells(), 2, 3);
    assert_eq!(Some(0), grid.index(0, 0));
    assert_eq!(Some(1), grid.index(1, 0));
    assert_eq!(Some(2), grid.index(0, 1));
    assert_eq!(Some(5), grid.index(1, 2));

    let grid = Grid::new(test_cells(), 3, 2);
    assert_eq!(Some(0), grid.index(0, 0));
    assert_eq!(Some(1), grid.index(1, 0));
    assert_eq!(Some(2), grid.index(2, 0));
    assert_eq!(Some(5), grid.index(2, 1));
}

#[test]
fn grid_coords_outside_bounds_are_not_indexed() {
    let grid = Grid::new(test_cells(), 2, 3);
    assert_eq!(None, grid.index(-1, 0));
    assert_eq!(None, grid.index(-1, 1));
    assert_eq!(None, grid.index(-1, 2));
    assert_eq!(None, grid.index(3, 0));
    assert_eq!(None, grid.index(0, 4));
    assert_eq!(None, grid.index(1, 4));
}

#[test]
fn into_iter_matches_values() {
    let grid = Grid::new(test_cells(), 2, 3);
    assert!(test_cells().iter().copied().eq(grid.into_iter()))
}

#[test]
fn iter_matches_values() {
    let grid = Grid::new(test_cells(), 2, 3);
    assert!(test_cells().iter().eq(grid.iter()))
}

#[test]
fn neighbourhood_coords() {
    let grid = Grid::new(test_cells(), 2, 3);
    let mut neighbours = grid.get_neighbourhood_coords(1, 0, 1).into_iter();
    assert_eq!(Some((0, -1)), neighbours.next());
    assert_eq!(Some((0, 0)), neighbours.next());
    assert_eq!(Some((0, 1)), neighbours.next());
    assert_eq!(Some((1, -1)), neighbours.next());
    assert_eq!(Some((1, 0)), neighbours.next()); // self is included
    assert_eq!(Some((1, 1)), neighbours.next());
    assert_eq!(Some((2, -1)), neighbours.next());
    assert_eq!(Some((2, 0)), neighbours.next());
    assert_eq!(Some((2, 1)), neighbours.next());
    assert_eq!(None, neighbours.next());
}

#[test]
fn resizing_smaller_keeps_length_and_dimensions_in_step() {
    let mut grid: Grid<i32> = Grid::with_defaults(4, 4);
    grid.resize_with_defaults(2, 2);

    assert_eq!(2, grid.columns());
    assert_eq!(2, grid.rows());
    assert_eq!(4, grid.size());
    assert_eq!(4, grid.iter().len());
}

#[test]
fn resizing_larger_keeps_length_and_dimensions_in_step() {
    let mut grid: Grid<i32> = Grid::with_defaults(2, 2);
    grid.resize_with_defaults(4, 5);

    assert_eq!(20, grid.size());
    assert_eq!(20, grid.iter().len());
}

#[test]
fn resizing_to_the_same_dimensions_is_a_no_op() {
    let mut grid = Grid::new(test_cells(), 2, 3);
    grid.resize_with_defaults(2, 3);

    assert!(test_cells().iter().eq(grid.iter()));
}

#[test]
fn a_resized_grid_can_still_be_indexed_everywhere() {
    let mut grid: Grid<i32> = Grid::with_defaults(4, 4);
    grid.resize_with_defaults(3, 2);

    for row in 0..2 {
        for column in 0..3 {
            assert!(
                grid.get(column, row).is_some(),
                "({column}, {row}) unreachable after resize"
            );
        }
    }
    assert_eq!(None, grid.get(3, 0));
    assert_eq!(None, grid.get(0, 2));
}

#[test]
fn get_reads_row_major() {
    let grid = test_grid();
    assert_eq!(Some(&1), grid.get(0, 0));
    assert_eq!(Some(&2), grid.get(1, 0));
    assert_eq!(Some(&3), grid.get(0, 1));
    assert_eq!(Some(&6), grid.get(1, 2));
    assert_eq!(None, grid.get(2, 0));
    assert_eq!(None, grid.get(0, -1));
}

#[test]
fn a_write_through_get_mut_is_read_back_by_get() {
    let mut grid = test_grid();
    *grid.get_mut(1, 1).unwrap() = 40;

    assert_eq!(Some(&40), grid.get(1, 1));
    assert_eq!(Some(&40), grid.get_by_index(3));
    assert!(grid.get_mut(2, 1).is_none());
}

#[test]
fn get_by_index_reaches_every_cell_and_no_further() {
    let mut grid = test_grid();
    assert_eq!(Some(&5), grid.get_by_index(4));
    assert_eq!(None, grid.get_by_index(6));

    *grid.get_mut_by_index(0).unwrap() = -1;
    assert_eq!(Some(&-1), grid.get(0, 0));
    assert!(grid.get_mut_by_index(6).is_none());
}

#[test]
fn resizing_keeps_the_leading_cells_and_defaults_the_rest() {
    let mut grid = test_grid();
    grid.resize_with_defaults(3, 3);

    assert_eq!(vec![1, 2, 3, 4, 5, 6, 0, 0, 0], grid.iter().to_vec());
}

#[test]
fn a_generated_grid_is_row_major() {
    let grid = Grid::from_generator(3, 2, |x, y| x * 10 + y);

    assert_eq!(vec![0, 10, 20, 1, 11, 21], grid.iter().to_vec());
    assert_eq!(Some(&21), grid.get(2, 1));
}

#[test]
fn a_stateful_generator_is_called_row_by_row() {
    let mut calls = 0;
    let grid = Grid::from_generator_mut(2, 2, |_, _| {
        calls += 1;
        calls
    });

    assert_eq!(vec![1, 2, 3, 4], grid.iter().to_vec());
}

#[test]
fn the_neighbourhood_includes_the_cell_and_clips_at_the_edge() {
    let grid = test_grid();

    let around_corner: Vec<i32> = grid.get_neighbourhood(0, 0, 1).into_iter().copied().collect();
    assert_eq!(vec![1, 3, 2, 4], around_corner);

    let around_middle: Vec<i32> = grid.get_neighbourhood(1, 1, 1).into_iter().copied().collect();
    assert_eq!(vec![1, 3, 5, 2, 4, 6], around_middle);
}

#[test]
fn neighbours_leave_the_cell_itself_out() {
    let grid = test_grid();

    let neighbours: Vec<i32> = grid.get_neighbours(1, 1, 1).into_iter().copied().collect();
    assert_eq!(vec![1, 3, 5, 2, 6], neighbours);
}

#[test]
fn iter_mut_writes_every_cell() {
    let mut grid = test_grid();
    for cell in grid.iter_mut() {
        *cell *= 2;
    }

    assert_eq!(vec![2, 4, 6, 8, 10, 12], grid.iter().to_vec());
}

#[test]
fn a_clone_has_the_same_cells_and_dimensions() {
    let grid = test_grid();
    let copy = grid.clone();

    assert_eq!(grid.columns(), copy.columns());
    assert_eq!(grid.rows(), copy.rows());
    assert!(grid.iter().eq(copy.iter()));
}
