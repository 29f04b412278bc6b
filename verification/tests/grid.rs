use rrt::grid::OccupancyGrid;

#[test]
fn new_grid_is_free() {
    let grid = OccupancyGrid::new(3, 2, [5, -7], 10);
    assert_eq!(grid.size(), (3, 2));
    assert_eq!(grid.origin(), [5, -7]);
    assert_eq!(grid.resolution(), 10);
    for y in 0..2 {
        for x in 0..3 {
            assert!(!*grid.cell(x, y));
        }
    }
}

#[test]
fn cell_mut_writes_one_cell() {
    let mut grid = OccupancyGrid::new(3, 2, [0, 0], 1);
    *grid.cell_mut(2, 1) = true;
    for y in 0..2 {
        for x in 0..3 {
            assert_eq!(*grid.cell(x, y), (x, y) == (2, 1));
        }
    }
    *grid.cell_mut(2, 1) = false;
    assert!(!*grid.cell(2, 1));
}

#[test]
fn cells_are_stored_row_by_row() {
    let mut grid = OccupancyGrid::new(2, 3, [0, 0], 1);
    *grid.cell_mut(1, 0) = true;
    *grid.cell_mut(0, 2) = true;
    assert!(*grid.cell(1, 0));
    assert!(!*grid.cell(0, 1));
    assert!(*grid.cell(0, 2));
    assert!(!*grid.cell(1, 2));
}

#[test]
fn position_to_cell_takes_the_floor() {
    let grid = OccupancyGrid::new(4, 3, [-20, 100], 10);
    assert_eq!(grid.position_to_cell(&[-20, 100]), (0, 0));
    assert_eq!(grid.position_to_cell(&[-11, 109]), (0, 0));
    assert_eq!(grid.position_to_cell(&[-10, 110]), (1, 1));
    assert_eq!(grid.position_to_cell(&[0, 129]), (2, 2));
    assert_eq!(grid.position_to_cell(&[19, 100]), (3, 0));
}

#[test]
fn real_size_is_cells_times_resolution() {
    let grid = OccupancyGrid::new(4, 3, [-20, 100], 10);
    assert_eq!(grid.real_size(), [40, 30]);
    let wide = OccupancyGrid::new(3, 1, [0, 0], i32::MAX);
    assert_eq!(wide.real_size(), [3 * (i32::MAX as i128), i32::MAX as i128]);
    let none = OccupancyGrid::new(0, 0, [0, 0], 10);
    assert_eq!(none.real_size(), [0, 0]);
    assert_eq!(none.size(), (0, 0));
}
