use rand::rngs::StdRng;
use rand::Rng;
use rand::SeedableRng;
use rrt::grid::OccupancyGrid;
use rrt::raytrace::is_segment_occupied;

/// A world coordinate on the lattice: one quantum is a millionth.
fn fx(v: f64) -> i32 {
    (v * 1_000_000.0).round() as i32
}

fn pt(x: f64, y: f64) -> [i32; 2] {
    [fx(x), fx(y)]
}

#[test]
fn test_within_one_cell() {
    let mut grid = OccupancyGrid::new(2, 2, pt(0.0, 0.0), fx(1.0));
    *grid.cell_mut(1, 0) = true;
    *grid.cell_mut(0, 1) = true;
    *grid.cell_mut(1, 1) = true;

    assert!(!is_segment_occupied(&pt(0.25, 0.25), &pt(0.75, 0.75), &grid));
}

#[test]
fn test_basic_multiple_cells_unoccupied() {
    let mut grid = OccupancyGrid::new(3, 3, pt(0.0, 0.0), fx(1.0));
    *grid.cell_mut(0, 2) = true;
    *grid.cell_mut(1, 2) = true;

    assert!(!is_segment_occupied(&pt(0.5, 0.5), &pt(2.7, 2.3), &grid));
}

#[test]
fn test_basic_multiple_cells_occupied() {
    let mut grid = OccupancyGrid::new(3, 3, pt(0.0, 0.0), fx(1.0));
    *grid.cell_mut(1, 1) = true;

    assert!(is_segment_occupied(&pt(0.5, 0.5), &pt(2.7, 2.3), &grid));
}

#[test]
fn test_negative_delta_x() {
    let mut grid = OccupancyGrid::new(3, 3, pt(0.0, 0.0), fx(1.0));
    *grid.cell_mut(0, 0) = true;
    *grid.cell_mut(2, 2) = true;

    assert!(!is_segment_occupied(&pt(2.5, 0.5), &pt(0.5, 2.5), &grid));
}

#[test]
fn test_negative_delta_y() {
    let mut grid = OccupancyGrid::new(3, 3, pt(0.0, 0.0), fx(1.0));
    *grid.cell_mut(0, 0) = true;
    *grid.cell_mut(2, 2) = true;

    assert!(!is_segment_occupied(&pt(0.5, 2.5), &pt(2.5, 0.5), &grid));
}

#[test]
fn test_shifted_origin() {
    let mut grid = OccupancyGrid::new(3, 3, pt(-1.5, -1.5), fx(1.0));
    *grid.cell_mut(2, 0) = true;
    *grid.cell_mut(0, 2) = true;

    assert!(!is_segment_occupied(&pt(-1.0, -1.0), &pt(1.0, 1.0), &grid));
}

#[test]
fn test_line_through_point_corners_unoccupied() {
    let mut grid = OccupancyGrid::new(3, 3, pt(-1.5, -1.5), fx(1.0));

    let directions = vec![pt(1.5, -1.5), pt(1.5, 1.5), pt(-1.5, 1.5), pt(-1.5, -1.5)];
    let occupied_cells = vec![(1, 0), (2, 1), (1, 2), (0, 1)];

    for (cell_x, cell_y) in occupied_cells {
        *grid.cell_mut(cell_x, cell_y) = true;
        for dir in &directions {
            assert!(!is_segment_occupied(&pt(0.0, 0.0), dir, &grid));
        }
        *grid.cell_mut(cell_x, cell_y) = false;
    }
}

#[test]
fn test_line_through_point_corners_occupied() {
    let mut grid = OccupancyGrid::new(3, 3, pt(-1.5, -1.5), fx(1.0));
    *grid.cell_mut(1, 0) = true;
    *grid.cell_mut(2, 1) = true;
    *grid.cell_mut(1, 2) = true;
    *grid.cell_mut(0, 1) = true;

    let directions = vec![pt(1.5, -1.5), pt(1.5, 1.5), pt(-1.5, 1.5), pt(-1.5, -1.5)];

    for dir in &directions {
        assert!(is_segment_occupied(&pt(0.0, 0.0), dir, &grid));
    }
}

#[test]
fn start_cell_is_checked() {
    let mut grid = OccupancyGrid::new(2, 2, [0, 0], 10);
    *grid.cell_mut(0, 0) = true;
    assert!(is_segment_occupied(&[3, 3], &[3, 3], &grid));
    assert!(is_segment_occupied(&[3, 3], &[15, 15], &grid));
}

#[test]
fn point_segment_in_free_cell_is_free() {
    let mut grid = OccupancyGrid::new(2, 2, [0, 0], 10);
    *grid.cell_mut(1, 0) = true;
    *grid.cell_mut(0, 1) = true;
    *grid.cell_mut(1, 1) = true;
    assert!(!is_segment_occupied(&[3, 3], &[3, 3], &grid));
}

#[test]
fn segment_inside_one_cell_ignores_every_other_cell() {
    let mut grid = OccupancyGrid::new(3, 3, [0, 0], 10);
    for x in 0..3 {
        for y in 0..3 {
            if (x, y) != (1, 1) {
                *grid.cell_mut(x, y) = true;
            }
        }
    }
    assert!(!is_segment_occupied(&[11, 11], &[19, 19], &grid));
    assert!(!is_segment_occupied(&[19, 11], &[11, 19], &grid));
    assert!(!is_segment_occupied(&[10, 10], &[19, 19], &grid));
    assert!(!is_segment_occupied(&[15, 19], &[15, 11], &grid));
}

#[test]
fn end_on_a_line_that_the_segment_descends_to_enters_the_next_cell() {
    let mut grid = OccupancyGrid::new(3, 3, [0, 0], 10);
    *grid.cell_mut(0, 1) = true;
    // Ending on x = 10 while descending in x: the walk enters cell (0, 1).
    assert!(is_segment_occupied(&[15, 15], &[10, 15], &grid));
    // Ending just short of the line it does not.
    assert!(!is_segment_occupied(&[15, 15], &[11, 15], &grid));
    // Ascending, a segment that ends on a line has entered the cell beyond.
    *grid.cell_mut(0, 1) = false;
    *grid.cell_mut(2, 1) = true;
    assert!(is_segment_occupied(&[15, 15], &[20, 15], &grid));
    assert!(!is_segment_occupied(&[15, 15], &[19, 15], &grid));
}

#[test]
fn axis_parallel_segments() {
    let mut grid = OccupancyGrid::new(4, 4, [0, 0], 10);
    *grid.cell_mut(2, 1) = true;
    assert!(is_segment_occupied(&[5, 15], &[35, 15], &grid));
    assert!(is_segment_occupied(&[35, 15], &[5, 15], &grid));
    assert!(!is_segment_occupied(&[5, 25], &[35, 25], &grid));
    assert!(is_segment_occupied(&[25, 35], &[25, 5], &grid));
    assert!(is_segment_occupied(&[25, 5], &[25, 35], &grid));
    assert!(!is_segment_occupied(&[15, 5], &[15, 35], &grid));
}

#[test]
fn corner_tie_goes_along_x_unless_that_neighbour_is_occupied() {
    // From the middle of cell (0, 0) through the corner (10, 10).
    let mut grid = OccupancyGrid::new(2, 2, [0, 0], 10);
    *grid.cell_mut(0, 1) = true;
    // The x neighbour (1, 0) is free: the walk goes (0,0), (1,0), (1,1).
    assert!(!is_segment_occupied(&[5, 5], &[15, 15], &grid));
    *grid.cell_mut(0, 1) = false;
    *grid.cell_mut(1, 0) = true;
    // The x neighbour is occupied: the walk goes (0,0), (0,1), (1,1).
    assert!(!is_segment_occupied(&[5, 5], &[15, 15], &grid));
    *grid.cell_mut(0, 1) = true;
    // Both neighbours occupied: the walk runs into one of them.
    assert!(is_segment_occupied(&[5, 5], &[15, 15], &grid));
}

#[test]
fn segment_leaving_the_grid_stops_at_its_edge() {
    let mut grid = OccupancyGrid::new(2, 1, [0, 0], 10);
    assert!(!is_segment_occupied(&[5, 5], &[500, 5], &grid));
    assert!(!is_segment_occupied(&[5, 5], &[-500, 5], &grid));
    assert!(!is_segment_occupied(&[5, 5], &[5, 500], &grid));
    assert!(!is_segment_occupied(&[5, 5], &[5, -500], &grid));
    *grid.cell_mut(1, 0) = true;
    assert!(is_segment_occupied(&[5, 5], &[500, 5], &grid));
}

#[test]
fn steep_and_shallow_segments_visit_the_cells_between() {
    let mut grid = OccupancyGrid::new(5, 5, [-20, -20], 10);
    // From (-15, -15) to (25, -5): crosses x = -10, 0, 10, 20 and y = -10.
    // y = -10 is met at t = 1/2, where x = 5: in column 2.
    *grid.cell_mut(2, 1) = true;
    assert!(is_segment_occupied(&[-15, -15], &[25, -5], &grid));
    *grid.cell_mut(2, 1) = false;
    *grid.cell_mut(1, 1) = true;
    *grid.cell_mut(3, 0) = true;
    assert!(!is_segment_occupied(&[-15, -15], &[25, -5], &grid));
    *grid.cell_mut(3, 1) = true;
    assert!(is_segment_occupied(&[-15, -15], &[25, -5], &grid));
}

#[test]
fn extreme_coordinates_do_not_overflow() {
    let grid = OccupancyGrid::new(2, 2, [i32::MIN, i32::MIN], i32::MAX);
    assert!(!is_segment_occupied(&[i32::MIN, i32::MIN], &[i32::MAX, i32::MAX], &grid));
    assert!(!is_segment_occupied(&[i32::MAX - 2, i32::MAX - 2], &[i32::MIN, i32::MIN], &grid));
}

/// Whether the point `num / den` of the way from `a` to `b` lies strictly
/// inside the cell with lower corner `(x0, y0)` and edge `res`.
fn strictly_inside(a: [i32; 2], b: [i32; 2], num: i64, den: i64, x0: i64, y0: i64, res: i64) -> bool {
    let px = a[0] as i64 * den + num * (b[0] as i64 - a[0] as i64);
    let py = a[1] as i64 * den + num * (b[1] as i64 - a[1] as i64);
    x0 * den < px && px < (x0 + res) * den && y0 * den < py && py < (y0 + res) * den
}

/// Whether the segment from `a` to `b` has a point in the closed square
/// with lower corner `(x0, y0)` and edge `res`.
fn touches(a: [i32; 2], b: [i32; 2], x0: i64, y0: i64, res: i64) -> bool {
    let (ax, ay, bx, by) = (a[0] as i64, a[1] as i64, b[0] as i64, b[1] as i64);
    if ax.max(bx) < x0 || ax.min(bx) > x0 + res || ay.max(by) < y0 || ay.min(by) > y0 + res {
        return false;
    }
    let side = |cx: i64, cy: i64| (bx - ax) * (cy - ay) - (by - ay) * (cx - ax);
    let corners = [side(x0, y0), side(x0 + res, y0), side(x0, y0 + res), side(x0 + res, y0 + res)];
    !(corners.iter().all(|&c| c > 0) || corners.iter().all(|&c| c < 0))
}

#[test]
fn walk_agrees_with_geometry() {
    let mut rng = StdRng::seed_from_u64(4242);
    let (cells, res, origin) = (6usize, 4i32, [-7, 3]);
    let mut leaks_tested = 0;
    let mut causes_tested = 0;
    for _ in 0..300 {
        let mut grid = OccupancyGrid::new(cells, cells, origin, res);
        let mut occupied = Vec::new();
        for x in 0..cells {
            for y in 0..cells {
                if rng.gen_range(0..4) == 0 {
                    *grid.cell_mut(x, y) = true;
                    occupied.push((x, y));
                }
            }
        }
        for _ in 0..40 {
            let extent = cells as i32 * res;
            let a = [origin[0] + rng.gen_range(0..extent), origin[1] + rng.gen_range(0..extent)];
            let b = [
                origin[0] + rng.gen_range(-res..extent + res),
                origin[1] + rng.gen_range(-res..extent + res),
            ];
            let reported = is_segment_occupied(&a, &b, &grid);
            let corner = |x: usize, y: usize| {
                (origin[0] as i64 + x as i64 * res as i64, origin[1] as i64 + y as i64 * res as i64)
            };
            let den = 96;
            let leaks = occupied.iter().any(|&(x, y)| {
                let (x0, y0) = corner(x, y);
                (0..=den).any(|num| strictly_inside(a, b, num, den, x0, y0, res as i64))
            });
            if leaks {
                leaks_tested += 1;
                assert!(reported, "segment {:?} -> {:?} leaks", a, b);
            }
            if reported {
                causes_tested += 1;
                let caused = occupied.iter().any(|&(x, y)| {
                    let (x0, y0) = corner(x, y);
                    touches(a, b, x0, y0, res as i64)
                });
                assert!(caused, "segment {:?} -> {:?} is reported without cause", a, b);
            }
        }
    }
    assert!(leaks_tested > 1000);
    assert!(causes_tested > 1000);
}
