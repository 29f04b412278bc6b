use rrt::geometry::squared_distance;
use rrt::grid::OccupancyGrid;
use rrt::raytrace::is_segment_occupied;
use rrt::sampling::SampleSource;
use rrt::vanilla::{StepOutcome, TreeGrowth, VanillaRRT};
use rrt::{RRTAlgorithm, RRTParameters, RRTResult};

/// A world coordinate on the lattice: one quantum is a millionth.
fn fx(v: f64) -> i32 {
    (v * 1_000_000.0).round() as i32
}

fn pt(x: f64, y: f64) -> [i32; 2] {
    [fx(x), fx(y)]
}

fn reference_params() -> RRTParameters {
    RRTParameters {
        num_points: 1000,
        move_dist: fx(0.01) as u32,
        min_bound: pt(-0.1, -0.1),
        max_bound: pt(0.1, 0.1),
        sq_dist_tol: 100_000_000,
    }
}

fn reference_grid() -> OccupancyGrid {
    OccupancyGrid::new(20, 20, pt(-0.1, -0.1), fx(0.01))
}

/// Every node but the root has exactly one parent, recorded before it.
fn assert_is_tree(result: &RRTResult) {
    let n = result.points.len();
    let mut parents = vec![0usize; n];
    for (i, children) in result.tree.iter().enumerate() {
        for &child in children {
            assert!(i < child, "edge {} -> {} goes back", i, child);
            assert!(child < n, "edge {} -> {} leaves the tree", i, child);
            parents[child] += 1;
        }
    }
    assert_eq!(parents[0], 0);
    for j in 1..n {
        assert_eq!(parents[j], 1, "node {} has {} parents", j, parents[j]);
    }
}

fn assert_path_is_valid(result: &RRTResult, goal: &[i32; 2], params: &RRTParameters) {
    let path = result.path.as_ref().unwrap();
    assert!(!path.is_empty());
    assert_eq!(path[0], 0);
    for pair in path.windows(2) {
        assert!(result.tree[pair[0]].contains(&pair[1]));
    }
    let last = *path.last().unwrap();
    assert!(squared_distance(&result.points[last], goal) < params.sq_dist_tol);
}

#[test]
fn end_to_end_on_an_empty_grid() {
    let start = pt(0.0, 0.0);
    let goal = pt(0.05, 0.0);
    let grid = reference_grid();
    let params = reference_params();
    let mut source = SampleSource::seeded(2024, u64::MAX);

    let result = VanillaRRT.run(&start, &goal, &grid, &params, &mut source);

    assert!(result.path.is_some());
    assert_eq!(result.points[0], start);
    assert!(result.points.len() <= params.num_points);
    assert_eq!(result.tree.len(), params.num_points + 1);
    assert_is_tree(&result);
    assert_path_is_valid(&result, &goal, &params);
    assert_eq!(*result.path.as_ref().unwrap().last().unwrap(), result.points.len() - 1);
}

#[test]
fn end_to_end_is_reproducible_from_the_seed() {
    let start = pt(0.0, 0.0);
    let goal = pt(0.05, 0.0);
    let grid = reference_grid();
    let params = reference_params();

    let mut source = SampleSource::seeded(7, u64::MAX);
    let first = VanillaRRT.run(&start, &goal, &grid, &params, &mut source);
    let used = u64::MAX - source.supply();
    let mut source = SampleSource::seeded(7, u64::MAX);
    let second = VanillaRRT.run(&start, &goal, &grid, &params, &mut source);

    assert_eq!(first.points, second.points);
    assert_eq!(first.tree, second.tree);
    assert_eq!(first.path, second.path);
    assert_eq!(u64::MAX - source.supply(), used);
    assert!(used >= first.points.len() as u64 - 1);
}

#[test]
fn end_to_end_around_a_wall() {
    let start = pt(0.0, 0.0);
    let goal = pt(0.05, 0.0);
    let mut grid = reference_grid();
    *grid.cell_mut(12, 9) = true;
    *grid.cell_mut(12, 10) = true;
    *grid.cell_mut(12, 11) = true;
    let params = reference_params();
    let mut source = SampleSource::seeded(11, u64::MAX);

    let result = VanillaRRT.run(&start, &goal, &grid, &params, &mut source);

    assert_is_tree(&result);
    for (i, children) in result.tree.iter().enumerate() {
        for &child in children {
            assert!(!is_segment_occupied(&result.points[i], &result.points[child], &grid));
        }
    }
    for p in &result.points[1..] {
        assert!(params.min_bound[0] <= p[0] && p[0] < params.max_bound[0]);
        assert!(params.min_bound[1] <= p[1] && p[1] < params.max_bound[1]);
        let (x, y) = grid.position_to_cell(p);
        assert!(!*grid.cell(x, y));
    }
    assert!(result.path.is_some());
    assert_path_is_valid(&result, &goal, &params);
}

#[test]
fn walled_in_start_never_reaches_the_goal() {
    let start = pt(0.005, 0.005);
    let goal = pt(0.05, 0.0);
    let mut grid = reference_grid();
    for x in 9..=11 {
        for y in 9..=11 {
            if (x, y) != (10, 10) {
                *grid.cell_mut(x, y) = true;
            }
        }
    }
    let mut params = reference_params();
    params.move_dist = fx(0.002) as u32;
    let mut source = SampleSource::seeded(5, 5_000);

    let result = VanillaRRT.run(&start, &goal, &grid, &params, &mut source);

    assert!(result.path.is_none());
    assert_eq!(source.supply(), 0);
    assert_is_tree(&result);
    for p in &result.points {
        assert_eq!(grid.position_to_cell(p), (10, 10));
    }
}

#[test]
fn budget_stops_the_growth() {
    let start = pt(0.0, 0.0);
    let goal = pt(0.09, 0.09);
    let grid = reference_grid();
    let mut params = reference_params();
    params.num_points = 5;
    params.move_dist = fx(0.001) as u32;
    let mut source = SampleSource::seeded(3, u64::MAX);

    let result = VanillaRRT.run(&start, &goal, &grid, &params, &mut source);

    assert!(result.path.is_none());
    assert_eq!(result.points.len(), 5);
    assert_eq!(result.tree.len(), 6);
    assert_is_tree(&result);
}

#[test]
fn budget_of_zero_keeps_the_start_alone() {
    let start = pt(0.0, 0.0);
    let goal = pt(0.0, 0.0);
    let grid = reference_grid();
    let mut params = reference_params();
    params.num_points = 0;
    let mut source = SampleSource::seeded(3, 100);

    let result = VanillaRRT.run(&start, &goal, &grid, &params, &mut source);

    assert!(result.path.is_none());
    assert_eq!(result.points, vec![start]);
    assert_eq!(result.tree, vec![Vec::<usize>::new()]);
    assert_eq!(source.supply(), 100);
}

#[test]
fn exhausted_source_stops_the_growth() {
    let start = pt(0.0, 0.0);
    let goal = pt(0.09, 0.09);
    let grid = reference_grid();
    let mut params = reference_params();
    params.move_dist = fx(0.001) as u32;
    let mut source = SampleSource::seeded(3, 10);

    let result = VanillaRRT.run(&start, &goal, &grid, &params, &mut source);

    assert!(result.path.is_none());
    assert!(result.points.len() <= 11);
    assert_eq!(source.supply(), 0);
    assert_is_tree(&result);
}

fn small_world() -> (OccupancyGrid, RRTParameters) {
    let mut grid = OccupancyGrid::new(10, 10, [0, 0], 10);
    *grid.cell_mut(5, 0) = true;
    let params = RRTParameters {
        num_points: 50,
        move_dist: 10,
        min_bound: [0, 0],
        max_bound: [100, 100],
        sq_dist_tol: 25,
    };
    (grid, params)
}

#[test]
fn extend_adds_the_steered_point() {
    let (grid, params) = small_world();
    let goal = [95, 95];
    let mut growth = TreeGrowth::new([5, 5], params.num_points);
    assert_eq!(growth.len(), 1);
    assert!(!growth.found());

    // One step of 10 from (5, 5) towards (5, 95) is (5, 15).
    assert_eq!(growth.extend(0, [5, 95], &goal, &grid, &params), StepOutcome::Added);
    assert_eq!(growth.len(), 2);
    // One step from (5, 15) along (3, 4) is (11, 23).
    assert_eq!(growth.extend(1, [35, 55], &goal, &grid, &params), StepOutcome::Added);
    assert_eq!(growth.len(), 3);
    assert!(!growth.found());

    let result = growth.finish();
    assert_eq!(result.points, vec![[5, 5], [5, 15], [11, 23]]);
    assert_eq!(result.tree[0], vec![1]);
    assert_eq!(result.tree[1], vec![2]);
    assert!(result.tree[2..].iter().all(|children| children.is_empty()));
    assert_eq!(result.tree.len(), 51);
    assert_eq!(result.path, None);
}

#[test]
fn extend_refuses_what_leaves_the_bounds() {
    let (grid, params) = small_world();
    let goal = [95, 95];
    let mut growth = TreeGrowth::new([5, 95], params.num_points);
    // Upwards from (5, 95) the step ends at (5, 105), past the upper bound.
    assert_eq!(growth.extend(0, [5, 100], &goal, &grid, &params), StepOutcome::OutOfBounds);
    // A step that ends on the upper bound itself is outside too.
    let mut edge = TreeGrowth::new([5, 90], params.num_points);
    assert_eq!(edge.extend(0, [5, 100], &goal, &grid, &params), StepOutcome::OutOfBounds);
    // One that ends on the lower bound is inside.
    let mut low = TreeGrowth::new([5, 10], params.num_points);
    assert_eq!(low.extend(0, [5, 0], &goal, &grid, &params), StepOutcome::Added);
    // A sample on its nearest node gives no direction.
    assert_eq!(growth.extend(0, [5, 95], &goal, &grid, &params), StepOutcome::OutOfBounds);
    assert_eq!(growth.len(), 1);
    assert_eq!(edge.len(), 1);
    assert_eq!(low.len(), 2);
}

#[test]
fn extend_refuses_what_crosses_an_occupied_cell() {
    let (grid, params) = small_world();
    let goal = [95, 95];
    let mut growth = TreeGrowth::new([45, 5], params.num_points);
    assert_eq!(growth.extend(0, [95, 5], &goal, &grid, &params), StepOutcome::Blocked);
    assert_eq!(growth.len(), 1);
    assert_eq!(growth.extend(0, [45, 95], &goal, &grid, &params), StepOutcome::Added);
    assert_eq!(growth.len(), 2);
}

#[test]
fn extend_refuses_a_point_that_the_tree_holds() {
    let (grid, params) = small_world();
    let goal = [95, 95];
    let mut growth = TreeGrowth::new([5, 5], params.num_points);
    assert_eq!(growth.extend(0, [5, 95], &goal, &grid, &params), StepOutcome::Added);
    assert_eq!(growth.extend(0, [5, 50], &goal, &grid, &params), StepOutcome::TooClose);
    assert_eq!(growth.len(), 2);
    let result = growth.finish();
    assert_eq!(result.tree[0], vec![1]);
}

#[test]
fn extend_stops_at_the_goal() {
    let (grid, params) = small_world();
    let goal = [5, 28];
    let mut growth = TreeGrowth::new([5, 5], params.num_points);
    // (5, 15) is 13 from the goal: 169 is not below 25.
    assert_eq!(growth.extend(0, [5, 95], &goal, &grid, &params), StepOutcome::Added);
    // (5, 25) is 3 from the goal: 9 is below 25.
    assert_eq!(growth.extend(1, [5, 95], &goal, &grid, &params), StepOutcome::GoalReached);
    assert!(growth.found());
    let result = growth.finish();
    assert_eq!(result.path, Some(vec![0, 1, 2]));
    assert_eq!(result.points[2], [5, 25]);
}

#[test]
fn tolerance_is_strict() {
    let (grid, mut params) = small_world();
    let goal = [5, 20];
    params.sq_dist_tol = 25;
    let mut growth = TreeGrowth::new([5, 5], params.num_points);
    // (5, 15) is exactly 5 from the goal: 25 is not below 25.
    assert_eq!(growth.extend(0, [5, 95], &goal, &grid, &params), StepOutcome::Added);
    params.sq_dist_tol = 26;
    let mut growth = TreeGrowth::new([5, 5], params.num_points);
    assert_eq!(growth.extend(0, [5, 95], &goal, &grid, &params), StepOutcome::GoalReached);
}

#[test]
fn step_grows_from_the_nearest_node() {
    let (grid, params) = small_world();
    let goal = [95, 95];
    let mut growth = TreeGrowth::new([5, 5], params.num_points);
    assert_eq!(growth.step([5, 95], &goal, &grid, &params), StepOutcome::Added);
    assert_eq!(growth.step([5, 95], &goal, &grid, &params), StepOutcome::Added);
    // (95, 6) is nearest to the root (5, 5).
    assert_eq!(growth.step([95, 6], &goal, &grid, &params), StepOutcome::Added);
    let result = growth.finish();
    assert_eq!(result.points[..3], [[5, 5], [5, 15], [5, 25]]);
    assert_eq!(result.tree[0], vec![1, 3]);
    assert_eq!(result.tree[1], vec![2]);
}

#[test]
fn branches_keep_the_path_to_the_goal() {
    let (grid, params) = small_world();
    let goal = [25, 45];
    let mut growth = TreeGrowth::new([25, 5], params.num_points);
    assert_eq!(growth.extend(0, [5, 5], &goal, &grid, &params), StepOutcome::Added);
    assert_eq!(growth.extend(1, [5, 95], &goal, &grid, &params), StepOutcome::Added);
    assert_eq!(growth.extend(0, [25, 95], &goal, &grid, &params), StepOutcome::Added);
    assert_eq!(growth.extend(3, [25, 95], &goal, &grid, &params), StepOutcome::Added);
    assert_eq!(growth.extend(4, [25, 95], &goal, &grid, &params), StepOutcome::Added);
    assert_eq!(growth.extend(5, [25, 95], &goal, &grid, &params), StepOutcome::GoalReached);
    let result = growth.finish();
    assert_eq!(result.path, Some(vec![0, 3, 4, 5, 6]));
    assert_eq!(result.tree[0], vec![1, 3]);
}
