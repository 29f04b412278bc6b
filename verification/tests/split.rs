use rrt::split::{find_split, split_side};

#[test]
fn find_split_takes_the_axis_of_largest_variance() {
    let points = vec![[0, 0], [10, 1], [20, 0], [30, 1]];
    let all = vec![0, 1, 2, 3];
    // x: sum 60, mean 15. y: sum 2, mean 1/2.
    assert_eq!(find_split(&points, &all), (0, 15));

    let points = vec![[0, 0], [1, 10], [0, 20], [1, 31]];
    // y: sum 61, mean 15.25, rounded up to 16.
    assert_eq!(find_split(&points, &all), (1, 16));
}

#[test]
fn find_split_rounds_the_mean_up() {
    let points = vec![[0], [0], [0], [1]];
    let all = vec![0, 1, 2, 3];
    // mean 1/4: the cut at 1 puts the three zeros left and the one right.
    assert_eq!(find_split(&points, &all), (0, 1));
    assert_eq!(split_side(&points, &all, 0, 1, true), vec![0, 1, 2]);
    assert_eq!(split_side(&points, &all, 0, 1, false), vec![3]);

    let points = vec![[-1], [0], [0], [0]];
    // mean -1/4: the cut at 0 puts the -1 left.
    assert_eq!(find_split(&points, &all), (0, 0));
    assert_eq!(split_side(&points, &all, 0, 0, true), vec![0]);
    assert_eq!(split_side(&points, &all, 0, 0, false), vec![1, 2, 3]);

    let points = vec![[-7], [-2]];
    // mean -9/2, rounded up to -4.
    assert_eq!(find_split(&points, &vec![0, 1]), (0, -4));
}

#[test]
fn find_split_prefers_the_first_axis_on_a_tie() {
    let points = vec![[0, 5], [4, 1], [2, 3]];
    assert_eq!(find_split(&points, &vec![0, 1, 2]), (0, 2));
    let points = vec![[5, 0, 1], [1, 4, 1], [3, 2, 1]];
    assert_eq!(find_split(&points, &vec![0, 1, 2]), (0, 3));
}

#[test]
fn find_split_looks_only_at_the_listed_points() {
    let points = vec![[1000, 0], [0, 0], [0, 10], [-1000, 0], [0, 20]];
    assert_eq!(find_split(&points, &vec![1, 2, 4]), (1, 10));
}

#[test]
fn find_split_at_the_ends_of_the_range() {
    let points = vec![[i32::MAX], [i32::MAX], [i32::MAX - 1]];
    assert_eq!(find_split(&points, &vec![0, 1, 2]), (0, i32::MAX));
    let points = vec![[i32::MIN], [i32::MIN], [i32::MIN + 1]];
    assert_eq!(find_split(&points, &vec![0, 1, 2]), (0, i32::MIN + 1));
    let points = vec![[i32::MIN, 0], [i32::MAX, 0]];
    assert_eq!(find_split(&points, &vec![0, 1]), (0, 0));
}

#[test]
fn split_side_keeps_the_listed_order() {
    let points = vec![[5, 0], [1, 0], [9, 0], [3, 0], [7, 0]];
    let all = vec![4, 3, 2, 1, 0];
    assert_eq!(split_side(&points, &all, 0, 5, true), vec![3, 1]);
    assert_eq!(split_side(&points, &all, 0, 5, false), vec![4, 2, 0]);
    assert_eq!(split_side(&points, &Vec::new(), 0, 5, true), Vec::<usize>::new());
}
