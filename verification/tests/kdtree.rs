use rand::rngs::StdRng;
use rand::Rng;
use rand::SeedableRng;
use rrt::geometry::squared_distance;
use rrt::kdtree::KdTree;
use rrt::point_list::{NNIndex, PointList, VecPointList};

/// A world coordinate on the lattice: one quantum is a millionth.
fn fx(v: f64) -> i32 {
    (v * 1_000_000.0).round() as i32
}

fn pt(x: f64, y: f64) -> [i32; 2] {
    [fx(x), fx(y)]
}

fn check_random_inserts_and_queries<const LEAF_CAP: usize>(
    seed: u64,
    count_points: usize,
    count_queries: usize,
) {
    let mut rng = StdRng::seed_from_u64(seed);
    let mut points = Vec::with_capacity(count_points);
    for _ in 0..count_points {
        points.push(pt(rng.gen::<f64>(), rng.gen::<f64>()));
    }

    let mut queries = Vec::with_capacity(count_queries);
    for _ in 0..count_queries {
        queries.push(pt(rng.gen::<f64>(), rng.gen::<f64>()));
    }

    let mut tree = KdTree::<2, LEAF_CAP>::empty();
    for p in &points {
        tree.add_point(*p);
    }

    for q in &queries {
        let mut min_dist_sq = u128::MAX;
        let mut min_id = 0;

        for (id, p) in points.iter().enumerate() {
            let d_sq = squared_distance(q, p);
            if d_sq < min_dist_sq {
                min_dist_sq = d_sq;
                min_id = id;
            }
        }

        let found_id = tree.closest_point(*q).unwrap();
        assert_eq!(min_id, found_id);
    }
}

#[test]
fn test_kdtree_closest_point() {
    let mut tree = KdTree::<2, 4>::empty();
    tree.add_point(pt(2., 3.));
    tree.add_point(pt(5., 4.));
    tree.add_point(pt(9., 6.));
    tree.add_point(pt(4., 7.));
    tree.add_point(pt(8., 1.));
    tree.add_point(pt(7., 2.));

    let query_point = pt(9., 2.);
    let closest_idx = tree.closest_point(query_point);
    assert_eq!(closest_idx, Some(4));

    let query_point = pt(1., 1.);
    let closest_idx = tree.closest_point(query_point);
    assert_eq!(closest_idx, Some(0));
}

#[test]
fn test_add_points() {
    let mut tree = KdTree::<2, 1>::empty();
    assert!(tree.add_point(pt(1.0, 2.0)));
    assert!(!tree.add_point(pt(1.0, 2.0)));
    assert!(tree.add_point(pt(3.0, 2.0)));
    assert_eq!(tree.len(), 2);
}

#[test]
fn test_closest_point_larger_leaves() {
    let mut tree = KdTree::<2, 4>::empty();
    tree.add_point(pt(1.0, 2.0));
    tree.add_point(pt(5.0, 1.0));
    tree.add_point(pt(-3.0, 8.0));
    tree.add_point(pt(10.0, 0.2));
    tree.add_point(pt(-0.9, 4.0));

    assert_eq!(tree.len(), 5);

    assert_eq!(tree.closest_point(pt(8.0, 0.1)), Some(3));
    assert_eq!(tree.closest_point(pt(-1.0, 3.5)), Some(4));
}

#[test]
fn test_closest_point_small_leaves() {
    let mut tree = KdTree::<2, 1>::empty();
    tree.add_point(pt(1.0, 2.0));
    tree.add_point(pt(5.0, 1.0));
    tree.add_point(pt(-3.0, 8.0));
    tree.add_point(pt(10.0, 0.2));
    tree.add_point(pt(-0.9, 4.0));

    assert_eq!(tree.len(), 5);

    assert_eq!(tree.closest_point(pt(8.0, 0.1)), Some(3));
    assert_eq!(tree.closest_point(pt(-1.0, 3.5)), Some(4));
}

#[test]
fn test_closest_point_small_leaf_close_points() {
    let mut tree = KdTree::<2, 1>::empty();
    tree.add_point(pt(5.0, 1.0));
    tree.add_point(pt(5.0, 1.01));

    assert_eq!(tree.closest_point(pt(5.0, 0.999)), Some(0));
    assert_eq!(tree.closest_point(pt(5.0, 1.02)), Some(1));
}

#[test]
fn test_random_inserts_leaf_points_1() {
    check_random_inserts_and_queries::<1>(0x5eed_0001, 1000, 100);
}

#[test]
fn test_random_inserts_leaf_points_32() {
    check_random_inserts_and_queries::<32>(0x5eed_0032, 1000, 100);
}

#[test]
fn empty_index_has_no_nearest_point() {
    let tree = KdTree::<2, 4>::empty();
    assert_eq!(tree.len(), 0);
    assert_eq!(tree.closest_point([0, 0]), None);
}

#[test]
fn same_point_twice_is_refused_and_len_stays_one() {
    let mut tree = KdTree::<2, 16>::empty();
    assert!(tree.add_point([7, -3]));
    assert!(!tree.add_point([7, -3]));
    assert_eq!(tree.len(), 1);
    assert_eq!(*tree.index(0), [7, -3]);
}

#[test]
fn refused_point_leaves_the_index_as_it_was() {
    let mut tree = KdTree::<2, 2>::empty();
    let points = [[0, 0], [10, 0], [0, 10], [10, 10], [5, 5]];
    for p in &points {
        assert!(tree.add_point(*p));
    }
    for p in &points {
        assert!(!tree.add_point(*p));
    }
    assert_eq!(tree.len(), 5);
    for (i, p) in points.iter().enumerate() {
        assert_eq!(tree.index(i), p);
        assert_eq!(tree.closest_point(*p), Some(i));
    }
}

#[test]
fn neighbours_one_quantum_apart_are_both_kept() {
    let mut tree = KdTree::<2, 1>::empty();
    assert!(tree.add_point([0, 0]));
    assert!(tree.add_point([1, 0]));
    assert!(tree.add_point([0, 1]));
    assert!(tree.add_point([-1, 0]));
    assert!(!tree.add_point([0, 1]));
    assert_eq!(tree.len(), 4);
    assert_eq!(tree.closest_point([-5, 0]), Some(3));
    assert_eq!(tree.closest_point([5, 0]), Some(1));
}

#[test]
fn index_returns_points_in_insertion_order() {
    let mut tree = KdTree::<3, 2>::empty();
    let points = [[3, 1, 4], [1, 5, 9], [2, 6, 5], [3, 5, 8], [9, 7, 9], [3, 2, 3]];
    for p in &points {
        assert!(tree.add_point(*p));
    }
    assert_eq!(tree.len(), points.len());
    for (i, p) in points.iter().enumerate() {
        assert_eq!(tree.index(i), p);
    }
    assert_eq!(tree.closest_point([9, 7, 8]), Some(4));
    assert_eq!(tree.closest_point([0, 5, 9]), Some(1));
}

#[test]
fn points_on_a_line_split_along_it() {
    // All the points agree in x: every split has to cut y.
    let mut tree = KdTree::<2, 2>::empty();
    for y in 0..40 {
        assert!(tree.add_point([5, y * 3]));
    }
    assert_eq!(tree.len(), 40);
    for y in 0..40 {
        assert_eq!(tree.closest_point([100, y * 3 + 1]), Some(y as usize));
    }
}

#[test]
fn extreme_coordinates_are_handled() {
    let mut tree = KdTree::<2, 1>::empty();
    assert!(tree.add_point([i32::MIN, i32::MIN]));
    assert!(tree.add_point([i32::MAX, i32::MAX]));
    assert!(tree.add_point([i32::MIN, i32::MAX]));
    assert!(tree.add_point([i32::MAX, i32::MIN]));
    assert!(tree.add_point([0, 0]));
    assert_eq!(tree.closest_point([i32::MAX, i32::MAX - 1]), Some(1));
    assert_eq!(tree.closest_point([i32::MIN, 5]), Some(2));
    assert_eq!(tree.closest_point([-3, 5]), Some(4));
    assert_eq!(tree.closest_point([-1, i32::MIN]), Some(0));
}

#[test]
fn tree_search_agrees_with_linear_scan_in_distance() {
    let mut rng = StdRng::seed_from_u64(17);
    let mut tree = KdTree::<2, 3>::empty();
    let mut list = VecPointList::<2>::empty();
    // A coarse lattice, so that ties in distance do occur.
    for _ in 0..400 {
        let p = [rng.gen_range(-20..=20), rng.gen_range(-20..=20)];
        if tree.add_point(p) {
            assert!(list.add_point(p));
        }
    }
    assert_eq!(tree.len(), list.len());
    for _ in 0..400 {
        let q = [rng.gen_range(-30..=30), rng.gen_range(-30..=30)];
        let from_tree = tree.closest_point(q).unwrap();
        let from_scan = list.closest_point(q).unwrap();
        assert_eq!(
            squared_distance(tree.index(from_tree), &q),
            squared_distance(list.index(from_scan), &q)
        );
        assert!(from_scan <= from_tree);
    }
}

#[test]
fn linear_scan_returns_the_first_nearest() {
    let mut list = VecPointList::<2>::empty();
    assert_eq!(list.closest_point([0, 0]), None);
    assert!(list.add_point([3, 0]));
    assert!(list.add_point([0, 3]));
    assert!(list.add_point([0, 3]));
    assert!(list.add_point([-1, 0]));
    assert_eq!(list.len(), 4);
    assert_eq!(list.closest_point([2, 2]), Some(0));
    assert_eq!(list.closest_point([0, 4]), Some(1));
    assert_eq!(list.closest_point([-2, 0]), Some(3));
    assert_eq!(*list.index(2), [0, 3]);
}

#[test]
fn squared_distance_is_exact() {
    assert_eq!(squared_distance(&[0, 0], &[3, 4]), 25);
    assert_eq!(squared_distance(&[3, 4], &[0, 0]), 25);
    assert_eq!(squared_distance(&[-2, 7, 1], &[-2, 7, 1]), 0);
    assert_eq!(squared_distance::<0>(&[], &[]), 0);
    let far = squared_distance(&[i32::MIN, i32::MIN], &[i32::MAX, i32::MAX]);
    assert_eq!(far, 2 * (u32::MAX as u128) * (u32::MAX as u128));
}
