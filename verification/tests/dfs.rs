use rrt::dfs::dfs;

fn sample_tree() -> Vec<Vec<usize>> {
    // 0 -> 1, 4;  1 -> 2, 3;  4 -> 5
    vec![vec![1, 4], vec![2, 3], vec![], vec![], vec![5], vec![], vec![]]
}

#[test]
fn dfs_finds_the_path_from_the_root() {
    let tree = sample_tree();
    let mut path = Vec::new();
    assert!(dfs(&tree, 0, 5, &mut path));
    assert_eq!(path, vec![0, 4, 5]);

    let mut path = Vec::new();
    assert!(dfs(&tree, 0, 3, &mut path));
    assert_eq!(path, vec![0, 1, 3]);
}

#[test]
fn dfs_from_a_node_to_itself_is_that_node() {
    let tree = sample_tree();
    let mut path = Vec::new();
    assert!(dfs(&tree, 2, 2, &mut path));
    assert_eq!(path, vec![2]);
}

#[test]
fn dfs_appends_to_what_the_path_holds() {
    let tree = sample_tree();
    let mut path = vec![9, 8];
    assert!(dfs(&tree, 1, 3, &mut path));
    assert_eq!(path, vec![9, 8, 1, 3]);
}

#[test]
fn dfs_that_fails_leaves_the_path_as_it_was() {
    let tree = sample_tree();
    let mut path = vec![7];
    assert!(!dfs(&tree, 1, 5, &mut path));
    assert_eq!(path, vec![7]);

    let mut path = Vec::new();
    assert!(!dfs(&tree, 0, 6, &mut path));
    assert!(path.is_empty());
}

#[test]
fn dfs_from_a_node_without_a_slot() {
    let tree = sample_tree();
    let mut path = Vec::new();
    assert!(!dfs(&tree, 12, 3, &mut path));
    assert!(path.is_empty());
    assert!(dfs(&tree, 12, 12, &mut path));
    assert_eq!(path, vec![12]);
}

#[test]
fn dfs_takes_children_in_recorded_order() {
    // Node 3 is recorded under both 1 and 2: the search finds it under 1.
    let tree = vec![vec![1, 2], vec![3], vec![3], vec![]];
    let mut path = Vec::new();
    assert!(dfs(&tree, 0, 3, &mut path));
    assert_eq!(path, vec![0, 1, 3]);
}
