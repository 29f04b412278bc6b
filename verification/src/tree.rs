//! The shape of an exploration tree: an adjacency list in which node `i`
//! is the `i`-th accepted point and every node but the root has one parent,
//! accepted before it.

use crate::dfs::{
    children_of, dfs_path, insertion_ordered, lemma_dfs_finds_walk, lemma_dfs_path_is_walk,
    single_parent, walk_between,
};
use vstd::prelude::*;

verus! {

/// Node `j` is recorded as a child of some node.
pub open spec fn has_parent(adj: Seq<Seq<usize>>, j: int) -> bool {
    exists|i: int, k: int| 0 <= i < adj.len() && 0 <= k < adj[i].len() && #[trigger] adj[i][k] == j
}

/// The adjacency list is a tree over the nodes `0` to `n - 1`, rooted at
/// node 0: every edge leads to a later node below `n`, no node has two
/// parents, and every node but the root has one. So there is no cycle,
/// and the root has no parent.
pub open spec fn is_tree(adj: Seq<Seq<usize>>, n: int) -> bool {
    &&& forall|i: int, k: int|
        0 <= i < adj.len() && 0 <= k < adj[i].len() ==> i < #[trigger] adj[i][k] < n
    &&& single_parent(adj)
    &&& forall|j: int| 0 < j < n ==> #[trigger] has_parent(adj, j)
}

/// The adjacency list with `child` recorded as the newest child of
/// `parent`.
pub open spec fn with_edge(adj: Seq<Seq<usize>>, parent: int, child: usize) -> Seq<Seq<usize>> {
    adj.update(parent, adj[parent].push(child))
}

/// An adjacency list of `slots` nodes without edges is a tree over its
/// root alone.
pub proof fn lemma_tree_of_root(adj: Seq<Seq<usize>>)
    requires
        forall|i: int| 0 <= i < adj.len() ==> (#[trigger] adj[i]).len() == 0,
    ensures
        is_tree(adj, 1),
{
}

/// A tree over `n` nodes that takes node `n` in as a child of one of its
/// nodes is a tree over `n + 1` nodes.
pub proof fn lemma_tree_grows(adj: Seq<Seq<usize>>, n: int, parent: int)
    requires
        is_tree(adj, n),
        0 <= parent < n,
        parent < adj.len(),
        n <= usize::MAX,
    ensures
        is_tree(with_edge(adj, parent, n as usize), n + 1),
{
    let child = n as usize;
    let grown = with_edge(adj, parent, child);
    let last = adj[parent].len() as int;
    assert forall|i: int, k: int| 0 <= i < grown.len() && 0 <= k < grown[i].len() implies i
        < #[trigger] grown[i][k] < n + 1 by {
        if !(i == parent && k == last) {
            assert(grown[i][k] == adj[i][k]);
        }
    }
    assert forall|i: int, k: int, i2: int, k2: int|
        0 <= i < grown.len() && 0 <= k < grown[i].len() && 0 <= i2 < grown.len() && 0 <= k2
            < grown[i2].len() && #[trigger] grown[i][k] == #[trigger] grown[i2][k2] implies i
        == i2 && k == k2 by {
        if !(i == parent && k == last) {
            assert(grown[i][k] == adj[i][k]);
        }
        if !(i2 == parent && k2 == last) {
            assert(grown[i2][k2] == adj[i2][k2]);
        }
    }
    assert forall|j: int| 0 < j < n + 1 implies #[trigger] has_parent(grown, j) by {
        if j == n {
            assert(grown[parent][last] == j);
        } else {
            assert(has_parent(adj, j));
            let (i, k) = choose|i: int, k: int|
                0 <= i < adj.len() && 0 <= k < adj[i].len() && #[trigger] adj[i][k] == j;
            assert(grown[i][k] == j);
        }
    }
}

/// In a tree a walk leads from the root to every node.
pub proof fn lemma_tree_has_walk(adj: Seq<Seq<usize>>, n: int, j: int) -> (walk: Seq<usize>)
    requires
        is_tree(adj, n),
        0 <= j < n,
        n <= usize::MAX + 1,
    ensures
        walk_between(adj, walk, 0, j as usize),
    decreases j,
{
    if j == 0 {
        seq![0usize]
    } else {
        assert(has_parent(adj, j));
        let (i, k) = choose|i: int, k: int|
            0 <= i < adj.len() && 0 <= k < adj[i].len() && #[trigger] adj[i][k] == j;
        let up = lemma_tree_has_walk(adj, n, i);
        let walk = up.push(j as usize);
        assert forall|m: int| 0 <= m < walk.len() - 1 implies children_of(
            adj,
            #[trigger] walk[m],
        ).contains(walk[m + 1]) by {
            if m < up.len() - 1 {
                assert(walk[m] == up[m] && walk[m + 1] == up[m + 1]);
            } else {
                assert(walk[m] == i);
                assert(children_of(adj, i as usize)[k] == j);
            }
        }
        walk
    }
}

/// In a tree the depth-first search from the root finds every node, and
/// what it finds is the one walk from the root to that node.
pub proof fn lemma_tree_search_finds(adj: Seq<Seq<usize>>, n: int, j: int)
    requires
        is_tree(adj, n),
        0 <= j < n,
        n <= usize::MAX + 1,
    ensures
        insertion_ordered(adj),
        dfs_path(adj, 0, j as usize) is Some,
        walk_between(adj, dfs_path(adj, 0, j as usize).unwrap(), 0, j as usize),
{
    let walk = lemma_tree_has_walk(adj, n, j);
    lemma_dfs_finds_walk(adj, walk, 0, j as usize);
    lemma_dfs_path_is_walk(adj, 0, j as usize);
}

} // verus!
