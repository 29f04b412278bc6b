//! Depth-first path extraction from an exploration tree.

use vstd::prelude::*;

verus! {

/// The adjacency list as a sequence of child sequences.
pub open spec fn adjacency(tree: &Vec<Vec<usize>>) -> Seq<Seq<usize>> {
    Seq::new(tree@.len(), |i: int| tree@[i]@)
}

/// The children recorded for `node`; a node without a slot has none.
pub open spec fn children_of(adj: Seq<Seq<usize>>, node: usize) -> Seq<usize> {
    if node < adj.len() {
        adj[node as int]
    } else {
        Seq::empty()
    }
}

/// Every edge leads from a node to one that was inserted later.
pub open spec fn insertion_ordered(adj: Seq<Seq<usize>>) -> bool {
    forall|i: int, k: int|
        0 <= i < adj.len() && 0 <= k < adj[i].len() ==> i < #[trigger] adj[i][k]
}

/// How many slots lie at or after `node`.
pub open spec fn slots_from(adj: Seq<Seq<usize>>, node: usize) -> nat {
    if node < adj.len() {
        (adj.len() - node) as nat
    } else {
        0
    }
}

/// The walk that a depth-first search from `start` finds to `end`, children
/// taken in the order in which they were recorded.
pub open spec fn dfs_path(adj: Seq<Seq<usize>>, start: usize, end: usize) -> Option<Seq<usize>>
    decreases slots_from(adj, start), children_of(adj, start).len() + 1,
    when insertion_ordered(adj)
{
    if start == end {
        Some(seq![start])
    } else {
        match dfs_below(adj, start, end, 0) {
            Some(rest) => Some(seq![start] + rest),
            None => None,
        }
    }
}

/// The walk found below `parent` when its children from position `k` on are
/// tried in turn.
pub open spec fn dfs_below(adj: Seq<Seq<usize>>, parent: usize, end: usize, k: nat) -> Option<
    Seq<usize>,
>
    decreases slots_from(adj, parent), children_of(adj, parent).len() - k,
    when insertion_ordered(adj)
{
    let children = children_of(adj, parent);
    if k >= children.len() {
        None
    } else {
        match dfs_path(adj, children[k as int], end) {
            Some(walk) => Some(walk),
            None => dfs_below(adj, parent, end, k + 1),
        }
    }
}

/// A sequence of nodes, each but the first a recorded child of the one
/// before it.
pub open spec fn is_walk(adj: Seq<Seq<usize>>, walk: Seq<usize>) -> bool {
    &&& walk.len() >= 1
    &&& forall|k: int|
        0 <= k < walk.len() - 1 ==> children_of(adj, #[trigger] walk[k]).contains(walk[k + 1])
}

/// A walk that begins at `start` and ends at `end`.
pub open spec fn walk_between(adj: Seq<Seq<usize>>, walk: Seq<usize>, start: usize, end: usize) -> bool {
    is_walk(adj, walk) && walk[0] == start && walk.last() == end
}

/// No node is recorded as a child twice, under one parent or under two.
pub open spec fn single_parent(adj: Seq<Seq<usize>>) -> bool {
    forall|i: int, k: int, i2: int, k2: int|
        0 <= i < adj.len() && 0 <= k < adj[i].len() && 0 <= i2 < adj.len() && 0 <= k2
            < adj[i2].len() && #[trigger] adj[i][k] == #[trigger] adj[i2][k2] ==> i == i2 && k
            == k2
}

/// What the search finds is a walk from `start` to `end`.
pub proof fn lemma_dfs_path_is_walk(adj: Seq<Seq<usize>>, start: usize, end: usize)
    requires
        insertion_ordered(adj),
        dfs_path(adj, start, end) is Some,
    ensures
        walk_between(adj, dfs_path(adj, start, end).unwrap(), start, end),
    decreases slots_from(adj, start), children_of(adj, start).len() + 1,
{
    if start != end {
        lemma_dfs_below_is_walk(adj, start, end, 0);
        let rest = dfs_below(adj, start, end, 0).unwrap();
        let walk = seq![start] + rest;
        assert forall|k: int| 0 <= k < walk.len() - 1 implies children_of(
            adj,
            #[trigger] walk[k],
        ).contains(walk[k + 1]) by {
            if k > 0 {
                assert(walk[k] == rest[k - 1] && walk[k + 1] == rest[k]);
            }
        }
    }
}

/// What the search finds below a node is a walk from one of its children
/// to `end`.
pub proof fn lemma_dfs_below_is_walk(adj: Seq<Seq<usize>>, parent: usize, end: usize, k: nat)
    requires
        insertion_ordered(adj),
        dfs_below(adj, parent, end, k) is Some,
    ensures
        is_walk(adj, dfs_below(adj, parent, end, k).unwrap()),
        dfs_below(adj, parent, end, k).unwrap().last() == end,
        children_of(adj, parent).contains(dfs_below(adj, parent, end, k).unwrap()[0]),
    decreases slots_from(adj, parent), children_of(adj, parent).len() - k,
{
    let children = children_of(adj, parent);
    assert(k < children.len());
    let child = children[k as int];
    if dfs_path(adj, child, end) is Some {
        lemma_dfs_path_is_walk(adj, child, end);
    } else {
        lemma_dfs_below_is_walk(adj, parent, end, k + 1);
    }
}

/// Once one child leads to `end`, the search below its parent succeeds
/// from any earlier child on.
pub proof fn lemma_dfs_below_finds(adj: Seq<Seq<usize>>, parent: usize, end: usize, k: nat, hit: nat)
    requires
        insertion_ordered(adj),
        k <= hit < children_of(adj, parent).len(),
        dfs_path(adj, children_of(adj, parent)[hit as int], end) is Some,
    ensures
        dfs_below(adj, parent, end, k) is Some,
    decreases hit - k,
{
    if k < hit {
        lemma_dfs_below_finds(adj, parent, end, k + 1, hit);
    }
}

/// Whenever a walk leads from `start` to `end`, the search finds one.
pub proof fn lemma_dfs_finds_walk(adj: Seq<Seq<usize>>, walk: Seq<usize>, start: usize, end: usize)
    requires
        insertion_ordered(adj),
        walk_between(adj, walk, start, end),
    ensures
        dfs_path(adj, start, end) is Some,
    decreases walk.len(),
{
    if start != end {
        let children = children_of(adj, start);
        assert(children.contains(walk[1]));
        let hit = choose|hit: int| 0 <= hit < children.len() && children[hit] == walk[1];
        let tail = walk.skip(1);
        assert forall|k: int| 0 <= k < tail.len() - 1 implies children_of(
            adj,
            #[trigger] tail[k],
        ).contains(tail[k + 1]) by {
            assert(tail[k] == walk[k + 1] && tail[k + 1] == walk[k + 2]);
        }
        lemma_dfs_finds_walk(adj, tail, walk[1], end);
        lemma_dfs_below_finds(adj, start, end, 0, hit as nat);
    }
}

/// Along a walk the nodes come in the order of their insertion.
pub proof fn lemma_walk_ascends(adj: Seq<Seq<usize>>, walk: Seq<usize>, j: int, k: int)
    requires
        insertion_ordered(adj),
        is_walk(adj, walk),
        0 <= j < k < walk.len(),
    ensures
        walk[j] < walk[k],
    decreases k - j,
{
    let before = walk[k - 1];
    let children = children_of(adj, before);
    assert(children.contains(walk[k]));
    let m = choose|m: int| 0 <= m < children.len() && children[m] == walk[k];
    assert(before < adj[before as int][m]);
    if j < k - 1 {
        lemma_walk_ascends(adj, walk, j, k - 1);
    }
}

/// Where no node has two parents, two walks between the same nodes are
/// the same walk: the one that the search finds is the only one.
pub proof fn lemma_walk_unique(
    adj: Seq<Seq<usize>>,
    walk: Seq<usize>,
    other: Seq<usize>,
    start: usize,
    end: usize,
)
    requires
        insertion_ordered(adj),
        single_parent(adj),
        walk_between(adj, walk, start, end),
        walk_between(adj, other, start, end),
    ensures
        walk == other,
    decreases walk.len(),
{
    if walk.len() == 1 {
        if other.len() > 1 {
            lemma_walk_ascends(adj, other, 0, other.len() - 1);
        }
        assert(walk =~= other);
    } else if other.len() == 1 {
        lemma_walk_ascends(adj, walk, 0, walk.len() - 1);
    } else {
        let p = walk[walk.len() - 2];
        let q = other[other.len() - 2];
        let pc = children_of(adj, p);
        let qc = children_of(adj, q);
        assert(pc.contains(walk[walk.len() - 2 + 1]));
        assert(qc.contains(other[other.len() - 2 + 1]));
        let m = choose|m: int| 0 <= m < pc.len() && pc[m] == end;
        let m2 = choose|m2: int| 0 <= m2 < qc.len() && qc[m2] == end;
        assert(adj[p as int][m] == adj[q as int][m2]);
        assert(p == q);
        let w = walk.drop_last();
        let o = other.drop_last();
        assert forall|k: int| 0 <= k < w.len() - 1 implies children_of(adj, #[trigger] w[k]).contains(
            w[k + 1],
        ) by {
            assert(w[k] == walk[k] && w[k + 1] == walk[k + 1]);
        }
        assert forall|k: int| 0 <= k < o.len() - 1 implies children_of(adj, #[trigger] o[k]).contains(
            o[k + 1],
        ) by {
            assert(o[k] == other[k] && o[k + 1] == other[k + 1]);
        }
        lemma_walk_unique(adj, w, o, start, p);
        assert(walk =~= w.push(end));
        assert(other =~= o.push(end));
    }
}

/// Searches depth-first from `start_idx` for `end_idx`, appending the walk
/// to `path` when it is found and leaving `path` as it was otherwise.
pub fn dfs(tree: &Vec<Vec<usize>>, start_idx: usize, end_idx: usize, path: &mut Vec<usize>) -> (found:
    bool)
    requires
        insertion_ordered(adjacency(tree)),
    ensures
        found == dfs_path(adjacency(tree), start_idx, end_idx).is_some(),
        found ==> final(path)@ == old(path)@ + dfs_path(
            adjacency(tree),
            start_idx,
            end_idx,
        ).unwrap(),
        !found ==> final(path)@ == old(path)@,
    decreases slots_from(adjacency(tree), start_idx),
{
    let ghost adj = adjacency(tree);
    let ghost before = path@;
    path.push(start_idx);
    if start_idx == end_idx {
        assert(path@ =~= before + seq![start_idx]);
        return true;
    }
    if start_idx < tree.len() {
        let children = &tree[start_idx];
        let mut k: usize = 0;
        while k < children.len()
            invariant
                0 <= k <= children.len(),
                start_idx < tree.len(),
                start_idx != end_idx,
                adj == adjacency(tree),
                insertion_ordered(adj),
                children@ == children_of(adj, start_idx),
                before == old(path)@,
                path@ == before.push(start_idx),
                dfs_below(adj, start_idx, end_idx, 0) == dfs_below(
                    adj,
                    start_idx,
                    end_idx,
                    k as nat,
                ),
            decreases children.len() - k,
        {
            let child = children[k];
            assert(child == adj[start_idx as int][k as int]);
            let ghost mid = path@;
            if dfs(tree, child, end_idx, path) {
                proof {
                    let walk = dfs_path(adj, child, end_idx).unwrap();
                    assert(dfs_below(adj, start_idx, end_idx, k as nat) == Some(walk));
                    assert(dfs_path(adj, start_idx, end_idx) == Some(seq![start_idx] + walk));
                    assert(path@ == mid + walk);
                    assert(path@ =~= before + (seq![start_idx] + walk));
                }
                return true;
            }
            k = k + 1;
        }
        assert(dfs_below(adj, start_idx, end_idx, k as nat) is None);
    } else {
        assert(dfs_below(adj, start_idx, end_idx, 0) is None);
    }
    path.pop();
    assert(path@ =~= before);
    false
}

} // verus!
