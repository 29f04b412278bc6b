//! An adaptive k-d tree over lattice points: insertion with near-duplicate
//! rejection and exact nearest-neighbour search.

use crate::geometry::{
    axis_sq, lemma_sq_dist_dominates_axis, lemma_sq_dist_self, lemma_sq_dist_symmetric, sq_dist,
    squared_distance,
};
use crate::point_list::{is_nearest, NNIndex, PointList};
use crate::split::{
    all_stored, coord, find_split, lemma_side_contains, lemma_side_no_duplicates,
    lemma_sides_len, lemma_split_divides, mean_ceil, side, split_side, widest_dim,
};
use vstd::prelude::*;

verus! {

/// Two points closer than this squared distance count as the same sample.
pub const MIN_RADIUS_SQ: u128 = 1;

/// The largest leaf capacity for which the split statistics stay in range.
pub const MAX_LEAF_CAP: usize = 0xFFFF_FFFE;

/// The mathematical shape of the tree: what each leaf holds and where each
/// split cuts.
pub enum Shape {
    Leaf { indices: Seq<usize> },
    Split { dim: usize, val: i32, left: Box<Shape>, right: Box<Shape> },
}

/// The two stored points are far enough apart to live in one leaf.
pub open spec fn separated<const DIMS: usize>(points: Seq<[i32; DIMS]>, a: usize, b: usize) -> bool {
    sq_dist(points[a as int]@, points[b as int]@) >= MIN_RADIUS_SQ
}

/// Some point listed in `indices` lies within the minimum radius of `p`.
pub open spec fn too_close<const DIMS: usize>(
    points: Seq<[i32; DIMS]>,
    indices: Seq<usize>,
    p: [i32; DIMS],
) -> bool {
    exists|k: int|
        0 <= k < indices.len() && sq_dist(points[#[trigger] indices[k] as int]@, p@)
            < MIN_RADIUS_SQ
}

/// A leaf's invariant: within capacity, only stored points below `bound`,
/// no index twice, and all of them pairwise apart.
pub open spec fn leaf_wf<const DIMS: usize>(
    points: Seq<[i32; DIMS]>,
    bound: int,
    indices: Seq<usize>,
    leaf_cap: usize,
) -> bool {
    &&& indices.len() <= leaf_cap
    &&& indices.no_duplicates()
    &&& forall|k: int| 0 <= k < indices.len() ==> #[trigger] indices[k] < bound
    &&& forall|a: usize, b: usize|
        #![trigger indices.contains(a), indices.contains(b)]
        indices.contains(a) && indices.contains(b) && a != b ==> separated(points, a, b)
}

impl Shape {
    /// Index `i` lives in some leaf of this subtree.
    pub open spec fn holds(self, i: usize) -> bool
        decreases self,
    {
        match self {
            Shape::Leaf { indices } => indices.contains(i),
            Shape::Split { left, right, .. } => left.holds(i) || right.holds(i),
        }
    }

    /// The subtree's invariant over the stored points with index below
    /// `bound`: every leaf is well formed, and each split sends the points
    /// whose coordinate is below its value left and the others right.
    pub open spec fn wf<const DIMS: usize>(
        self,
        points: Seq<[i32; DIMS]>,
        bound: int,
        leaf_cap: usize,
    ) -> bool
        decreases self,
    {
        match self {
            Shape::Leaf { indices } => leaf_wf(points, bound, indices, leaf_cap),
            Shape::Split { dim, val, left, right } => {
                &&& dim < DIMS
                &&& left.wf(points, bound, leaf_cap)
                &&& right.wf(points, bound, leaf_cap)
                &&& forall|i: usize| #[trigger] left.holds(i) ==> coord(points, i, dim as int) < val
                &&& forall|i: usize| #[trigger]
                    right.holds(i) ==> coord(points, i, dim as int) >= val
            },
        }
    }

    /// The indices in the leaf that a descent for `p` ends in.
    pub open spec fn leaf_for<const DIMS: usize>(self, p: [i32; DIMS]) -> Seq<usize>
        decreases self,
    {
        match self {
            Shape::Leaf { indices } => indices,
            Shape::Split { dim, val, left, right } => if p@[dim as int] < val {
                left.leaf_for(p)
            } else {
                right.leaf_for(p)
            },
        }
    }
}

/// The split that takes the place of a leaf that `indices` would overfill:
/// it cuts the widest axis at its mean and hands each point to its side.
pub open spec fn split_of<const DIMS: usize>(points: Seq<[i32; DIMS]>, indices: Seq<usize>) -> Shape {
    let d = widest_dim(points, indices, DIMS as int);
    let v = mean_ceil(points, indices, d);
    Shape::Split {
        dim: d as usize,
        val: v as i32,
        left: Box::new(Shape::Leaf { indices: side(points, indices, d, v, true) }),
        right: Box::new(Shape::Leaf { indices: side(points, indices, d, v, false) }),
    }
}

impl Shape {
    /// The subtree after the stored point `idx` has descended into it and
    /// joined the leaf it ends in, which is split when it is full.
    pub open spec fn inserted<const DIMS: usize>(
        self,
        points: Seq<[i32; DIMS]>,
        idx: usize,
        leaf_cap: usize,
    ) -> Shape
        decreases self,
    {
        match self {
            Shape::Leaf { indices } => if indices.len() < leaf_cap {
                Shape::Leaf { indices: indices.push(idx) }
            } else {
                split_of(points, indices.push(idx))
            },
            Shape::Split { dim, val, left, right } => if coord(points, idx, dim as int) < val {
                Shape::Split {
                    dim,
                    val,
                    left: Box::new(left.inserted(points, idx, leaf_cap)),
                    right,
                }
            } else {
                Shape::Split {
                    dim,
                    val,
                    left,
                    right: Box::new(right.inserted(points, idx, leaf_cap)),
                }
            },
        }
    }
}

/// A node of the tree.
enum Node {
    Split { split_dim: usize, split_val: i32, left: Box<Node>, right: Box<Node> },
    Leaf { point_indices: Vec<usize> },
}

impl Node {
    /// The node's shape.
    spec fn shape(self) -> Shape
        decreases self,
    {
        match self {
            Node::Leaf { point_indices } => Shape::Leaf { indices: point_indices@ },
            Node::Split { split_dim, split_val, left, right } => Shape::Split {
                dim: split_dim,
                val: split_val,
                left: Box::new(left.shape()),
                right: Box::new(right.shape()),
            },
        }
    }
}

/// The best candidate of a nearest-neighbour search so far.
#[derive(Clone, Copy)]
struct Candidate {
    idx: usize,
    dist_sq: u128,
}

/// `best` names a stored point below the bound together with its true
/// squared distance from `query`.
pub open spec fn names_point<const DIMS: usize>(
    points: Seq<[i32; DIMS]>,
    query: [i32; DIMS],
    best: Option<(usize, int)>,
    bound: int,
) -> bool {
    match best {
        Some((i, dist_sq)) => i < bound && dist_sq == sq_dist(points[i as int]@, query@),
        None => true,
    }
}

/// `best` is at least as near to `query` as the stored point `j`.
pub open spec fn beats<const DIMS: usize>(
    points: Seq<[i32; DIMS]>,
    query: [i32; DIMS],
    best: Option<(usize, int)>,
    j: usize,
) -> bool {
    match best {
        Some((_, dist_sq)) => dist_sq <= sq_dist(points[j as int]@, query@),
        None => false,
    }
}

/// `later` is no farther from the query than `earlier`.
pub open spec fn no_worse(earlier: Option<(usize, int)>, later: Option<(usize, int)>) -> bool {
    match earlier {
        Some((_, dist_sq)) => later is Some && later.unwrap().1 <= dist_sq,
        None => true,
    }
}

/// A candidate as its index and squared distance.
spec fn seen(best: Option<Candidate>) -> Option<(usize, int)> {
    match best {
        Some(c) => Some((c.idx, c.dist_sq as int)),
        None => None,
    }
}

/// The candidate after the point under index `i` has been looked at: the
/// point takes the place of a candidate that is strictly farther.
pub open spec fn look_at<const DIMS: usize>(
    points: Seq<[i32; DIMS]>,
    query: [i32; DIMS],
    best: Option<(usize, int)>,
    i: usize,
) -> Option<(usize, int)> {
    let dist_sq = sq_dist(points[i as int]@, query@);
    match best {
        Some((_, best_sq)) => if dist_sq < best_sq {
            Some((i, dist_sq))
        } else {
            best
        },
        None => Some((i, dist_sq)),
    }
}

/// The candidate after the listed points have been looked at in turn.
pub open spec fn scan<const DIMS: usize>(
    points: Seq<[i32; DIMS]>,
    indices: Seq<usize>,
    query: [i32; DIMS],
    best: Option<(usize, int)>,
) -> Option<(usize, int)>
    decreases indices.len(),
{
    if indices.len() == 0 {
        best
    } else {
        look_at(points, query, scan(points, indices.drop_last(), query, best), indices.last())
    }
}

/// Whether a search that holds `best` has to look beyond a split plane:
/// only when the plane is strictly nearer to the query than `best`.
pub open spec fn must_cross(best: Option<(usize, int)>, query_coord: int, val: int) -> bool {
    match best {
        Some((_, best_sq)) => (query_coord - val) * (query_coord - val) < best_sq,
        None => true,
    }
}

impl Shape {
    /// The candidate after a search of this subtree: the side of each split
    /// on which the query lies is searched first, the other side only
    /// where the search has to cross the plane, and every leaf is scanned
    /// in its listed order.
    pub open spec fn search<const DIMS: usize>(
        self,
        points: Seq<[i32; DIMS]>,
        query: [i32; DIMS],
        best: Option<(usize, int)>,
    ) -> Option<(usize, int)>
        decreases self,
    {
        match self {
            Shape::Leaf { indices } => scan(points, indices, query, best),
            Shape::Split { dim, val, left, right } => if query@[dim as int] < val {
                let near = left.search(points, query, best);
                if must_cross(near, query@[dim as int] as int, val as int) {
                    right.search(points, query, near)
                } else {
                    near
                }
            } else {
                let near = right.search(points, query, best);
                if must_cross(near, query@[dim as int] as int, val as int) {
                    left.search(points, query, near)
                } else {
                    near
                }
            },
        }
    }
}

/// An adaptive k-d tree over points of `DIMS` coordinates whose leaves hold
/// up to `LEAF_CAP` point indices.
pub struct KdTree<const DIMS: usize, const LEAF_CAP: usize> {
    points: Vec<[i32; DIMS]>,
    root: Node,
}

impl<const DIMS: usize, const LEAF_CAP: usize> View for KdTree<DIMS, LEAF_CAP> {
    type V = Seq<[i32; DIMS]>;

    /// The accepted points in insertion order.
    closed spec fn view(&self) -> Seq<[i32; DIMS]> {
        self.points@
    }
}

impl<const DIMS: usize, const LEAF_CAP: usize> KdTree<DIMS, LEAF_CAP> {
    /// The shape of the tree over the accepted points.
    pub closed spec fn shape(&self) -> Shape {
        self.root.shape()
    }

    /// The index's invariant: the tree is well formed over the accepted
    /// points and every accepted point lives in one of its leaves.
    pub open spec fn wf(&self) -> bool {
        &&& 0 < LEAF_CAP <= MAX_LEAF_CAP
        &&& self.shape().wf(self@, self@.len() as int, LEAF_CAP)
        &&& forall|i: usize| i < self@.len() ==> #[trigger] self.shape().holds(i)
    }

    /// Whether a point of the leaf lies within the minimum radius of `p`.
    fn leaf_too_close(points: &Vec<[i32; DIMS]>, point_indices: &Vec<usize>, p: &[i32; DIMS]) -> (r:
        bool)
        requires
            all_stored(points@, point_indices@),
        ensures
            r == too_close(points@, point_indices@, *p),
    {
        let mut k: usize = 0;
        while k < point_indices.len()
            invariant
                k <= point_indices@.len(),
                all_stored(points@, point_indices@),
                forall|m: int|
                    0 <= m < k ==> sq_dist(points@[#[trigger] point_indices@[m] as int]@, p@)
                        >= MIN_RADIUS_SQ,
            decreases point_indices@.len() - k,
        {
            if squared_distance(&points[point_indices[k]], p) < MIN_RADIUS_SQ {
                return true;
            }
            k = k + 1;
        }
        false
    }

    /// Lets the stored point `point_idx` descend from `node` into the leaf
    /// that receives it. The point is refused when that leaf holds one too
    /// close to it; a full leaf is split around it.
    fn add_point_to_node(points: &Vec<[i32; DIMS]>, point_idx: usize, node: &mut Node) -> (accepted:
        bool)
        requires
            0 < LEAF_CAP <= MAX_LEAF_CAP,
            point_idx < points@.len(),
            old(node).shape().wf(points@, point_idx as int, LEAF_CAP),
        ensures
            accepted == !too_close(
                points@,
                old(node).shape().leaf_for(points@[point_idx as int]),
                points@[point_idx as int],
            ),
            accepted ==> final(node).shape() == old(node).shape().inserted(
                points@,
                point_idx,
                LEAF_CAP,
            ),
            !accepted ==> final(node).shape() == old(node).shape(),
        decreases *old(node),
    {
        match node {
            Node::Split { split_dim, split_val, left, right } => {
                let point = points[point_idx];
                if point[*split_dim] < *split_val {
                    Self::add_point_to_node(points, point_idx, left)
                } else {
                    Self::add_point_to_node(points, point_idx, right)
                }
            },
            Node::Leaf { point_indices } => {
                let new_point = points[point_idx];
                proof {
                    lemma_leaf_stored(points@, point_idx as int, point_indices@, LEAF_CAP);
                }
                if Self::leaf_too_close(points, point_indices, &new_point) {
                    return false;
                }
                if point_indices.len() < LEAF_CAP {
                    point_indices.push(point_idx);
                    return true;
                }
                let ghost before = point_indices@;
                point_indices.push(point_idx);
                proof {
                    assert(before.len() >= 1);
                    assert(point_indices@[0] == before[0]);
                    assert(sq_dist(points@[before[0] as int]@, new_point@) >= MIN_RADIUS_SQ);
                    assert(DIMS > 0);
                    assert forall|k: int| 0 <= k < point_indices@.len() implies #[trigger] point_indices@[k]
                        < points@.len() by {
                        if k < before.len() {
                            assert(point_indices@[k] == before[k]);
                        }
                    }
                }
                let ghost all = point_indices@;
                let (split_dim, split_val) = find_split(points, point_indices);
                let low = split_side(points, point_indices, split_dim, split_val, true);
                let high = split_side(points, point_indices, split_dim, split_val, false);
                assert(all == before.push(point_idx));
                assert(old(node).shape() == Shape::Leaf { indices: before });
                assert(before.len() >= LEAF_CAP);
                assert(split_of(points@, all) == Shape::Split {
                    dim: split_dim,
                    val: split_val,
                    left: Box::new(Shape::Leaf { indices: low@ }),
                    right: Box::new(Shape::Leaf { indices: high@ }),
                });
                let left = Node::Leaf { point_indices: low };
                let right = Node::Leaf { point_indices: high };
                assert(left.shape() == Shape::Leaf { indices: low@ });
                assert(right.shape() == Shape::Leaf { indices: high@ });
                *node = Node::Split { split_dim, split_val, left: Box::new(left), right: Box::new(right) };
                true
            },
        }
    }

    /// The index that a search for the point nearest to `query` ends
    /// with.
    pub open spec fn nearest_to(&self, query: [i32; DIMS]) -> Option<usize> {
        match self.shape().search(self@, query, None) {
            Some((i, _)) => Some(i),
            None => None,
        }
    }

    /// Whether the index refuses `p`: the leaf that a descent for `p` ends
    /// in holds a point within the minimum radius of it.
    pub open spec fn rejects(&self, p: [i32; DIMS]) -> bool {
        too_close(self@, self.shape().leaf_for(p), p)
    }

    /// Scans one leaf and keeps the nearer of `best` and its points.
    fn closest_point_in_leaf(
        &self,
        query: &[i32; DIMS],
        point_indices: &Vec<usize>,
        best: Option<Candidate>,
    ) -> (out: Option<Candidate>)
        requires
            all_stored(self@, point_indices@),
        ensures
            seen(out) == scan(self@, point_indices@, *query, seen(best)),
    {
        let mut out = best;
        let mut k: usize = 0;
        while k < point_indices.len()
            invariant
                k <= point_indices@.len(),
                all_stored(self@, point_indices@),
                seen(out) == scan(self@, point_indices@.take(k as int), *query, seen(best)),
            decreases point_indices.len() - k,
        {
            let idx = point_indices[k];
            let dist_sq = squared_distance(&self.points[idx], query);
            assert(point_indices@.take(k + 1).drop_last() =~= point_indices@.take(k as int));
            let closer = match out {
                Some(c) => dist_sq < c.dist_sq,
                None => true,
            };
            if closer {
                out = Some(Candidate { idx, dist_sq });
            }
            k = k + 1;
        }
        assert(point_indices@.take(k as int) =~= point_indices@);
        out
    }

    /// Searches one subtree, nearer side first, and keeps the nearer of
    /// `best` and its points.
    fn closest_point_in_node(&self, query: &[i32; DIMS], node: &Node, best: Option<Candidate>) -> (out:
        Option<Candidate>)
        requires
            node.shape().wf(self@, self@.len() as int, LEAF_CAP),
        ensures
            seen(out) == node.shape().search(self@, *query, seen(best)),
        decreases node,
    {
        match node {
            Node::Split { split_dim, split_val, left, right } => {
                let dim_dist: i64 = query[*split_dim] as i64 - *split_val as i64;
                assert(0 <= dim_dist * dim_dist <= 0xFFFF_FFFE_0000_0001) by (nonlinear_arith)
                    requires
                        -0xFFFF_FFFF <= dim_dist <= 0xFFFF_FFFF,
                ;
                let plane_sq: u128 = (dim_dist as i128 * dim_dist as i128) as u128;
                let (near_side, far_side) = if dim_dist < 0 {
                    (left, right)
                } else {
                    (right, left)
                };
                let near = self.closest_point_in_node(query, near_side, best);
                let visit = match near {
                    Some(c) => plane_sq < c.dist_sq,
                    None => true,
                };
                if visit {
                    self.closest_point_in_node(query, far_side, near)
                } else {
                    near
                }
            },
            Node::Leaf { point_indices } => {
                proof {
                    lemma_leaf_stored(self@, self@.len() as int, point_indices@, LEAF_CAP);
                }
                self.closest_point_in_leaf(query, point_indices, best)
            },
        }
    }

    /// Every accepted point lives in exactly one leaf of the index, and no
    /// leaf lists anything else.
    pub proof fn lemma_each_point_in_one_leaf(&self, i: usize)
        requires
            self.wf(),
        ensures
            self.shape().leaves_holding(i) == if i < self@.len() {
                1nat
            } else {
                0nat
            },
    {
        lemma_one_leaf_per_point(self.shape(), self@, self@.len() as int, LEAF_CAP, i);
        if self.shape().holds(i) {
            lemma_holds_in_bound(self.shape(), self@, self@.len() as int, LEAF_CAP, i);
        }
    }

    /// A point is refused only when an accepted point lies within the
    /// minimum radius of it.
    pub proof fn lemma_rejected_has_neighbour(&self, p: [i32; DIMS]) -> (i: usize)
        requires
            self.wf(),
            self.rejects(p),
        ensures
            i < self@.len(),
            sq_dist(self@[i as int]@, p@) < MIN_RADIUS_SQ,
    {
        let leaf = self.shape().leaf_for(p);
        lemma_leaf_for_wf(self.shape(), self@, self@.len() as int, LEAF_CAP, p);
        let k = choose|k: int|
            0 <= k < leaf.len() && sq_dist(self@[#[trigger] leaf[k] as int]@, p@) < MIN_RADIUS_SQ;
        leaf[k]
    }
}

impl<const DIMS: usize, const LEAF_CAP: usize> PointList<DIMS> for KdTree<DIMS, LEAF_CAP> {
    open spec fn points(&self) -> Seq<[i32; DIMS]> {
        self@
    }

    open spec fn valid(&self) -> bool {
        self.wf()
    }

    open spec fn admissible() -> bool {
        0 < LEAF_CAP <= MAX_LEAF_CAP
    }

    /// An index without points, whose root is an empty leaf.
    fn empty() -> (tree: Self)
        ensures
            tree@ == Seq::<[i32; DIMS]>::empty(),
            tree.shape() == (Shape::Leaf { indices: Seq::<usize>::empty() }),
    {
        KdTree { points: Vec::new(), root: Node::Leaf { point_indices: Vec::new() } }
    }

    /// Tries to store `point`. It is refused, and the index left as it
    /// was, when the leaf that receives it holds a point within the minimum
    /// radius; otherwise it becomes the newest accepted point. Either way
    /// the index refuses the same point afterwards.
    fn add_point(&mut self, point: [i32; DIMS]) -> (accepted: bool)
        ensures
            accepted == !old(self).rejects(point),
            final(self).rejects(point),
            accepted ==> final(self).shape() == old(self).shape().inserted(
                old(self)@.push(point),
                old(self)@.len() as usize,
                LEAF_CAP,
            ),
            !accepted ==> final(self).shape() == old(self).shape(),
    {
        let point_idx = self.points.len();
        let ghost before = self.points@;
        let ghost shape = self.root.shape();
        self.points.push(point);
        proof {
            lemma_wf_same_points(shape, before, self.points@, point_idx as int, LEAF_CAP);
            lemma_too_close_same_points(
                shape,
                before,
                self.points@,
                point_idx as int,
                LEAF_CAP,
                point,
            );
        }
        if !Self::add_point_to_node(&self.points, point_idx, &mut self.root) {
            self.points.pop();
            assert(self.points@ == before);
            return false;
        }
        proof {
            lemma_inserted_wf(shape, self.points@, point_idx, LEAF_CAP);
            lemma_inserted_rejects(shape, self.points@, point_idx, LEAF_CAP);
        }
        true
    }

    /// The number of accepted points.
    fn len(&self) -> (n: usize) {
        self.points.len()
    }

    /// The `i`-th accepted point.
    fn index(&self, i: usize) -> (p: &[i32; DIMS]) {
        &self.points[i]
    }
}

impl<const DIMS: usize, const LEAF_CAP: usize> NNIndex<DIMS> for KdTree<DIMS, LEAF_CAP> {
    /// The index of an accepted point nearest to `point`, or `None` when
    /// the index is empty: an exact search, nearer side first, that passes
    /// over a far side only when the split plane is no nearer than the best
    /// point so far.
    fn closest_point(&self, point: [i32; DIMS]) -> (nearest: Option<usize>)
        ensures
            nearest == self.nearest_to(point),
    {
        let n = self.points.len();
        proof {
            lemma_search_is_nearest(self.shape(), self@, LEAF_CAP, point);
        }
        if n == 0 {
            return None;
        }
        match self.closest_point_in_node(&point, &self.root, None) {
            Some(c) => Some(c.idx),
            None => None,
        }
    }
}

/// A scan keeps what its candidate names, ends no farther from the query
/// than it began, and ends at least as near as every point that it looked
/// at.
pub proof fn lemma_scan_best<const DIMS: usize>(
    points: Seq<[i32; DIMS]>,
    indices: Seq<usize>,
    query: [i32; DIMS],
    best: Option<(usize, int)>,
    bound: int,
)
    requires
        forall|k: int| 0 <= k < indices.len() ==> #[trigger] indices[k] < bound,
        bound <= points.len(),
        names_point(points, query, best, bound),
    ensures
        names_point(points, query, scan(points, indices, query, best), bound),
        no_worse(best, scan(points, indices, query, best)),
        forall|j: usize|
            indices.contains(j) ==> beats(points, query, scan(points, indices, query, best), j),
    decreases indices.len(),
{
    if indices.len() > 0 {
        let rest = indices.drop_last();
        let last = indices.last();
        assert forall|k: int| 0 <= k < rest.len() implies #[trigger] rest[k] < bound by {
            assert(rest[k] == indices[k]);
        }
        lemma_scan_best(points, rest, query, best, bound);
        assert(indices[indices.len() - 1] < bound);
        let before = scan(points, rest, query, best);
        let after = scan(points, indices, query, best);
        assert forall|j: usize| indices.contains(j) implies beats(points, query, after, j) by {
            let k = choose|k: int| 0 <= k < indices.len() && indices[k] == j;
            if k < rest.len() {
                assert(rest[k] == j);
                assert(rest.contains(j));
                assert(beats(points, query, before, j));
            }
        }
    }
}

/// No point beyond a split plane is nearer to the query than the plane
/// itself, so a candidate at most as far as the plane beats every point
/// on the side away from the query.
proof fn lemma_far_side<const DIMS: usize>(
    shape: Shape,
    points: Seq<[i32; DIMS]>,
    bound: int,
    leaf_cap: usize,
    query: [i32; DIMS],
    best: Option<(usize, int)>,
    j: usize,
)
    requires
        shape is Split,
        shape.wf(points, bound, leaf_cap),
        bound <= points.len(),
        !must_cross(best, query@[shape->dim as int] as int, shape->val as int),
        if query@[shape->dim as int] < shape->val {
            shape->right.holds(j)
        } else {
            shape->left.holds(j)
        },
    ensures
        beats(points, query, best, j),
{
    let dim = shape->dim as int;
    let val = shape->val as int;
    let q: int = query@[dim] as int;
    let c: int = coord(points, j, dim);
    if q < val {
        lemma_holds_in_bound(*shape->right, points, bound, leaf_cap, j);
    } else {
        lemma_holds_in_bound(*shape->left, points, bound, leaf_cap, j);
    }
    lemma_sq_dist_dominates_axis(points[j as int]@, query@, DIMS as int, dim);
    assert(axis_sq(points[j as int]@, query@, dim) == (c - q) * (c - q));
    assert((c - q) * (c - q) >= (q - val) * (q - val)) by (nonlinear_arith)
        requires
            (c >= val && val > q) || (c < val && val <= q),
    ;
}

/// A search keeps what its candidate names, ends no farther from the query
/// than it began, and ends at least as near as every point of the subtree,
/// the ones on sides that it passed over included.
pub proof fn lemma_search_best<const DIMS: usize>(
    shape: Shape,
    points: Seq<[i32; DIMS]>,
    bound: int,
    leaf_cap: usize,
    query: [i32; DIMS],
    best: Option<(usize, int)>,
)
    requires
        shape.wf(points, bound, leaf_cap),
        bound <= points.len(),
        names_point(points, query, best, bound),
    ensures
        names_point(points, query, shape.search(points, query, best), bound),
        no_worse(best, shape.search(points, query, best)),
        forall|j: usize|
            shape.holds(j) ==> beats(points, query, shape.search(points, query, best), j),
    decreases shape,
{
    let out = shape.search(points, query, best);
    match shape {
        Shape::Leaf { indices } => {
            lemma_scan_best(points, indices, query, best, bound);
        },
        Shape::Split { dim, val, left, right } => {
            let (near_side, far_side) = if query@[dim as int] < val {
                (*left, *right)
            } else {
                (*right, *left)
            };
            lemma_search_best(near_side, points, bound, leaf_cap, query, best);
            let near = near_side.search(points, query, best);
            let crossed = must_cross(near, query@[dim as int] as int, val as int);
            if crossed {
                lemma_search_best(far_side, points, bound, leaf_cap, query, near);
            }
            assert forall|j: usize| shape.holds(j) implies beats(points, query, out, j) by {
                if near_side.holds(j) {
                    assert(beats(points, query, near, j));
                } else {
                    assert(far_side.holds(j));
                    if !crossed {
                        lemma_far_side(shape, points, bound, leaf_cap, query, near, j);
                    }
                }
            }
        },
    }
}

/// The search of an index finds a point that none is nearer to the query
/// than, and finds none only where there is none.
pub proof fn lemma_search_is_nearest<const DIMS: usize>(
    shape: Shape,
    points: Seq<[i32; DIMS]>,
    leaf_cap: usize,
    query: [i32; DIMS],
)
    requires
        points.len() <= usize::MAX,
        shape.wf(points, points.len() as int, leaf_cap),
        forall|i: usize| i < points.len() ==> #[trigger] shape.holds(i),
    ensures
        shape.search(points, query, None) is None <==> points.len() == 0,
        shape.search(points, query, None) is Some ==> is_nearest(
            points,
            query,
            shape.search(points, query, None).unwrap().0,
        ),
{
    let out = shape.search(points, query, None);
    lemma_search_best(shape, points, points.len() as int, leaf_cap, query, None);
    if points.len() > 0 {
        assert(shape.holds(0));
        assert(beats(points, query, out, 0));
        assert forall|j: int| 0 <= j < points.len() implies out.unwrap().1 <= sq_dist(
            #[trigger] points[j]@,
            query@,
        ) by {
            assert(shape.holds(j as usize));
            assert(beats(points, query, out, j as usize));
        }
    }
}

/// The indices of a well-formed leaf name stored points.
proof fn lemma_leaf_stored<const DIMS: usize>(
    points: Seq<[i32; DIMS]>,
    bound: int,
    indices: Seq<usize>,
    leaf_cap: usize,
)
    requires
        leaf_wf(points, bound, indices, leaf_cap),
        bound <= points.len(),
    ensures
        all_stored(points, indices),
{
}

/// A subtree that is well formed under one bound is so under a larger one.
proof fn lemma_wf_widen<const DIMS: usize>(
    shape: Shape,
    points: Seq<[i32; DIMS]>,
    bound: int,
    wider: int,
    leaf_cap: usize,
)
    requires
        shape.wf(points, bound, leaf_cap),
        bound <= wider,
    ensures
        shape.wf(points, wider, leaf_cap),
    decreases shape,
{
    match shape {
        Shape::Leaf { indices } => {},
        Shape::Split { left, right, .. } => {
            lemma_wf_widen(*left, points, bound, wider, leaf_cap);
            lemma_wf_widen(*right, points, bound, wider, leaf_cap);
        },
    }
}

/// Well-formedness looks only at the stored points below the bound.
pub proof fn lemma_wf_same_points<const DIMS: usize>(
    shape: Shape,
    points: Seq<[i32; DIMS]>,
    others: Seq<[i32; DIMS]>,
    bound: int,
    leaf_cap: usize,
)
    requires
        shape.wf(points, bound, leaf_cap),
        forall|i: int| 0 <= i < bound ==> points[i] == others[i],
    ensures
        shape.wf(others, bound, leaf_cap),
    decreases shape,
{
    match shape {
        Shape::Leaf { indices } => {
            assert forall|a: usize, b: usize|
                #![trigger indices.contains(a), indices.contains(b)]
                indices.contains(a) && indices.contains(b) && a != b implies separated(
                others,
                a,
                b,
            ) by {
                lemma_holds_in_bound(shape, points, bound, leaf_cap, a);
                lemma_holds_in_bound(shape, points, bound, leaf_cap, b);
                assert(separated(points, a, b));
            }
        },
        Shape::Split { dim, val, left, right } => {
            lemma_wf_same_points(*left, points, others, bound, leaf_cap);
            lemma_wf_same_points(*right, points, others, bound, leaf_cap);
            assert forall|i: usize| #[trigger] left.holds(i) implies coord(others, i, dim as int)
                < val by {
                lemma_holds_in_bound(*left, points, bound, leaf_cap, i);
            }
            assert forall|i: usize| #[trigger] right.holds(i) implies coord(others, i, dim as int)
                >= val by {
                lemma_holds_in_bound(*right, points, bound, leaf_cap, i);
            }
        },
    }
}

/// The leaf that a descent ends in is a well-formed leaf of the subtree.
pub proof fn lemma_leaf_for_wf<const DIMS: usize>(
    shape: Shape,
    points: Seq<[i32; DIMS]>,
    bound: int,
    leaf_cap: usize,
    p: [i32; DIMS],
)
    requires
        shape.wf(points, bound, leaf_cap),
    ensures
        leaf_wf(points, bound, shape.leaf_for(p), leaf_cap),
        forall|i: usize| #[trigger] shape.leaf_for(p).contains(i) ==> shape.holds(i),
    decreases shape,
{
    match shape {
        Shape::Leaf { indices } => {
            assert(shape.leaf_for(p) == indices);
        },
        Shape::Split { dim, val, left, right } => {
            if p@[dim as int] < val {
                lemma_leaf_for_wf(*left, points, bound, leaf_cap, p);
                assert(shape.leaf_for(p) == left.leaf_for(p));
                assert forall|i: usize| #[trigger]
                    shape.leaf_for(p).contains(i) implies shape.holds(i) by {
                    assert(left.leaf_for(p).contains(i));
                    assert(left.holds(i));
                }
            } else {
                lemma_leaf_for_wf(*right, points, bound, leaf_cap, p);
                assert(shape.leaf_for(p) == right.leaf_for(p));
                assert forall|i: usize| #[trigger]
                    shape.leaf_for(p).contains(i) implies shape.holds(i) by {
                    assert(right.leaf_for(p).contains(i));
                    assert(right.holds(i));
                }
            }
        },
    }
}

/// Whether a point is too close to its receiving leaf looks only at the
/// stored points below the bound.
pub proof fn lemma_too_close_same_points<const DIMS: usize>(
    shape: Shape,
    points: Seq<[i32; DIMS]>,
    others: Seq<[i32; DIMS]>,
    bound: int,
    leaf_cap: usize,
    p: [i32; DIMS],
)
    requires
        shape.wf(points, bound, leaf_cap),
        forall|i: int| 0 <= i < bound ==> points[i] == others[i],
    ensures
        too_close(points, shape.leaf_for(p), p) == too_close(others, shape.leaf_for(p), p),
{
    lemma_leaf_for_wf(shape, points, bound, leaf_cap, p);
    let leaf = shape.leaf_for(p);
    if too_close(points, leaf, p) {
        let k = choose|k: int|
            0 <= k < leaf.len() && sq_dist(points[#[trigger] leaf[k] as int]@, p@) < MIN_RADIUS_SQ;
        assert(sq_dist(others[leaf[k] as int]@, p@) < MIN_RADIUS_SQ);
    }
    if too_close(others, leaf, p) {
        let k = choose|k: int|
            0 <= k < leaf.len() && sq_dist(others[#[trigger] leaf[k] as int]@, p@) < MIN_RADIUS_SQ;
        assert(sq_dist(points[leaf[k] as int]@, p@) < MIN_RADIUS_SQ);
    }
}

/// A leaf joined by a stored point that is not too close to it keeps every
/// part of its invariant but, perhaps, the capacity.
proof fn lemma_leaf_joined<const DIMS: usize>(
    points: Seq<[i32; DIMS]>,
    indices: Seq<usize>,
    idx: usize,
    leaf_cap: usize,
)
    requires
        leaf_cap <= MAX_LEAF_CAP,
        idx < points.len(),
        leaf_wf(points, idx as int, indices, leaf_cap),
        !too_close(points, indices, points[idx as int]),
    ensures
        leaf_wf(points, idx + 1, indices.push(idx), (leaf_cap + 1) as usize),
        forall|i: usize| indices.push(idx).contains(i) <==> indices.contains(i) || i == idx,
{
    let all = indices.push(idx);
    assert forall|j: int, k: int| 0 <= j < all.len() && 0 <= k < all.len() && j != k implies all[j]
        != all[k] by {
        if j < indices.len() {
            assert(indices[j] < idx);
        }
        if k < indices.len() {
            assert(indices[k] < idx);
        }
    }
    assert forall|k: int| 0 <= k < all.len() implies #[trigger] all[k] < idx + 1 by {
        if k < indices.len() {
            assert(indices[k] < idx);
        }
    }
    assert forall|i: usize| all.contains(i) <==> indices.contains(i) || i == idx by {
        if all.contains(i) {
            let k = choose|k: int| 0 <= k < all.len() && all[k] == i;
            if k < indices.len() {
                assert(indices[k] == i);
            }
        }
        if indices.contains(i) {
            let k = choose|k: int| 0 <= k < indices.len() && indices[k] == i;
            assert(all[k] == i);
        }
        assert(all[indices.len() as int] == idx);
    }
    assert forall|a: usize, b: usize|
        #![trigger all.contains(a), all.contains(b)]
        all.contains(a) && all.contains(b) && a != b implies separated(points, a, b) by {
        if a == idx {
            let k = choose|k: int| 0 <= k < indices.len() && indices[k] == b;
            assert(sq_dist(points[indices[k] as int]@, points[idx as int]@) >= MIN_RADIUS_SQ);
            lemma_sq_dist_symmetric(points[b as int]@, points[a as int]@, DIMS as int);
        } else if b == idx {
            let k = choose|k: int| 0 <= k < indices.len() && indices[k] == a;
            assert(sq_dist(points[indices[k] as int]@, points[idx as int]@) >= MIN_RADIUS_SQ);
        }
    }
}

/// The split of an overfull leaf is a well-formed subtree that holds just
/// what the leaf held.
proof fn lemma_split_of_wf<const DIMS: usize>(
    points: Seq<[i32; DIMS]>,
    all: Seq<usize>,
    bound: int,
    leaf_cap: usize,
)
    requires
        0 < leaf_cap <= MAX_LEAF_CAP,
        bound <= points.len(),
        all.len() == leaf_cap + 1,
        leaf_wf(points, bound, all, (leaf_cap + 1) as usize),
    ensures
        split_of(points, all).wf(points, bound, leaf_cap),
        forall|i: usize| split_of(points, all).holds(i) <==> all.contains(i),
{
    let d = widest_dim(points, all, DIMS as int);
    let v = mean_ceil(points, all, d);
    let low = side(points, all, d, v, true);
    let high = side(points, all, d, v, false);
    assert(all.contains(all[0]) && all.contains(all[1]));
    assert(separated(points, all[0], all[1]));
    lemma_split_divides(points, all);
    lemma_sides_len(points, all, d, v);
    lemma_side_no_duplicates(points, all, d, v, true);
    lemma_side_no_duplicates(points, all, d, v, false);
    assert forall|i: usize| low.contains(i) <==> all.contains(i) && coord(points, i, d) < v by {
        lemma_side_contains(points, all, d, v, true, i);
    }
    assert forall|i: usize| high.contains(i) <==> all.contains(i) && coord(points, i, d) >= v by {
        lemma_side_contains(points, all, d, v, false, i);
    }
    assert forall|k: int| 0 <= k < low.len() implies #[trigger] low[k] < bound by {
        assert(low.contains(low[k]));
        let j = choose|j: int| 0 <= j < all.len() && all[j] == low[k];
    }
    assert forall|k: int| 0 <= k < high.len() implies #[trigger] high[k] < bound by {
        assert(high.contains(high[k]));
        let j = choose|j: int| 0 <= j < all.len() && all[j] == high[k];
    }
    let left = Shape::Leaf { indices: low };
    let right = Shape::Leaf { indices: high };
    assert(left.wf(points, bound, leaf_cap));
    assert(right.wf(points, bound, leaf_cap));
    let split = split_of(points, all);
    assert(split == Shape::Split {
        dim: d as usize,
        val: v as i32,
        left: Box::new(left),
        right: Box::new(right),
    });
    assert forall|i: usize| split.holds(i) <==> all.contains(i) by {
        assert(split.holds(i) == (left.holds(i) || right.holds(i)));
    }
}

impl Shape {
    /// A subtree that has taken in one more point.
    pub open spec fn grown_by<const DIMS: usize>(
        self,
        before: Shape,
        points: Seq<[i32; DIMS]>,
        idx: usize,
        leaf_cap: usize,
    ) -> bool {
        &&& self.wf(points, idx + 1, leaf_cap)
        &&& forall|i: usize| self.holds(i) <==> before.holds(i) || i == idx
    }
}

/// Insertion keeps a subtree well formed and adds the new index to what it
/// holds, and nothing else.
pub proof fn lemma_inserted_wf<const DIMS: usize>(
    shape: Shape,
    points: Seq<[i32; DIMS]>,
    idx: usize,
    leaf_cap: usize,
)
    requires
        0 < leaf_cap <= MAX_LEAF_CAP,
        idx < points.len(),
        shape.wf(points, idx as int, leaf_cap),
        !too_close(points, shape.leaf_for(points[idx as int]), points[idx as int]),
    ensures
        shape.inserted(points, idx, leaf_cap).grown_by(shape, points, idx, leaf_cap),
    decreases shape,
{
    let after = shape.inserted(points, idx, leaf_cap);
    match shape {
        Shape::Leaf { indices } => {
            lemma_leaf_joined(points, indices, idx, leaf_cap);
            if indices.len() >= leaf_cap {
                lemma_split_of_wf(points, indices.push(idx), idx + 1, leaf_cap);
            }
        },
        Shape::Split { dim, val, left, right } => {
            if coord(points, idx, dim as int) < val {
                lemma_inserted_wf(*left, points, idx, leaf_cap);
                lemma_wf_widen(*right, points, idx as int, idx + 1, leaf_cap);
                let grown = left.inserted(points, idx, leaf_cap);
                assert(after == Shape::Split { dim, val, left: Box::new(grown), right });
                assert forall|i: usize| after.holds(i) <==> shape.holds(i) || i == idx by {
                    assert(after.holds(i) == (grown.holds(i) || right.holds(i)));
                }
            } else {
                lemma_inserted_wf(*right, points, idx, leaf_cap);
                lemma_wf_widen(*left, points, idx as int, idx + 1, leaf_cap);
                let grown = right.inserted(points, idx, leaf_cap);
                assert(after == Shape::Split { dim, val, left, right: Box::new(grown) });
                assert forall|i: usize| after.holds(i) <==> shape.holds(i) || i == idx by {
                    assert(after.holds(i) == (left.holds(i) || grown.holds(i)));
                }
            }
        },
    }
}

/// Once a point has been taken in, the leaf that receives it holds it, so
/// the same point is refused from then on.
pub proof fn lemma_inserted_rejects<const DIMS: usize>(
    shape: Shape,
    points: Seq<[i32; DIMS]>,
    idx: usize,
    leaf_cap: usize,
)
    requires
        0 < leaf_cap <= MAX_LEAF_CAP,
        idx < points.len(),
        shape.wf(points, idx as int, leaf_cap),
        !too_close(points, shape.leaf_for(points[idx as int]), points[idx as int]),
    ensures
        shape.inserted(points, idx, leaf_cap).leaf_for(points[idx as int]).contains(idx),
        too_close(
            points,
            shape.inserted(points, idx, leaf_cap).leaf_for(points[idx as int]),
            points[idx as int],
        ),
    decreases shape,
{
    let p = points[idx as int];
    let after = shape.inserted(points, idx, leaf_cap);
    match shape {
        Shape::Leaf { indices } => {
            let all = indices.push(idx);
            assert(all[indices.len() as int] == idx);
            assert(all.contains(idx));
            if indices.len() >= leaf_cap {
                let d = widest_dim(points, all, DIMS as int);
                let v = mean_ceil(points, all, d);
                lemma_leaf_joined(points, indices, idx, leaf_cap);
                assert(all.contains(all[0]) && all.contains(all[1]));
                assert(separated(points, all[0], all[1]));
                lemma_split_divides(points, all);
                lemma_side_contains(points, all, d, v, true, idx);
                lemma_side_contains(points, all, d, v, false, idx);
                let low = side(points, all, d, v, true);
                let high = side(points, all, d, v, false);
                assert(after == Shape::Split {
                    dim: d as usize,
                    val: v as i32,
                    left: Box::new(Shape::Leaf { indices: low }),
                    right: Box::new(Shape::Leaf { indices: high }),
                });
                assert(coord(points, idx, d) == p@[d]);
                assert((Shape::Leaf { indices: low }).leaf_for(p) == low);
                assert((Shape::Leaf { indices: high }).leaf_for(p) == high);
                assert((d as usize) as int == d && (v as i32) as int == v);
                assert(after.leaf_for(p) == if p@[d] < v {
                    low
                } else {
                    high
                });
            } else {
                assert(after.leaf_for(p) == all);
            }
        },
        Shape::Split { dim, val, left, right } => {
            if coord(points, idx, dim as int) < val {
                lemma_inserted_rejects(*left, points, idx, leaf_cap);
                let grown = left.inserted(points, idx, leaf_cap);
                assert(after == Shape::Split { dim, val, left: Box::new(grown), right });
                assert(after.leaf_for(p) == grown.leaf_for(p));
            } else {
                lemma_inserted_rejects(*right, points, idx, leaf_cap);
                let grown = right.inserted(points, idx, leaf_cap);
                assert(after == Shape::Split { dim, val, left, right: Box::new(grown) });
                assert(after.leaf_for(p) == grown.leaf_for(p));
            }
        },
    }
    let leaf = after.leaf_for(p);
    assert(leaf.contains(idx));
    let k = choose|k: int| 0 <= k < leaf.len() && leaf[k] == idx;
    lemma_sq_dist_self(p@, DIMS as int);
    assert(sq_dist(points[leaf[k] as int]@, p@) < MIN_RADIUS_SQ);
}

impl Shape {
    /// The number of leaves of this subtree that list index `i`.
    pub open spec fn leaves_holding(self, i: usize) -> nat
        decreases self,
    {
        match self {
            Shape::Leaf { indices } => if indices.contains(i) {
                1
            } else {
                0
            },
            Shape::Split { left, right, .. } => left.leaves_holding(i) + right.leaves_holding(i),
        }
    }
}

/// In a well-formed subtree every index lives in exactly one leaf if the
/// subtree holds it, and in none otherwise.
pub proof fn lemma_one_leaf_per_point<const DIMS: usize>(
    shape: Shape,
    points: Seq<[i32; DIMS]>,
    bound: int,
    leaf_cap: usize,
    i: usize,
)
    requires
        shape.wf(points, bound, leaf_cap),
    ensures
        shape.leaves_holding(i) == if shape.holds(i) {
            1nat
        } else {
            0nat
        },
    decreases shape,
{
    match shape {
        Shape::Leaf { indices } => {},
        Shape::Split { left, right, .. } => {
            lemma_one_leaf_per_point(*left, points, bound, leaf_cap, i);
            lemma_one_leaf_per_point(*right, points, bound, leaf_cap, i);
        },
    }
}

/// Every index that a well-formed subtree holds is below the bound.
pub proof fn lemma_holds_in_bound<const DIMS: usize>(
    shape: Shape,
    points: Seq<[i32; DIMS]>,
    bound: int,
    leaf_cap: usize,
    i: usize,
)
    requires
        shape.wf(points, bound, leaf_cap),
        shape.holds(i),
    ensures
        i < bound,
    decreases shape,
{
    match shape {
        Shape::Leaf { indices } => {
            let k = choose|k: int| 0 <= k < indices.len() && indices[k] == i;
            assert(indices[k] < bound);
        },
        Shape::Split { left, right, .. } => {
            if left.holds(i) {
                lemma_holds_in_bound(*left, points, bound, leaf_cap, i);
            } else {
                lemma_holds_in_bound(*right, points, bound, leaf_cap, i);
            }
        },
    }
}

} // verus!
