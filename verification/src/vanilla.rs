//! The plain RRT planner: sample, find the nearest node, steer, test the
//! segment, insert, and stop at the goal or at the budget.

use crate::dfs::{adjacency, dfs, dfs_path, walk_between};
use crate::geometry::{lemma_sq_dist_plane, sq_dist, squared_distance};
use crate::grid::{GridView, OccupancyGrid};
use crate::kdtree::{
    lemma_inserted_wf, lemma_search_best, lemma_too_close_same_points, lemma_wf_same_points,
    too_close, KdTree, Shape,
};
use crate::point_list::{is_nearest, NNIndex, PointList};
use crate::raytrace::{is_segment_occupied, segment_occupied};
use crate::sampling::SampleSource;
use crate::steer::{lemma_step_length, steer, steered};
use crate::tree::{is_tree, lemma_tree_grows, lemma_tree_of_root, lemma_tree_search_finds, with_edge};
use crate::{RRTAlgorithm, RRTParameters, RRTResult};
use vstd::prelude::*;

verus! {

/// The capacity of the leaves of the planner's spatial index.
pub const LEAF_CAP: usize = 16;

/// What became of one sample.
#[derive(Clone, Copy, PartialEq, Eq, Debug, Structural)]
pub enum StepOutcome {
    /// The steered point fell outside the region to explore, or the sample
    /// coincided with its nearest node.
    OutOfBounds,
    /// The segment to the steered point crosses an occupied cell.
    Blocked,
    /// The steered point lies too close to a point of the tree.
    TooClose,
    /// The steered point joined the tree.
    Added,
    /// The steered point joined the tree and lies within the tolerance of
    /// the goal.
    GoalReached,
}

/// The point that the tree would grow to from `from` for the sample
/// `conf`: one step towards it, if that lies in the region to explore.
pub open spec fn candidate(from: [i32; 2], conf: [i32; 2], params: RRTParameters) -> Option<
    [i32; 2],
> {
    match steered(from, conf, params.move_dist as int) {
        Some((x, y)) => if params.admits(x, y) {
            Some([x as i32, y as i32])
        } else {
            None
        },
        None => None,
    }
}

/// No edge of the tree crosses an occupied cell.
pub open spec fn edges_free(g: GridView, points: Seq<[i32; 2]>, adj: Seq<Seq<usize>>) -> bool {
    forall|i: int, k: int|
        0 <= i < adj.len() && 0 <= k < adj[i].len() ==> !segment_occupied(
            g,
            points[i],
            points[#[trigger] adj[i][k] as int],
        )
}

/// Every point but the root lies in the region to explore, and no edge is
/// longer than one step.
pub open spec fn paced(points: Seq<[i32; 2]>, adj: Seq<Seq<usize>>, params: RRTParameters) -> bool {
    &&& forall|i: int|
        0 < i < points.len() ==> params.admits(
            (#[trigger] points[i])@[0] as int,
            points[i]@[1] as int,
        )
    &&& forall|i: int, k: int|
        0 <= i < adj.len() && 0 <= k < adj[i].len() ==> sq_dist(
            points[i]@,
            points[#[trigger] adj[i][k] as int]@,
        ) <= params.move_dist * params.move_dist
}

/// No point but the root lies within the tolerance of the goal.
pub open spec fn short_of(points: Seq<[i32; 2]>, goal: [i32; 2], params: RRTParameters) -> bool {
    forall|i: int| 0 < i < points.len() ==> sq_dist((#[trigger] points[i])@, goal@) >= params.sq_dist_tol
}

/// A growing tree in mathematical terms.
pub struct Growth {
    /// The accepted points in insertion order.
    pub points: Seq<[i32; 2]>,
    /// The shape of the spatial index over the accepted points.
    pub shape: Shape,
    /// The children recorded for each node.
    pub edges: Seq<Seq<usize>>,
    /// The node that reached the goal, once one has.
    pub goal_node: Option<usize>,
}

impl Growth {
    /// The tree of the root `start` alone, with room for `num_points`
    /// points and one more.
    pub open spec fn root(start: [i32; 2], num_points: usize) -> Growth {
        Growth {
            points: seq![start],
            shape: Shape::Leaf { indices: seq![0usize] },
            edges: Seq::new((num_points + 1) as nat, |i: int| Seq::<usize>::empty()),
            goal_node: None,
        }
    }

    /// Whether the spatial index would refuse `p`.
    pub open spec fn rejects(self, p: [i32; 2]) -> bool {
        too_close(self.points, self.shape.leaf_for(p), p)
    }

    /// The node that a search for the one nearest to `query` ends with.
    pub open spec fn nearest_to(self, query: [i32; 2]) -> usize {
        match self.shape.search(self.points, query, None) {
            Some((i, _)) => i,
            None => 0,
        }
    }

    /// What becomes of the sample `conf` when the tree is to grow from
    /// node `nearest`.
    pub open spec fn outcome_from(
        self,
        nearest: usize,
        conf: [i32; 2],
        goal: [i32; 2],
        g: GridView,
        params: RRTParameters,
    ) -> StepOutcome {
        let from = self.points[nearest as int];
        match candidate(from, conf, params) {
            None => StepOutcome::OutOfBounds,
            Some(p) => if segment_occupied(g, from, p) {
                StepOutcome::Blocked
            } else if self.rejects(p) {
                StepOutcome::TooClose
            } else if sq_dist(p@, goal@) < params.sq_dist_tol {
                StepOutcome::GoalReached
            } else {
                StepOutcome::Added
            },
        }
    }

    /// The tree after the sample `conf` when it is to grow from node
    /// `nearest`: with the candidate as its newest point and as a child of
    /// `nearest` where the candidate is taken in, and as it was otherwise.
    pub open spec fn extended_from(
        self,
        nearest: usize,
        conf: [i32; 2],
        goal: [i32; 2],
        g: GridView,
        params: RRTParameters,
    ) -> Growth {
        let outcome = self.outcome_from(nearest, conf, goal, g, params);
        let newest = self.points.len() as usize;
        if outcome == StepOutcome::Added || outcome == StepOutcome::GoalReached {
            let points = self.points.push(candidate(self.points[nearest as int], conf, params).unwrap());
            Growth {
                points,
                shape: self.shape.inserted(points, newest, LEAF_CAP),
                edges: with_edge(self.edges, nearest as int, newest),
                goal_node: if outcome == StepOutcome::GoalReached {
                    Some(newest)
                } else {
                    None
                },
            }
        } else {
            self
        }
    }

    /// What becomes of the sample `conf`.
    pub open spec fn outcome(
        self,
        conf: [i32; 2],
        goal: [i32; 2],
        g: GridView,
        params: RRTParameters,
    ) -> StepOutcome {
        self.outcome_from(self.nearest_to(conf), conf, goal, g, params)
    }

    /// The tree after the sample `conf`.
    pub open spec fn stepped(
        self,
        conf: [i32; 2],
        goal: [i32; 2],
        g: GridView,
        params: RRTParameters,
    ) -> Growth {
        self.extended_from(self.nearest_to(conf), conf, goal, g, params)
    }

    /// Growth has come to its end: the goal is reached or the budget used.
    pub open spec fn done(self, params: RRTParameters) -> bool {
        self.goal_node is Some || self.points.len() >= params.num_points
    }

    /// The tree after the samples have been taken in turn.
    pub open spec fn grown(
        self,
        samples: Seq<[i32; 2]>,
        goal: [i32; 2],
        g: GridView,
        params: RRTParameters,
    ) -> Growth
        decreases samples.len(),
    {
        if samples.len() == 0 {
            self
        } else {
            self.grown(samples.drop_last(), goal, g, params).stepped(samples.last(), goal, g, params)
        }
    }

    /// Growth went on for as long as `samples` lasted: it had not come to
    /// its end before any of them.
    pub open spec fn kept_going(
        self,
        samples: Seq<[i32; 2]>,
        goal: [i32; 2],
        g: GridView,
        params: RRTParameters,
    ) -> bool {
        forall|k: int|
            0 <= k < samples.len() ==> !(#[trigger] self.grown(samples.take(k), goal, g, params)).done(
                params,
            )
    }

    /// The invariant of growth: the spatial index is well formed and holds
    /// every point, the adjacency list has a slot for each point and is a
    /// tree over them, and the goal node, if any, is the newest point.
    pub open spec fn wf(self) -> bool {
        &&& self.shape.wf(self.points, self.points.len() as int, LEAF_CAP)
        &&& forall|i: usize| i < self.points.len() ==> #[trigger] self.shape.holds(i)
        &&& 1 <= self.points.len() <= self.edges.len() <= usize::MAX
        &&& is_tree(self.edges, self.points.len() as int)
        &&& match self.goal_node {
            Some(node) => node == self.points.len() - 1,
            None => true,
        }
    }

    /// The tree lies on the grid: it covers every point, and no edge
    /// crosses an occupied cell.
    pub open spec fn clear_of(self, g: GridView) -> bool {
        &&& forall|i: int|
            0 <= i < self.points.len() ==> g.covers(
                (#[trigger] self.points[i])@[0] as int,
                self.points[i]@[1] as int,
            )
        &&& edges_free(g, self.points, self.edges)
    }
}

/// A tree under growth.
pub struct TreeGrowth {
    index: KdTree<2, LEAF_CAP>,
    tree: Vec<Vec<usize>>,
    goal_node: Option<usize>,
}

impl View for TreeGrowth {
    type V = Growth;

    closed spec fn view(&self) -> Growth {
        Growth {
            points: self.index@,
            shape: self.index.shape(),
            edges: adjacency(&self.tree),
            goal_node: self.goal_node,
        }
    }
}

impl TreeGrowth {
    /// The invariant of growth.
    pub open spec fn wf(&self) -> bool {
        self@.wf()
    }

    /// A tree of the root `start` alone, with room for `num_points` points
    /// and one more.
    pub fn new(start: [i32; 2], num_points: usize) -> (growth: Self)
        requires
            num_points < usize::MAX,
        ensures
            growth.wf(),
            growth@ == Growth::root(start, num_points),
    {
        let mut index = KdTree::<2, LEAF_CAP>::empty();
        let accepted = index.add_point(start);
        assert(accepted);
        let mut tree: Vec<Vec<usize>> = Vec::new();
        let mut k: usize = 0;
        while k < num_points + 1
            invariant
                k <= num_points + 1,
                num_points < usize::MAX,
                tree@.len() == k,
                forall|i: int| 0 <= i < k ==> (#[trigger] tree@[i])@.len() == 0,
            decreases num_points + 1 - k,
        {
            tree.push(Vec::new());
            k = k + 1;
        }
        let growth = TreeGrowth { index, tree, goal_node: None };
        proof {
            let root = Growth::root(start, num_points);
            assert(growth@.points =~= root.points);
            assert(Seq::<usize>::empty().push(0usize) =~= seq![0usize]);
            assert(growth@.edges =~= root.edges) by {
                assert forall|i: int| 0 <= i < root.edges.len() implies growth@.edges[i]
                    =~= root.edges[i] by {}
            }
            lemma_tree_of_root(growth@.edges);
        }
        growth
    }

    /// The number of accepted points.
    pub fn len(&self) -> (n: usize)
        ensures
            n == self@.points.len(),
    {
        self.index.len()
    }

    /// Whether a point within the tolerance of the goal has been accepted.
    pub fn found(&self) -> (found: bool)
        ensures
            found == self@.goal_node is Some,
    {
        self.goal_node.is_some()
    }

    /// Tries to grow the tree from node `nearest_idx` one step towards the
    /// sample `conf`, and tells what became of it. Growth keeps the tree on
    /// the grid, and keeps its pace where it had it.
    pub fn extend(
        &mut self,
        nearest_idx: usize,
        conf: [i32; 2],
        goal: &[i32; 2],
        grid: &OccupancyGrid,
        params: &RRTParameters,
    ) -> (outcome: StepOutcome)
        requires
            old(self).wf(),
            old(self)@.clear_of(grid@),
            old(self)@.goal_node is None,
            old(self)@.points.len() < old(self)@.edges.len(),
            nearest_idx < old(self)@.points.len(),
            grid.wf(),
            params.covered_by(grid@),
        ensures
            final(self).wf(),
            final(self)@.clear_of(grid@),
            outcome == old(self)@.outcome_from(nearest_idx, conf, *goal, grid@, *params),
            final(self)@ == old(self)@.extended_from(nearest_idx, conf, *goal, grid@, *params),
            paced(old(self)@.points, old(self)@.edges, *params) ==> paced(
                final(self)@.points,
                final(self)@.edges,
                *params,
            ),
    {
        let nearest = *self.index.index(nearest_idx);
        let target = steer(&nearest, &conf, params.move_dist);
        let (x, y) = match target {
            Some(t) => t,
            None => {
                return StepOutcome::OutOfBounds;
            },
        };
        let inside = params.min_bound[0] as i64 <= x && x < params.max_bound[0] as i64
            && params.min_bound[1] as i64 <= y && y < params.max_bound[1] as i64;
        if !inside {
            return StepOutcome::OutOfBounds;
        }
        let in_between: [i32; 2] = [x as i32, y as i32];
        assert(candidate(nearest, conf, *params) == Some(in_between));
        assert(grid@.covers(nearest@[0] as int, nearest@[1] as int)) by {
            assert(self@.points[nearest_idx as int] == nearest);
        }
        if is_segment_occupied(&nearest, &in_between, grid) {
            return StepOutcome::Blocked;
        }
        let ghost before = self@;
        if !self.index.add_point(in_between) {
            return StepOutcome::TooClose;
        }
        let new_idx = self.index.len() - 1;
        self.tree[nearest_idx].push(new_idx);
        let reached = squared_distance(&in_between, goal) < params.sq_dist_tol;
        if reached {
            self.goal_node = Some(new_idx);
        }
        proof {
            let grown = with_edge(before.edges, nearest_idx as int, new_idx);
            let points = self@.points;
            assert(self@.edges =~= grown) by {
                assert forall|i: int| 0 <= i < grown.len() implies self@.edges[i] == grown[i] by {}
            }
            lemma_tree_grows(before.edges, before.points.len() as int, nearest_idx as int);
            assert forall|i: int| 0 <= i < before.points.len() implies points[i]
                == #[trigger] before.points[i] by {}
            assert forall|i: int| 0 <= i < points.len() implies grid@.covers(
                (#[trigger] points[i])@[0] as int,
                points[i]@[1] as int,
            ) by {
                if i < before.points.len() {
                    assert(points[i] == before.points[i]);
                }
            }
            assert forall|i: int, k: int|
                0 <= i < grown.len() && 0 <= k < grown[i].len() implies !segment_occupied(
                grid@,
                points[i],
                points[#[trigger] grown[i][k] as int],
            ) by {
                if !(i == nearest_idx && k == before.edges[i].len()) {
                    assert(grown[i][k] == before.edges[i][k]);
                    assert(points[i] == before.points[i]);
                    assert(points[before.edges[i][k] as int] == before.points[before.edges[i][k] as int]);
                }
            }
            if paced(before.points, before.edges, *params) {
                lemma_step_length(nearest, conf, params.move_dist as int);
                lemma_sq_dist_plane(nearest, in_between);
                let (nx, ny) = (nearest@[0] as int, nearest@[1] as int);
                assert((nx - x) * (nx - x) == (x - nx) * (x - nx)) by (nonlinear_arith);
                assert((ny - y) * (ny - y) == (y - ny) * (y - ny)) by (nonlinear_arith);
                assert forall|i: int| 0 < i < points.len() implies params.admits(
                    (#[trigger] points[i])@[0] as int,
                    points[i]@[1] as int,
                ) by {
                    if i < before.points.len() {
                        assert(points[i] == before.points[i]);
                    }
                }
                assert forall|i: int, k: int|
                    0 <= i < grown.len() && 0 <= k < grown[i].len() implies sq_dist(
                    points[i]@,
                    points[#[trigger] grown[i][k] as int]@,
                ) <= params.move_dist * params.move_dist by {
                    if i == nearest_idx && k == before.edges[i].len() {
                        assert(points[i] == nearest);
                        assert(points[grown[i][k] as int] == in_between);
                    } else {
                        assert(grown[i][k] == before.edges[i][k]);
                        assert(points[i] == before.points[i]);
                        assert(points[before.edges[i][k] as int] == before.points[before.edges[i][k] as int]);
                    }
                }
            }
        }
        if reached {
            StepOutcome::GoalReached
        } else {
            StepOutcome::Added
        }
    }

    /// Tries to grow the tree one step towards the sample `conf`, from the
    /// node that the search finds nearest to it, and tells what became of
    /// the sample.
    pub fn step(&mut self, conf: [i32; 2], goal: &[i32; 2], grid: &OccupancyGrid, params: &RRTParameters) -> (outcome:
        StepOutcome)
        requires
            old(self).wf(),
            old(self)@.clear_of(grid@),
            old(self)@.goal_node is None,
            old(self)@.points.len() < old(self)@.edges.len(),
            grid.wf(),
            params.covered_by(grid@),
        ensures
            final(self).wf(),
            final(self)@.clear_of(grid@),
            is_nearest(old(self)@.points, conf, old(self)@.nearest_to(conf)),
            outcome == old(self)@.outcome(conf, *goal, grid@, *params),
            final(self)@ == old(self)@.stepped(conf, *goal, grid@, *params),
            paced(old(self)@.points, old(self)@.edges, *params) ==> paced(
                final(self)@.points,
                final(self)@.edges,
                *params,
            ),
    {
        let nearest = self.index.closest_point(conf);
        let nearest_idx = match nearest {
            Some(i) => i,
            None => 0,
        };
        self.extend(nearest_idx, conf, goal, grid, params)
    }

    /// Hands the tree out, with the path from the root to the goal node if
    /// the goal was reached.
    pub fn finish(self) -> (result: RRTResult)
        requires
            self.wf(),
        ensures
            result.shows(self@),
    {
        let path = match self.goal_node {
            Some(end_idx) => {
                proof {
                    lemma_tree_search_finds(self@.edges, self@.points.len() as int, end_idx as int);
                }
                let mut path_vec: Vec<usize> = Vec::new();
                let reached = dfs(&self.tree, 0, end_idx, &mut path_vec);
                assert(reached);
                assert(path_vec@ =~= dfs_path(self@.edges, 0, end_idx).unwrap());
                Some(path_vec)
            },
            None => None,
        };
        let mut points: Vec<[i32; 2]> = Vec::new();
        let mut i: usize = 0;
        let n = self.index.len();
        while i < n
            invariant
                i <= n,
                n == self.index@.len(),
                points@ == self.index@.take(i as int),
            decreases n - i,
        {
            points.push(*self.index.index(i));
            assert(self.index@.take(i + 1) =~= self.index@.take(i as int).push(self.index@[i as int]));
            i = i + 1;
        }
        assert(points@ =~= self.index@);
        RRTResult { points, tree: self.tree, path }
    }
}

impl RRTResult {
    /// The result shows the tree `growth`: its points, its edges, and the
    /// walk that a depth-first search finds from the root to its goal node,
    /// if it has one.
    pub open spec fn shows(self, growth: Growth) -> bool {
        &&& self.points@ == growth.points
        &&& adjacency(&self.tree) == growth.edges
        &&& match growth.goal_node {
            Some(node) => {
                &&& self.path is Some
                &&& dfs_path(growth.edges, 0, node) == Some(self.path.unwrap()@)
                &&& walk_between(growth.edges, self.path.unwrap()@, 0, node)
            },
            None => self.path is None,
        }
    }
}

/// One sample leaves a tree that is still growing well formed, with as
/// many slots as it had.
pub proof fn lemma_stepped_wf(
    growth: Growth,
    conf: [i32; 2],
    goal: [i32; 2],
    g: GridView,
    params: RRTParameters,
)
    requires
        growth.wf(),
        !growth.done(params),
        growth.edges.len() > params.num_points,
    ensures
        growth.stepped(conf, goal, g, params).wf(),
        growth.stepped(conf, goal, g, params).edges.len() == growth.edges.len(),
{
    let len = growth.points.len();
    let nearest = growth.nearest_to(conf);
    lemma_search_best(growth.shape, growth.points, len as int, LEAF_CAP, conf, None);
    let outcome = growth.outcome(conf, goal, g, params);
    let after = growth.stepped(conf, goal, g, params);
    if outcome == StepOutcome::Added || outcome == StepOutcome::GoalReached {
        let p = candidate(growth.points[nearest as int], conf, params).unwrap();
        let newest = len as usize;
        lemma_wf_same_points(growth.shape, growth.points, after.points, len as int, LEAF_CAP);
        lemma_too_close_same_points(
            growth.shape,
            growth.points,
            after.points,
            len as int,
            LEAF_CAP,
            p,
        );
        lemma_inserted_wf(growth.shape, after.points, newest, LEAF_CAP);
        lemma_tree_grows(growth.edges, len as int, nearest as int);
    }
}

/// After any number of samples a tree that was well formed, with a slot
/// for every point that the budget allows, is well formed: its adjacency
/// list is a tree rooted at node 0.
pub proof fn lemma_grown_wf(
    from: Growth,
    samples: Seq<[i32; 2]>,
    goal: [i32; 2],
    g: GridView,
    params: RRTParameters,
)
    requires
        from.wf(),
        from.edges.len() > params.num_points,
        from.kept_going(samples, goal, g, params),
    ensures
        from.grown(samples, goal, g, params).wf(),
        from.grown(samples, goal, g, params).edges.len() == from.edges.len(),
        is_tree(
            from.grown(samples, goal, g, params).edges,
            from.grown(samples, goal, g, params).points.len() as int,
        ),
    decreases samples.len(),
{
    if samples.len() > 0 {
        let earlier = samples.drop_last();
        assert forall|k: int| 0 <= k < earlier.len() implies !(#[trigger] from.grown(
            earlier.take(k),
            goal,
            g,
            params,
        )).done(params) by {
            assert(earlier.take(k) =~= samples.take(k));
        }
        lemma_grown_wf(from, earlier, goal, g, params);
        assert(samples.take(samples.len() - 1) =~= earlier);
        lemma_stepped_wf(from.grown(earlier, goal, g, params), samples.last(), goal, g, params);
    }
}

/// The plain RRT planner.
pub struct VanillaRRT;

impl RRTAlgorithm for VanillaRRT {
    /// Grows the tree by the samples that it draws from `source`, one
    /// after the other, for as long as growth has not come to its end and
    /// the source lasts, and shows the tree that comes of it. Beyond what
    /// every planner owes: the tree never exceeds the budget, no edge
    /// crosses an occupied cell or is longer than one step, every point but
    /// the start lies in the region to explore, and where there is no path
    /// no point but the start lies within the tolerance of the goal.
    fn run(
        &self,
        start: &[i32; 2],
        goal: &[i32; 2],
        grid: &OccupancyGrid,
        params: &RRTParameters,
        source: &mut SampleSource,
    ) -> (result: RRTResult)
        ensures
            old(source).drawn().is_prefix_of(final(source).drawn()),
            final(source).drawn().len() - old(source).drawn().len() == old(source).remaining()
                - final(source).remaining(),
            ({
                let samples = final(source).drawn().skip(old(source).drawn().len() as int);
                let root = Growth::root(*start, params.num_points);
                let end = root.grown(samples, *goal, grid@, *params);
                &&& result.shows(end)
                &&& root.kept_going(samples, *goal, grid@, *params)
                &&& end.done(*params) || final(source).remaining() == 0
            }),
            result.points@.len() <= params.num_points || result.points@.len() == 1,
            edges_free(grid@, result.points@, adjacency(&result.tree)),
            paced(result.points@, adjacency(&result.tree), *params),
            result.path is None ==> short_of(result.points@, *goal, *params),
            result.path is Some ==> result.path.unwrap()@.last() == result.points@.len() - 1,
    {
        let ghost root = Growth::root(*start, params.num_points);
        let ghost past = source.drawn();
        let mut growth = TreeGrowth::new(*start, params.num_points);
        proof {
            assert(growth@.clear_of(grid@)) by {
                assert(growth@.points[0] == *start);
            }
            assert(source.drawn().skip(past.len() as int) =~= Seq::<[i32; 2]>::empty());
            assert(past.is_prefix_of(source.drawn()));
        }
        while growth.len() < params.num_points && !growth.found()
            invariant
                growth.wf(),
                growth@.clear_of(grid@),
                paced(growth@.points, growth@.edges, *params),
                growth@.goal_node is None ==> short_of(growth@.points, *goal, *params),
                growth@.points[0] == *start,
                growth@.points.len() <= params.num_points || growth@.points.len() == 1,
                growth@.edges.len() == params.num_points + 1,
                grid.wf(),
                params.fit(*start, grid@),
                match growth@.goal_node {
                    Some(node) => sq_dist(growth@.points[node as int]@, goal@) < params.sq_dist_tol,
                    None => true,
                },
                root == Growth::root(*start, params.num_points),
                past == old(source).drawn(),
                past.is_prefix_of(source.drawn()),
                source.drawn().len() - past.len() == old(source).remaining() - source.remaining(),
                growth@ == root.grown(source.drawn().skip(past.len() as int), *goal, grid@, *params),
                root.kept_going(source.drawn().skip(past.len() as int), *goal, grid@, *params),
            ensures
                growth@.done(*params) || source.remaining() == 0,
            decreases source.remaining(),
        {
            let ghost used = source.drawn().skip(past.len() as int);
            let conf = match source.sample(&params.min_bound, &params.max_bound) {
                Some(conf) => conf,
                None => {
                    break ;
                },
            };
            let ghost before = growth@;
            let outcome = growth.step(conf, goal, grid, params);
            proof {
                let now = source.drawn().skip(past.len() as int);
                assert(now =~= used.push(conf));
                assert(now.drop_last() =~= used);
                assert(growth@.points[0] == before.points[0]);
                assert forall|k: int| 0 <= k < now.len() implies !(#[trigger] root.grown(
                    now.take(k),
                    *goal,
                    grid@,
                    *params,
                )).done(*params) by {
                    if k < used.len() {
                        assert(now.take(k) =~= used.take(k));
                    } else {
                        assert(now.take(k) =~= used);
                    }
                }
                if growth@.goal_node is None {
                    assert forall|i: int| 0 < i < growth@.points.len() implies sq_dist(
                        (#[trigger] growth@.points[i])@,
                        goal@,
                    ) >= params.sq_dist_tol by {
                        if i < before.points.len() {
                            assert(growth@.points[i] == before.points[i]);
                        }
                    }
                }
            }
        }
        growth.finish()
    }
}

} // verus!
