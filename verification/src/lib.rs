//! Rapidly-exploring random trees over a rasterised occupancy map.
//!
//! The planner works on a square lattice: a position is a pair of `i32`
//! counts of the lattice quantum, which is also the least distance at which
//! two samples are told apart. Distances are squared and exact, a cell of
//! the map is a square of whole quanta, and every comparison that decides
//! where a segment runs or which point is nearest is made on integers. So
//! what is proved of a plan holds of the numbers that the machine computes.
//!
//! - [`grid`] holds the occupancy map and [`raytrace`] walks a segment
//!   through its cells; [`crossing`] proves what the walk means for the
//!   segment's geometry.
//! - [`kdtree`] is the spatial index, with [`split`] for the cut of a full
//!   leaf; [`point_list`] names what a planner asks of an index.
//! - [`vanilla`] grows the tree, with [`steer`] for the step towards a
//!   sample and [`sampling`] for the samples; [`tree`] says what shape the
//!   tree has and [`dfs`] reads the path off it.

pub mod crossing;
pub mod dfs;
pub mod geometry;
pub mod grid;
pub mod kdtree;
pub mod point_list;
pub mod raytrace;
pub mod sampling;
pub mod split;
pub mod steer;
pub mod tree;
pub mod vanilla;

use crate::dfs::{adjacency, walk_between};
use crate::geometry::sq_dist;
use crate::grid::{GridView, OccupancyGrid};
use crate::sampling::SampleSource;
use crate::tree::is_tree;
use vstd::prelude::*;

verus! {

/// What a planner returns.
pub struct RRTResult {
    /// The points of the tree, in the order in which they were accepted.
    pub points: Vec<[i32; 2]>,
    /// The tree itself: `tree[i]` lists the children of `points[i]`.
    pub tree: Vec<Vec<usize>>,
    /// The nodes from the start to the node that reached the goal, if one
    /// did.
    pub path: Option<Vec<usize>>,
}

/// What a planner is configured with.
pub struct RRTParameters {
    /// How many points the tree may hold before the planner gives up.
    pub num_points: usize,
    /// How far the tree moves towards a sample.
    pub move_dist: u32,
    /// The lower corner of the region to explore.
    pub min_bound: [i32; 2],
    /// The upper corner of the region to explore.
    pub max_bound: [i32; 2],
    /// The squared distance from the goal below which it counts as reached.
    pub sq_dist_tol: u128,
}

impl RRTParameters {
    /// The position lies in the half-open region to explore.
    pub open spec fn admits(self, x: int, y: int) -> bool {
        &&& self.min_bound@[0] <= x < self.max_bound@[0]
        &&& self.min_bound@[1] <= y < self.max_bound@[1]
    }

    /// The grid covers the whole region to explore.
    pub open spec fn covered_by(self, g: GridView) -> bool {
        forall|x: int, y: int| self.admits(x, y) ==> #[trigger] g.covers(x, y)
    }

    /// A planner can work with these parameters on this grid from this
    /// start: the grid covers the start and the region, each bound can be
    /// sampled, and the tree has room for its root.
    pub open spec fn fit(self, start: [i32; 2], g: GridView) -> bool {
        &&& g.covers(start@[0] as int, start@[1] as int)
        &&& self.covered_by(g)
        &&& self.min_bound@[0] <= self.max_bound@[0]
        &&& self.min_bound@[1] <= self.max_bound@[1]
        &&& self.num_points < usize::MAX
    }
}

impl RRTResult {
    /// The result is sound: the points begin with the start, the adjacency
    /// list is a tree over them rooted there, and a path, if present, leads
    /// along the tree's edges from the root to a point that lies within the
    /// tolerance of the goal.
    pub open spec fn sound(self, start: [i32; 2], goal: [i32; 2], params: RRTParameters) -> bool {
        &&& self.points@.len() >= 1
        &&& self.points@[0] == start
        &&& is_tree(adjacency(&self.tree), self.points@.len() as int)
        &&& match self.path {
            Some(path) => {
                &&& walk_between(adjacency(&self.tree), path@, 0, path@.last())
                &&& path@.last() < self.points@.len()
                &&& sq_dist(self.points@[path@.last() as int]@, goal@) < params.sq_dist_tol
            },
            None => true,
        }
    }
}

/// A planner that grows an exploration tree from a start towards a goal.
pub trait RRTAlgorithm {
    /// Grows a tree from `start` through the free cells of `grid` until a
    /// point within the tolerance of `goal` is accepted, the tree holds
    /// `params.num_points` points, or `source` runs out of samples.
    fn run(
        &self,
        start: &[i32; 2],
        goal: &[i32; 2],
        grid: &OccupancyGrid,
        params: &RRTParameters,
        source: &mut SampleSource,
    ) -> (result: RRTResult)
        requires
            grid.wf(),
            params.fit(*start, grid@),
        ensures
            result.sound(*start, *goal, *params),
    ;
}

} // verus!
