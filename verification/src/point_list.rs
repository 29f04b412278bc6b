//! What the planner asks of a store of points, and of one that can be
//! searched.

use crate::geometry::{sq_dist, squared_distance};
use vstd::prelude::*;

verus! {

/// `i` indexes a point of `points` that no other is nearer to `query` than.
pub open spec fn is_nearest<const DIMS: usize>(
    points: Seq<[i32; DIMS]>,
    query: [i32; DIMS],
    i: usize,
) -> bool {
    &&& i < points.len()
    &&& forall|j: int|
        0 <= j < points.len() ==> sq_dist(points[i as int]@, query@) <= sq_dist(
            #[trigger] points[j]@,
            query@,
        )
}

/// `i` indexes the first point of `points` that no other is nearer to
/// `query` than: what a scan of the whole list finds.
pub open spec fn is_first_nearest<const DIMS: usize>(
    points: Seq<[i32; DIMS]>,
    query: [i32; DIMS],
    i: usize,
) -> bool {
    &&& is_nearest(points, query, i)
    &&& forall|j: int|
        0 <= j < i ==> sq_dist(points[i as int]@, query@) < sq_dist(#[trigger] points[j]@, query@)
}

/// Any nearest point lies as far from the query as the one that a scan of
/// the whole list finds.
pub proof fn lemma_nearest_matches_scan<const DIMS: usize>(
    points: Seq<[i32; DIMS]>,
    query: [i32; DIMS],
    found: usize,
    scanned: usize,
)
    requires
        is_nearest(points, query, found),
        is_first_nearest(points, query, scanned),
    ensures
        sq_dist(points[found as int]@, query@) == sq_dist(points[scanned as int]@, query@),
        scanned <= found,
{
    let f = points[found as int];
    let c = points[scanned as int];
    assert(sq_dist(f@, query@) <= sq_dist(c@, query@));
    assert(sq_dist(c@, query@) <= sq_dist(f@, query@));
}

/// A growing list of points of `DIMS` coordinates, addressed by the order
/// in which they were accepted.
pub trait PointList<const DIMS: usize>: Sized {
    /// The accepted points in insertion order.
    spec fn points(&self) -> Seq<[i32; DIMS]>;

    /// The list's invariant.
    spec fn valid(&self) -> bool;

    /// Whether the type's parameters allow a list to be made.
    spec fn admissible() -> bool;

    /// A list without points.
    fn empty() -> (list: Self)
        requires
            Self::admissible(),
        ensures
            list.valid(),
            list.points().len() == 0,
    ;

    /// Offers a point to the list. An accepted point becomes the newest;
    /// a refused one leaves the list as it was.
    fn add_point(&mut self, point: [i32; DIMS]) -> (accepted: bool)
        requires
            old(self).valid(),
        ensures
            final(self).valid(),
            accepted ==> final(self).points() == old(self).points().push(point),
            !accepted ==> final(self).points() == old(self).points(),
    ;

    /// The number of accepted points.
    fn len(&self) -> (n: usize)
        ensures
            n == self.points().len(),
    ;

    /// The `i`-th accepted point.
    fn index(&self, i: usize) -> (p: &[i32; DIMS])
        requires
            i < self.points().len(),
        ensures
            *p == self.points()[i as int],
    ;
}

/// A list of points that answers nearest-neighbour queries.
pub trait NNIndex<const DIMS: usize>: PointList<DIMS> {
    /// The index of an accepted point nearest to `point`, or `None` when
    /// there is none.
    fn closest_point(&self, point: [i32; DIMS]) -> (nearest: Option<usize>)
        requires
            self.valid(),
        ensures
            nearest is None <==> self.points().len() == 0,
            nearest is Some ==> is_nearest(self.points(), point, nearest.unwrap()),
    ;
}

/// A plain list that accepts every point.
pub struct VecPointList<const DIMS: usize> {
    inner: Vec<[i32; DIMS]>,
}

impl<const DIMS: usize> PointList<DIMS> for VecPointList<DIMS> {
    closed spec fn points(&self) -> Seq<[i32; DIMS]> {
        self.inner@
    }

    open spec fn valid(&self) -> bool {
        true
    }

    open spec fn admissible() -> bool {
        true
    }

    fn empty() -> (list: Self) {
        VecPointList { inner: Vec::new() }
    }

    fn add_point(&mut self, point: [i32; DIMS]) -> (accepted: bool)
        ensures
            accepted,
    {
        self.inner.push(point);
        true
    }

    fn len(&self) -> (n: usize) {
        self.inner.len()
    }

    fn index(&self, i: usize) -> (p: &[i32; DIMS]) {
        &self.inner[i]
    }
}

impl<const DIMS: usize> NNIndex<DIMS> for VecPointList<DIMS> {
    /// Scans the whole list and keeps the first point that none is nearer
    /// than.
    fn closest_point(&self, point: [i32; DIMS]) -> (nearest: Option<usize>)
        ensures
            nearest is Some ==> is_first_nearest(self.points(), point, nearest.unwrap()),
    {
        if self.inner.len() == 0 {
            return None;
        }
        let mut min_id: usize = 0;
        let mut min_dist_sq: u128 = squared_distance(&self.inner[0], &point);
        let mut id: usize = 1;
        while id < self.inner.len()
            invariant
                1 <= id <= self.inner@.len(),
                min_id < id,
                min_dist_sq == sq_dist(self.inner@[min_id as int]@, point@),
                forall|j: int| 0 <= j < id ==> min_dist_sq <= sq_dist(#[trigger] self.inner@[j]@, point@),
                forall|j: int| 0 <= j < min_id ==> min_dist_sq < sq_dist(#[trigger] self.inner@[j]@, point@),
            decreases self.inner@.len() - id,
        {
            let d_sq = squared_distance(&self.inner[id], &point);
            if d_sq < min_dist_sq {
                min_dist_sq = d_sq;
                min_id = id;
            }
            id = id + 1;
        }
        Some(min_id)
    }
}

} // verus!
