//! Lattice points and the squared Euclidean metric.
//!
//! A point is an array of signed 32-bit coordinates, each a count of the
//! lattice quantum. All distances are squared and exact.

use vstd::prelude::*;

verus! {

/// The square of the largest difference between two coordinates.
pub const MAX_AXIS_SQ: u128 = 0xFFFF_FFFE_0000_0001;

/// The squared difference of two points along axis `d`.
pub open spec fn axis_sq(a: Seq<i32>, b: Seq<i32>, d: int) -> int {
    (a[d] - b[d]) * (a[d] - b[d])
}

/// The squared distance of two points over their first `n` axes.
pub open spec fn sq_dist_upto(a: Seq<i32>, b: Seq<i32>, n: int) -> int
    decreases n,
{
    if n <= 0 {
        0
    } else {
        sq_dist_upto(a, b, n - 1) + axis_sq(a, b, n - 1)
    }
}

/// The squared Euclidean distance of two points.
pub open spec fn sq_dist(a: Seq<i32>, b: Seq<i32>) -> int {
    sq_dist_upto(a, b, a.len() as int)
}

/// One axis contributes a square between zero and `MAX_AXIS_SQ`.
pub proof fn lemma_axis_sq_bounds(a: Seq<i32>, b: Seq<i32>, d: int)
    requires
        0 <= d < a.len(),
        0 <= d < b.len(),
    ensures
        0 <= axis_sq(a, b, d) <= MAX_AXIS_SQ,
{
    let x: int = a[d] - b[d];
    assert(-0xFFFF_FFFF <= x <= 0xFFFF_FFFF);
    assert(0 <= x * x <= 0xFFFF_FFFE_0000_0001) by (nonlinear_arith)
        requires
            -0xFFFF_FFFF <= x <= 0xFFFF_FFFF,
    ;
}

/// A prefix of the squared distance is bounded by its number of axes.
pub proof fn lemma_sq_dist_upto_bounds(a: Seq<i32>, b: Seq<i32>, n: int)
    requires
        0 <= n <= a.len(),
        n <= b.len(),
    ensures
        0 <= sq_dist_upto(a, b, n) <= n * MAX_AXIS_SQ,
    decreases n,
{
    if n > 0 {
        lemma_sq_dist_upto_bounds(a, b, n - 1);
        lemma_axis_sq_bounds(a, b, n - 1);
        assert(n * MAX_AXIS_SQ == (n - 1) * MAX_AXIS_SQ + MAX_AXIS_SQ) by (nonlinear_arith);
    }
}

/// The squared distance is at least the squared difference along any one
/// axis.
pub proof fn lemma_sq_dist_dominates_axis(a: Seq<i32>, b: Seq<i32>, n: int, d: int)
    requires
        0 <= d < n <= a.len(),
        n <= b.len(),
    ensures
        sq_dist_upto(a, b, n) >= axis_sq(a, b, d),
    decreases n,
{
    lemma_sq_dist_upto_bounds(a, b, n - 1);
    lemma_axis_sq_bounds(a, b, n - 1);
    if d < n - 1 {
        lemma_sq_dist_dominates_axis(a, b, n - 1, d);
    }
}

/// In the plane the squared distance is the sum of two squares.
pub proof fn lemma_sq_dist_plane(a: [i32; 2], b: [i32; 2])
    ensures
        sq_dist(a@, b@) == (a@[0] - b@[0]) * (a@[0] - b@[0]) + (a@[1] - b@[1]) * (a@[1] - b@[1]),
{
    assert(a@.len() == 2);
    assert(sq_dist_upto(a@, b@, 0) == 0);
    assert(sq_dist_upto(a@, b@, 1) == sq_dist_upto(a@, b@, 0) + axis_sq(a@, b@, 0));
    assert(sq_dist_upto(a@, b@, 2) == sq_dist_upto(a@, b@, 1) + axis_sq(a@, b@, 1));
}

/// A point is at squared distance zero from itself.
pub proof fn lemma_sq_dist_self(a: Seq<i32>, n: int)
    requires
        0 <= n <= a.len(),
    ensures
        sq_dist_upto(a, a, n) == 0,
    decreases n,
{
    if n > 0 {
        lemma_sq_dist_self(a, n - 1);
    }
}

/// The squared distance is symmetric.
pub proof fn lemma_sq_dist_symmetric(a: Seq<i32>, b: Seq<i32>, n: int)
    requires
        0 <= n <= a.len(),
        n <= b.len(),
    ensures
        sq_dist_upto(a, b, n) == sq_dist_upto(b, a, n),
    decreases n,
{
    if n > 0 {
        lemma_sq_dist_symmetric(a, b, n - 1);
        let x: int = a[n - 1] - b[n - 1];
        let y: int = b[n - 1] - a[n - 1];
        assert(x * x == y * y) by (nonlinear_arith)
            requires
                y == -x,
        ;
    }
}

/// Computes the squared Euclidean distance of two points.
pub fn squared_distance<const DIMS: usize>(a: &[i32; DIMS], b: &[i32; DIMS]) -> (r: u128)
    ensures
        r == sq_dist(a@, b@),
{
    let mut acc: u128 = 0;
    let mut i: usize = 0;
    while i < DIMS
        invariant
            i <= DIMS,
            a@.len() == DIMS,
            b@.len() == DIMS,
            acc == sq_dist_upto(a@, b@, i as int),
        decreases DIMS - i,
    {
        let diff: i128 = a[i] as i128 - b[i] as i128;
        proof {
            lemma_axis_sq_bounds(a@, b@, i as int);
            lemma_sq_dist_upto_bounds(a@, b@, i as int);
            lemma_sq_dist_upto_bounds(a@, b@, i + 1);
            assert((i + 1) * MAX_AXIS_SQ <= 0xFFFF_FFFF_FFFF_FFFF * MAX_AXIS_SQ)
                by (nonlinear_arith)
                requires
                    i + 1 <= 0xFFFF_FFFF_FFFF_FFFF,
            ;
        }
        let sq: i128 = diff * diff;
        acc = acc + sq as u128;
        i = i + 1;
    }
    acc
}

} // verus!
