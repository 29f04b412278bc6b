//! How a full leaf is cut in two: the statistics of its points along each
//! axis, the axis and value of the cut, and the two halves.

use crate::geometry::{sq_dist, sq_dist_upto};
use vstd::prelude::*;

verus! {

/// The most indices whose statistics are computed at once.
pub const MAX_SPLIT_LEN: usize = 0xFFFF_FFFF;

/// Coordinate `d` of the point stored under index `i`.
pub open spec fn coord<const DIMS: usize>(points: Seq<[i32; DIMS]>, i: usize, d: int) -> int {
    points[i as int]@[d] as int
}

/// The sum of coordinate `d` over the listed points.
pub open spec fn coord_sum<const DIMS: usize>(
    points: Seq<[i32; DIMS]>,
    indices: Seq<usize>,
    d: int,
) -> int
    decreases indices.len(),
{
    if indices.len() == 0 {
        0
    } else {
        coord_sum(points, indices.drop_last(), d) + coord(points, indices.last(), d)
    }
}

/// The sum of the squares of coordinate `d` over the listed points.
pub open spec fn coord_sq_sum<const DIMS: usize>(
    points: Seq<[i32; DIMS]>,
    indices: Seq<usize>,
    d: int,
) -> int
    decreases indices.len(),
{
    if indices.len() == 0 {
        0
    } else {
        coord_sq_sum(points, indices.drop_last(), d) + coord(points, indices.last(), d) * coord(
            points,
            indices.last(),
            d,
        )
    }
}

/// The variance of coordinate `d` over the listed points, scaled by the
/// square of their number: `n * sum(c^2) - sum(c)^2`.
pub open spec fn spread<const DIMS: usize>(
    points: Seq<[i32; DIMS]>,
    indices: Seq<usize>,
    d: int,
) -> int {
    indices.len() * coord_sq_sum(points, indices, d) - coord_sum(points, indices, d) * coord_sum(
        points,
        indices,
        d,
    )
}

/// The first axis among the first `dims` whose variance is largest.
pub open spec fn widest_dim<const DIMS: usize>(
    points: Seq<[i32; DIMS]>,
    indices: Seq<usize>,
    dims: int,
) -> int
    decreases dims,
{
    if dims <= 1 {
        0
    } else {
        let before = widest_dim(points, indices, dims - 1);
        if spread(points, indices, dims - 1) > spread(points, indices, before) {
            dims - 1
        } else {
            before
        }
    }
}

/// The least integer that is not below `sum / n`.
pub open spec fn ceil_div(sum: int, n: int) -> int {
    if sum >= 0 {
        (sum + n - 1) / n
    } else {
        -((-sum) / n)
    }
}

/// The mean of coordinate `d` over the listed points, rounded up to the
/// lattice.
pub open spec fn mean_ceil<const DIMS: usize>(
    points: Seq<[i32; DIMS]>,
    indices: Seq<usize>,
    d: int,
) -> int {
    ceil_div(coord_sum(points, indices, d), indices.len() as int)
}

/// The listed indices whose coordinate `d` is below `v` (`low`), or the
/// others, in their listed order.
pub open spec fn side<const DIMS: usize>(
    points: Seq<[i32; DIMS]>,
    indices: Seq<usize>,
    d: int,
    v: int,
    low: bool,
) -> Seq<usize>
    decreases indices.len(),
{
    if indices.len() == 0 {
        Seq::empty()
    } else {
        let rest = side(points, indices.drop_last(), d, v, low);
        if (coord(points, indices.last(), d) < v) == low {
            rest.push(indices.last())
        } else {
            rest
        }
    }
}

/// Every listed index names a stored point.
pub open spec fn all_stored<const DIMS: usize>(points: Seq<[i32; DIMS]>, indices: Seq<usize>) -> bool {
    forall|k: int| 0 <= k < indices.len() ==> #[trigger] indices[k] < points.len()
}

/// `ceil_div` is the rounded-up quotient: `n * (q - 1) < sum <= n * q`.
pub proof fn lemma_ceil_div(sum: int, n: int)
    requires
        n > 0,
    ensures
        n * (ceil_div(sum, n) - 1) < sum <= n * ceil_div(sum, n),
{
    if sum >= 0 {
        let t = sum + n - 1;
        let q = t / n;
        assert(t == n * q + t % n && 0 <= t % n < n) by (nonlinear_arith)
            requires
                n > 0,
                q == t / n,
        ;
        assert(n * (q - 1) == n * q - n) by (nonlinear_arith);
    } else {
        let t = -sum;
        let q = t / n;
        assert(t == n * q + t % n && 0 <= t % n < n) by (nonlinear_arith)
            requires
                n > 0,
                q == t / n,
        ;
        assert(n * (-q - 1) == -(n * q) - n && n * (-q) == -(n * q)) by (nonlinear_arith);
    }
}

/// A lattice coordinate is below the rounded-up mean exactly when it is
/// below the mean itself.
pub proof fn lemma_below_mean(sum: int, n: int, c: int)
    requires
        n > 0,
    ensures
        c < ceil_div(sum, n) <==> n * c < sum,
{
    lemma_ceil_div(sum, n);
    let v = ceil_div(sum, n);
    if c < v {
        assert(n * c <= n * (v - 1)) by (nonlinear_arith)
            requires
                n > 0,
                c <= v - 1,
        ;
    } else {
        assert(n * c >= n * v) by (nonlinear_arith)
            requires
                n > 0,
                c >= v,
        ;
    }
}

/// The sums over a list extended by one index.
pub proof fn lemma_sums_push<const DIMS: usize>(
    points: Seq<[i32; DIMS]>,
    indices: Seq<usize>,
    i: usize,
    d: int,
)
    ensures
        coord_sum(points, indices.push(i), d) == coord_sum(points, indices, d) + coord(points, i, d),
        coord_sq_sum(points, indices.push(i), d) == coord_sq_sum(points, indices, d) + coord(
            points,
            i,
            d,
        ) * coord(points, i, d),
{
    assert(indices.push(i).drop_last() =~= indices);
}

/// One side of a list extended by one index.
pub proof fn lemma_side_push<const DIMS: usize>(
    points: Seq<[i32; DIMS]>,
    indices: Seq<usize>,
    i: usize,
    d: int,
    v: int,
    low: bool,
)
    ensures
        side(points, indices.push(i), d, v, low) == if (coord(points, i, d) < v) == low {
            side(points, indices, d, v, low).push(i)
        } else {
            side(points, indices, d, v, low)
        },
{
    assert(indices.push(i).drop_last() =~= indices);
}

/// The sums stay within what `n` coordinates can add up to.
pub proof fn lemma_sums_bounds<const DIMS: usize>(
    points: Seq<[i32; DIMS]>,
    indices: Seq<usize>,
    d: int,
)
    requires
        all_stored(points, indices),
        0 <= d < DIMS,
    ensures
        -0x8000_0000 * indices.len() <= coord_sum(points, indices, d) <= 0x7FFF_FFFF
            * indices.len(),
        0 <= coord_sq_sum(points, indices, d) <= 0x4000_0000_0000_0000 * indices.len(),
    decreases indices.len(),
{
    if indices.len() > 0 {
        let rest = indices.drop_last();
        assert forall|k: int| 0 <= k < rest.len() implies #[trigger] rest[k] < points.len() by {
            assert(rest[k] == indices[k]);
        }
        lemma_sums_bounds(points, rest, d);
        let c = coord(points, indices.last(), d);
        assert(indices[indices.len() - 1] < points.len());
        assert(-0x8000_0000 <= c <= 0x7FFF_FFFF);
        assert(0 <= c * c <= 0x4000_0000_0000_0000) by (nonlinear_arith)
            requires
                -0x8000_0000 <= c <= 0x7FFF_FFFF,
        ;
    }
}

/// Both sides together hold every listed index once.
pub proof fn lemma_sides_len<const DIMS: usize>(
    points: Seq<[i32; DIMS]>,
    indices: Seq<usize>,
    d: int,
    v: int,
)
    ensures
        side(points, indices, d, v, true).len() + side(points, indices, d, v, false).len()
            == indices.len(),
    decreases indices.len(),
{
    if indices.len() > 0 {
        lemma_sides_len(points, indices.drop_last(), d, v);
    }
}

/// A side holds exactly the listed indices on its side of `v`.
pub proof fn lemma_side_contains<const DIMS: usize>(
    points: Seq<[i32; DIMS]>,
    indices: Seq<usize>,
    d: int,
    v: int,
    low: bool,
    i: usize,
)
    ensures
        side(points, indices, d, v, low).contains(i) <==> indices.contains(i) && (coord(
            points,
            i,
            d,
        ) < v) == low,
    decreases indices.len(),
{
    let s = side(points, indices, d, v, low);
    if indices.len() > 0 {
        let rest = indices.drop_last();
        let r = side(points, rest, d, v, low);
        let last = indices.last();
        lemma_side_contains(points, rest, d, v, low, i);
        if indices.contains(i) {
            let k = choose|k: int| 0 <= k < indices.len() && indices[k] == i;
            if k < indices.len() - 1 {
                assert(rest[k] == i);
            }
        }
        if rest.contains(i) {
            let k = choose|k: int| 0 <= k < rest.len() && rest[k] == i;
            assert(indices[k] == i);
        }
        assert(indices[indices.len() - 1] == last);
        if (coord(points, last, d) < v) == low {
            assert(s == r.push(last));
            if r.contains(i) {
                let k = choose|k: int| 0 <= k < r.len() && r[k] == i;
                assert(s[k] == i);
            }
            assert(s[s.len() - 1] == last);
            if s.contains(i) {
                let k = choose|k: int| 0 <= k < s.len() && s[k] == i;
                if k < r.len() {
                    assert(r[k] == i);
                }
            }
        }
    }
}

/// A side of a list without repetition has none either.
pub proof fn lemma_side_no_duplicates<const DIMS: usize>(
    points: Seq<[i32; DIMS]>,
    indices: Seq<usize>,
    d: int,
    v: int,
    low: bool,
)
    requires
        indices.no_duplicates(),
    ensures
        side(points, indices, d, v, low).no_duplicates(),
    decreases indices.len(),
{
    if indices.len() > 0 {
        let rest = indices.drop_last();
        let r = side(points, rest, d, v, low);
        let last = indices.last();
        assert forall|j: int, k: int| 0 <= j < rest.len() && 0 <= k < rest.len() && j != k implies rest[j]
            != rest[k] by {
            assert(rest[j] == indices[j] && rest[k] == indices[k]);
        }
        lemma_side_no_duplicates(points, rest, d, v, low);
        lemma_side_contains(points, rest, d, v, low, last);
        if rest.contains(last) {
            let k = choose|k: int| 0 <= k < rest.len() && rest[k] == last;
            assert(indices[k] == indices[indices.len() - 1]);
        }
        assert(!r.contains(last));
    }
}

/// The sum of the squared differences between `x` and coordinate `d` of the
/// listed points: `n * x^2 - 2 * x * sum(c) + sum(c^2)`.
pub open spec fn sq_dev<const DIMS: usize>(
    points: Seq<[i32; DIMS]>,
    indices: Seq<usize>,
    d: int,
    x: int,
) -> int {
    indices.len() * (x * x) - 2 * x * coord_sum(points, indices, d) + coord_sq_sum(
        points,
        indices,
        d,
    )
}

/// The squared deviation from `x` is never negative, and positive as soon
/// as one listed coordinate differs from `x`.
pub proof fn lemma_sq_dev_sign<const DIMS: usize>(
    points: Seq<[i32; DIMS]>,
    indices: Seq<usize>,
    d: int,
    x: int,
)
    ensures
        sq_dev(points, indices, d, x) >= 0,
        (exists|k: int| 0 <= k < indices.len() && coord(points, #[trigger] indices[k], d) != x)
            ==> sq_dev(points, indices, d, x) > 0,
    decreases indices.len(),
{
    if indices.len() > 0 {
        let rest = indices.drop_last();
        let c = coord(points, indices.last(), d);
        lemma_sq_dev_sign(points, rest, d, x);
        let n = rest.len() as int;
        let s = coord_sum(points, rest, d);
        let q = coord_sq_sum(points, rest, d);
        assert((n + 1) * (x * x) - 2 * x * (s + c) + (q + c * c) == (n * (x * x) - 2 * x * s + q) + (c
            - x) * (c - x)) by (nonlinear_arith);
        assert((c - x) * (c - x) >= 0) by (nonlinear_arith);
        assert(c != x ==> (c - x) * (c - x) > 0) by (nonlinear_arith);
        if exists|k: int| 0 <= k < indices.len() && coord(points, #[trigger] indices[k], d) != x {
            let k = choose|k: int|
                0 <= k < indices.len() && coord(points, #[trigger] indices[k], d) != x;
            if k < indices.len() - 1 {
                assert(rest[k] == indices[k]);
            }
        }
    }
}

/// The scaled variance is never negative, and positive as soon as two
/// listed coordinates differ.
pub proof fn lemma_spread_sign<const DIMS: usize>(
    points: Seq<[i32; DIMS]>,
    indices: Seq<usize>,
    d: int,
)
    ensures
        spread(points, indices, d) >= 0,
        (exists|j: int, k: int|
            0 <= j < indices.len() && 0 <= k < indices.len() && coord(
                points,
                #[trigger] indices[j],
                d,
            ) != coord(points, #[trigger] indices[k], d)) ==> spread(points, indices, d) > 0,
    decreases indices.len(),
{
    if indices.len() > 0 {
        let rest = indices.drop_last();
        let x = coord(points, indices.last(), d);
        lemma_spread_sign(points, rest, d);
        lemma_sq_dev_sign(points, rest, d, x);
        let n = rest.len() as int;
        let s = coord_sum(points, rest, d);
        let q = coord_sq_sum(points, rest, d);
        assert((n + 1) * (q + x * x) - (s + x) * (s + x) == (n * q - s * s) + (n * (x * x) - 2 * x * s
            + q)) by (nonlinear_arith);
        if exists|j: int, k: int|
            0 <= j < indices.len() && 0 <= k < indices.len() && coord(
                points,
                #[trigger] indices[j],
                d,
            ) != coord(points, #[trigger] indices[k], d) {
            let (j, k) = choose|j: int, k: int|
                0 <= j < indices.len() && 0 <= k < indices.len() && coord(
                    points,
                    #[trigger] indices[j],
                    d,
                ) != coord(points, #[trigger] indices[k], d);
            let last = indices.len() - 1;
            if j < last && k < last {
                assert(rest[j] == indices[j] && rest[k] == indices[k]);
            } else if j < last {
                assert(rest[j] == indices[j]);
                assert(coord(points, rest[j], d) != x);
            } else if k < last {
                assert(rest[k] == indices[k]);
                assert(coord(points, rest[k], d) != x);
            }
        }
    }
}

/// Coordinates that never exceed `m` sum to at most `n * m`; coordinates
/// that are never below `m` sum to at least `n * m`.
pub proof fn lemma_sum_between<const DIMS: usize>(
    points: Seq<[i32; DIMS]>,
    indices: Seq<usize>,
    d: int,
    m: int,
)
    ensures
        (forall|k: int| 0 <= k < indices.len() ==> coord(points, #[trigger] indices[k], d) <= m)
            ==> coord_sum(points, indices, d) <= indices.len() * m,
        (forall|k: int| 0 <= k < indices.len() ==> coord(points, #[trigger] indices[k], d) >= m)
            ==> coord_sum(points, indices, d) >= indices.len() * m,
    decreases indices.len(),
{
    if indices.len() > 0 {
        let rest = indices.drop_last();
        lemma_sum_between(points, rest, d, m);
        let n = rest.len() as int;
        assert((n + 1) * m == n * m + m) by (nonlinear_arith);
        assert(indices[indices.len() - 1] == indices.last());
        assert forall|k: int| 0 <= k < rest.len() implies rest[k] == indices[k] by {}
    } else {
        assert(indices.len() * m == 0) by (nonlinear_arith)
            requires
                indices.len() == 0,
        ;
    }
}

/// Coordinates that are never below `m` and sum to `n * m` all equal `m`,
/// and then their scaled variance is zero.
pub proof fn lemma_constant_column<const DIMS: usize>(
    points: Seq<[i32; DIMS]>,
    indices: Seq<usize>,
    d: int,
    m: int,
)
    requires
        forall|k: int| 0 <= k < indices.len() ==> coord(points, #[trigger] indices[k], d) >= m,
        coord_sum(points, indices, d) == indices.len() * m,
    ensures
        forall|k: int| 0 <= k < indices.len() ==> coord(points, #[trigger] indices[k], d) == m,
        coord_sq_sum(points, indices, d) == indices.len() * (m * m),
        spread(points, indices, d) == 0,
    decreases indices.len(),
{
    let n1 = indices.len() as int;
    if indices.len() > 0 {
        let rest = indices.drop_last();
        let n = rest.len() as int;
        let c = coord(points, indices.last(), d);
        assert(indices[indices.len() - 1] == indices.last());
        assert forall|k: int| 0 <= k < rest.len() implies coord(points, #[trigger] rest[k], d)
            >= m by {
            assert(rest[k] == indices[k]);
        }
        lemma_sum_between(points, rest, d, m);
        assert((n + 1) * m == n * m + m) by (nonlinear_arith);
        lemma_constant_column(points, rest, d, m);
        assert forall|k: int| 0 <= k < indices.len() implies coord(points, #[trigger] indices[k], d)
            == m by {
            if k < rest.len() {
                assert(rest[k] == indices[k]);
            }
        }
        assert((n + 1) * (m * m) == n * (m * m) + m * m) by (nonlinear_arith);
    } else {
        assert(n1 * (m * m) == 0) by (nonlinear_arith)
            requires
                n1 == 0,
        ;
    }
    let q = coord_sq_sum(points, indices, d);
    let s = coord_sum(points, indices, d);
    assert(n1 * q - s * s == 0) by (nonlinear_arith)
        requires
            q == n1 * (m * m),
            s == n1 * m,
    ;
}

/// The widest axis is one of the first `dims`, and no axis among them has
/// a larger variance.
pub proof fn lemma_widest_dim<const DIMS: usize>(
    points: Seq<[i32; DIMS]>,
    indices: Seq<usize>,
    dims: int,
)
    requires
        dims >= 1,
    ensures
        0 <= widest_dim(points, indices, dims) < dims,
        forall|e: int|
            0 <= e < dims ==> spread(points, indices, widest_dim(points, indices, dims)) >= #[trigger] spread(
                points,
                indices,
                e,
            ),
    decreases dims,
{
    if dims > 1 {
        lemma_widest_dim(points, indices, dims - 1);
    }
}

/// Two points at a positive squared distance differ along some axis.
pub proof fn lemma_differing_axis(a: Seq<i32>, b: Seq<i32>, n: int) -> (d: int)
    requires
        0 <= n <= a.len(),
        n <= b.len(),
        sq_dist_upto(a, b, n) > 0,
    ensures
        0 <= d < n,
        a[d] != b[d],
    decreases n,
{
    if a[n - 1] != b[n - 1] {
        n - 1
    } else {
        lemma_differing_axis(a, b, n - 1)
    }
}

/// A cut through the mean of the widest axis leaves points on both sides,
/// as long as two of the listed points differ.
pub proof fn lemma_split_divides<const DIMS: usize>(points: Seq<[i32; DIMS]>, indices: Seq<usize>)
    requires
        all_stored(points, indices),
        indices.len() >= 2,
        sq_dist(points[indices[0] as int]@, points[indices[1] as int]@) > 0,
    ensures
        0 <= widest_dim(points, indices, DIMS as int) < DIMS,
        -0x8000_0000 <= mean_ceil(points, indices, widest_dim(points, indices, DIMS as int))
            <= 0x7FFF_FFFF,
        side(
            points,
            indices,
            widest_dim(points, indices, DIMS as int),
            mean_ceil(points, indices, widest_dim(points, indices, DIMS as int)),
            true,
        ).len() >= 1,
        side(
            points,
            indices,
            widest_dim(points, indices, DIMS as int),
            mean_ceil(points, indices, widest_dim(points, indices, DIMS as int)),
            false,
        ).len() >= 1,
{
    let a = points[indices[0] as int]@;
    let b = points[indices[1] as int]@;
    assert(a.len() == DIMS && b.len() == DIMS);
    let e = lemma_differing_axis(a, b, DIMS as int);
    let d = widest_dim(points, indices, DIMS as int);
    lemma_widest_dim(points, indices, DIMS as int);
    assert(coord(points, indices[0], e) != coord(points, indices[1], e));
    lemma_spread_sign(points, indices, e);
    assert(spread(points, indices, e) > 0);
    assert(spread(points, indices, d) > 0);
    let n = indices.len() as int;
    let s = coord_sum(points, indices, d);
    let v = mean_ceil(points, indices, d);
    lemma_ceil_div(s, n);
    lemma_sums_bounds(points, indices, d);
    assert(-0x8000_0000 <= v <= 0x7FFF_FFFF) by (nonlinear_arith)
        requires
            n > 0,
            n * (v - 1) < s <= n * v,
            -0x8000_0000 * n <= s <= 0x7FFF_FFFF * n,
    ;
    let low = side(points, indices, d, v, true);
    let high = side(points, indices, d, v, false);
    if high.len() == 0 {
        assert forall|k: int| 0 <= k < indices.len() implies coord(points, #[trigger] indices[k], d)
            <= v - 1 by {
            lemma_side_contains(points, indices, d, v, false, indices[k]);
            assert(!high.contains(indices[k]));
        }
        lemma_sum_between(points, indices, d, v - 1);
        assert(false);
    }
    if low.len() == 0 {
        assert forall|k: int| 0 <= k < indices.len() implies coord(points, #[trigger] indices[k], d)
            >= v by {
            lemma_side_contains(points, indices, d, v, true, indices[k]);
            assert(!low.contains(indices[k]));
        }
        lemma_sum_between(points, indices, d, v);
        lemma_constant_column(points, indices, d, v);
        assert(false);
    }
}

/// A prefix of a list of stored points lists stored points.
proof fn lemma_prefix_stored<const DIMS: usize>(points: Seq<[i32; DIMS]>, indices: Seq<usize>, k: int)
    requires
        all_stored(points, indices),
        0 <= k <= indices.len(),
    ensures
        all_stored(points, indices.take(k)),
        k < indices.len() ==> indices.take(k + 1) == indices.take(k).push(indices[k]),
        k == indices.len() ==> indices.take(k) == indices,
{
    assert forall|j: int| 0 <= j < indices.take(k).len() implies #[trigger] indices.take(k)[j]
        < points.len() by {
        assert(indices.take(k)[j] == indices[j]);
    }
    if k < indices.len() {
        assert(indices.take(k + 1) =~= indices.take(k).push(indices[k]));
    } else {
        assert(indices.take(k) =~= indices);
    }
}

/// The sum and the sum of squares of coordinate `d` over the listed points.
fn axis_sums<const DIMS: usize>(points: &Vec<[i32; DIMS]>, indices: &Vec<usize>, d: usize) -> (sums: (
    i128,
    i128,
))
    requires
        all_stored(points@, indices@),
        d < DIMS,
        indices@.len() <= MAX_SPLIT_LEN,
    ensures
        sums.0 == coord_sum(points@, indices@, d as int),
        sums.1 == coord_sq_sum(points@, indices@, d as int),
{
    let mut sum: i128 = 0;
    let mut sq_sum: i128 = 0;
    let mut k: usize = 0;
    while k < indices.len()
        invariant
            k <= indices@.len(),
            indices@.len() <= MAX_SPLIT_LEN,
            all_stored(points@, indices@),
            d < DIMS,
            sum == coord_sum(points@, indices@.take(k as int), d as int),
            sq_sum == coord_sq_sum(points@, indices@.take(k as int), d as int),
        decreases indices@.len() - k,
    {
        let c: i128 = points[indices[k]][d] as i128;
        proof {
            lemma_prefix_stored(points@, indices@, k as int);
            lemma_prefix_stored(points@, indices@, k + 1);
            lemma_sums_push(points@, indices@.take(k as int), indices@[k as int], d as int);
            lemma_sums_bounds(points@, indices@.take(k as int), d as int);
            lemma_sums_bounds(points@, indices@.take(k + 1), d as int);
            assert(0 <= c * c <= 0x4000_0000_0000_0000) by (nonlinear_arith)
                requires
                    -0x8000_0000 <= c <= 0x7FFF_FFFF,
            ;
        }
        sum = sum + c;
        sq_sum = sq_sum + c * c;
        k = k + 1;
    }
    proof {
        lemma_prefix_stored(points@, indices@, k as int);
    }
    (sum, sq_sum)
}

/// The scaled variance from the two sums, with its sum.
fn axis_spread<const DIMS: usize>(points: &Vec<[i32; DIMS]>, indices: &Vec<usize>, d: usize) -> (out: (
    i128,
    i128,
))
    requires
        all_stored(points@, indices@),
        d < DIMS,
        indices@.len() <= MAX_SPLIT_LEN,
    ensures
        out.0 == spread(points@, indices@, d as int),
        out.1 == coord_sum(points@, indices@, d as int),
{
    let (sum, sq_sum) = axis_sums(points, indices, d);
    let n: i128 = indices.len() as i128;
    proof {
        lemma_sums_bounds(points@, indices@, d as int);
        assert(0 <= n * sq_sum <= 0x3FFF_FFFF_8000_0000_4000_0000_0000_0000)
            by (nonlinear_arith)
            requires
                0 <= n <= 0xFFFF_FFFF,
                0 <= sq_sum <= 0x4000_0000_0000_0000 * n,
        ;
        assert(0 <= sum * sum <= 0x3FFF_FFFF_8000_0000_4000_0000_0000_0000)
            by (nonlinear_arith)
            requires
                0 <= n <= 0xFFFF_FFFF,
                -0x8000_0000 * n <= sum <= 0x7FFF_FFFF * n,
        ;
    }
    (n * sq_sum - sum * sum, sum)
}

/// Where to cut the listed points: the first axis of largest variance, and
/// the mean along it, rounded up to the lattice.
pub fn find_split<const DIMS: usize>(points: &Vec<[i32; DIMS]>, indices: &Vec<usize>) -> (cut: (
    usize,
    i32,
))
    requires
        all_stored(points@, indices@),
        0 < DIMS,
        0 < indices@.len() <= MAX_SPLIT_LEN,
    ensures
        cut.0 < DIMS,
        cut.0 == widest_dim(points@, indices@, DIMS as int),
        cut.1 == mean_ceil(points@, indices@, cut.0 as int),
{
    let (first_spread, first_sum) = axis_spread(points, indices, 0);
    let mut best_dim: usize = 0;
    let mut best_spread: i128 = first_spread;
    let mut best_sum: i128 = first_sum;
    let mut d: usize = 1;
    while d < DIMS
        invariant
            1 <= d <= DIMS,
            all_stored(points@, indices@),
            0 < indices@.len() <= MAX_SPLIT_LEN,
            best_dim == widest_dim(points@, indices@, d as int),
            best_dim < d,
            best_spread == spread(points@, indices@, best_dim as int),
            best_sum == coord_sum(points@, indices@, best_dim as int),
        decreases DIMS - d,
    {
        let (this_spread, this_sum) = axis_spread(points, indices, d);
        if this_spread > best_spread {
            best_dim = d;
            best_spread = this_spread;
            best_sum = this_sum;
        }
        d = d + 1;
    }
    let n: i128 = indices.len() as i128;
    proof {
        lemma_sums_bounds(points@, indices@, best_dim as int);
        lemma_ceil_div(best_sum as int, n as int);
        let v = ceil_div(best_sum as int, n as int);
        assert(-0x8000_0000 <= v <= 0x7FFF_FFFF) by (nonlinear_arith)
            requires
                n > 0,
                n * (v - 1) < best_sum <= n * v,
                -0x8000_0000 * n <= best_sum <= 0x7FFF_FFFF * n,
        ;
    }
    let mean: i128 = if best_sum >= 0 {
        (best_sum + n - 1) / n
    } else {
        -((-best_sum) / n)
    };
    (best_dim, mean as i32)
}

/// The listed indices on one side of a cut, in their listed order.
pub fn split_side<const DIMS: usize>(
    points: &Vec<[i32; DIMS]>,
    indices: &Vec<usize>,
    d: usize,
    v: i32,
    low: bool,
) -> (out: Vec<usize>)
    requires
        all_stored(points@, indices@),
        d < DIMS,
    ensures
        out@ == side(points@, indices@, d as int, v as int, low),
{
    let mut out: Vec<usize> = Vec::new();
    let mut k: usize = 0;
    while k < indices.len()
        invariant
            k <= indices@.len(),
            all_stored(points@, indices@),
            d < DIMS,
            out@ == side(points@, indices@.take(k as int), d as int, v as int, low),
        decreases indices@.len() - k,
    {
        let i = indices[k];
        proof {
            lemma_prefix_stored(points@, indices@, k as int);
            lemma_side_push(points@, indices@.take(k as int), i, d as int, v as int, low);
        }
        if (points[i][d] < v) == low {
            out.push(i);
        }
        k = k + 1;
    }
    proof {
        lemma_prefix_stored(points@, indices@, k as int);
    }
    out
}

} // verus!
