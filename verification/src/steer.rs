//! Steering: the point one step from a tree node towards a sample, on the
//! lattice.

use vstd::prelude::*;

verus! {

/// `r` is the square root of `x`, rounded down.
pub open spec fn is_sqrt_floor(x: int, r: int) -> bool {
    0 <= r && r * r <= x < (r + 1) * (r + 1)
}

/// The square root of `x`, rounded down.
pub open spec fn sqrt_floor(x: int) -> int {
    choose|r: int| is_sqrt_floor(x, r)
}

/// Only one number is the rounded-down square root of `x`.
pub proof fn lemma_sqrt_floor_unique(x: int, r: int)
    requires
        is_sqrt_floor(x, r),
    ensures
        sqrt_floor(x) == r,
{
    let c = sqrt_floor(x);
    assert(is_sqrt_floor(x, c));
    assert(c == r) by (nonlinear_arith)
        requires
            0 <= r,
            0 <= c,
            r * r <= x < (r + 1) * (r + 1),
            c * c <= x < (c + 1) * (c + 1),
    ;
}

/// Every number that is not negative has a rounded-down square root.
pub proof fn lemma_sqrt_floor(x: int)
    requires
        x >= 0,
    ensures
        is_sqrt_floor(x, sqrt_floor(x)),
    decreases x,
{
    if x == 0 {
        assert(is_sqrt_floor(0, 0));
    } else {
        lemma_sqrt_floor(x - 1);
        let r = sqrt_floor(x - 1);
        assert((r + 2) * (r + 2) > (r + 1) * (r + 1)) by (nonlinear_arith)
            requires
                r >= 0,
        ;
        if x < (r + 1) * (r + 1) {
            assert(is_sqrt_floor(x, r));
        } else {
            assert(is_sqrt_floor(x, r + 1));
        }
    }
}

/// The square root of `x`, rounded down.
pub fn isqrt(x: u128) -> (r: u64)
    ensures
        is_sqrt_floor(x as int, r as int),
        r == sqrt_floor(x as int),
{
    let mut lo: u128 = 0;
    let mut hi: u128 = 0x1_0000_0000_0000_0000;
    assert(hi * hi > x) by (nonlinear_arith)
        requires
            hi == 0x1_0000_0000_0000_0000,
            x <= 0xFFFF_FFFF_FFFF_FFFF_FFFF_FFFF_FFFF_FFFF,
    ;
    while hi - lo > 1
        invariant
            lo < hi <= 0x1_0000_0000_0000_0000,
            lo * lo <= x < hi * hi,
        decreases hi - lo,
    {
        let mid: u128 = lo + (hi - lo) / 2;
        assert(mid * mid <= 0xFFFF_FFFF_FFFF_FFFF * 0xFFFF_FFFF_FFFF_FFFF) by (nonlinear_arith)
            requires
                0 <= mid <= 0xFFFF_FFFF_FFFF_FFFF,
        ;
        if mid * mid <= x {
            lo = mid;
        } else {
            hi = mid;
        }
    }
    proof {
        lemma_sqrt_floor_unique(x as int, lo as int);
    }
    lo as u64
}

/// How far the step reaches along an axis on which the sample lies `d`
/// away: `|d| * step / sqrt(len_sq)`, rounded towards zero, with the sign
/// of `d`.
pub open spec fn offset(d: int, step: int, len_sq: int) -> int {
    let reach = sqrt_floor(((d * step) * (d * step)) / len_sq);
    if d >= 0 {
        reach
    } else {
        -reach
    }
}

/// The point one `step` from `from` towards `to`, or `None` when the two
/// coincide and there is no direction to go in.
pub open spec fn steered(from: [i32; 2], to: [i32; 2], step: int) -> Option<(int, int)> {
    let dx = to@[0] - from@[0];
    let dy = to@[1] - from@[1];
    let len_sq = dx * dx + dy * dy;
    if len_sq == 0 {
        None
    } else {
        Some((from@[0] + offset(dx, step, len_sq), from@[1] + offset(dy, step, len_sq)))
    }
}

/// The squared reach along an axis, times the squared length of the way
/// to the sample, is at most the square of that axis's share of the step.
pub proof fn lemma_offset_bound(d: int, step: int, len_sq: int)
    requires
        len_sq > 0,
    ensures
        offset(d, step, len_sq) * offset(d, step, len_sq) * len_sq <= (d * step) * (d * step),
{
    let square = (d * step) * (d * step);
    assert(square >= 0) by (nonlinear_arith)
        requires
            square == (d * step) * (d * step),
    ;
    let q = square / len_sq;
    assert(0 <= q && q * len_sq <= square) by (nonlinear_arith)
        requires
            q == square / len_sq,
            len_sq > 0,
            square >= 0,
    ;
    lemma_sqrt_floor(q);
    let r = sqrt_floor(q);
    let off = offset(d, step, len_sq);
    assert(off * off == r * r) by (nonlinear_arith)
        requires
            off == r || off == -r,
    ;
    assert((r * r) * len_sq <= q * len_sq) by (nonlinear_arith)
        requires
            r * r <= q,
            len_sq > 0,
    ;
}

/// One step is never longer than `step`: the steered point lies within
/// that distance of the point it was steered from.
pub proof fn lemma_step_length(from: [i32; 2], to: [i32; 2], step: int)
    requires
        step >= 0,
        steered(from, to, step) is Some,
    ensures
        ({
            let (x, y) = steered(from, to, step).unwrap();
            (x - from@[0]) * (x - from@[0]) + (y - from@[1]) * (y - from@[1]) <= step * step
        }),
{
    let dx = to@[0] - from@[0];
    let dy = to@[1] - from@[1];
    let len_sq = dx * dx + dy * dy;
    let ox = offset(dx, step, len_sq);
    let oy = offset(dy, step, len_sq);
    assert(len_sq > 0) by (nonlinear_arith)
        requires
            len_sq == dx * dx + dy * dy,
            len_sq != 0,
    ;
    lemma_offset_bound(dx, step, len_sq);
    lemma_offset_bound(dy, step, len_sq);
    assert((dx * step) * (dx * step) + (dy * step) * (dy * step) == (step * step) * len_sq)
        by (nonlinear_arith)
        requires
            len_sq == dx * dx + dy * dy,
    ;
    assert(ox * ox * len_sq + oy * oy * len_sq == (ox * ox + oy * oy) * len_sq) by (nonlinear_arith);
    assert(ox * ox + oy * oy <= step * step) by (nonlinear_arith)
        requires
            (ox * ox + oy * oy) * len_sq <= (step * step) * len_sq,
            len_sq > 0,
    ;
}

/// The step's reach along one axis.
fn axis_offset(d: i64, step: u32, len_sq: u128) -> (off: i64)
    requires
        -0xFFFF_FFFF <= d <= 0xFFFF_FFFF,
        len_sq > 0,
        d * d <= len_sq,
    ensures
        off == offset(d as int, step as int, len_sq as int),
        -step <= off <= step,
{
    let size: u128 = if d >= 0 {
        d as u128
    } else {
        (-d) as u128
    };
    assert(size * step <= 0xFFFF_FFFF * 0xFFFF_FFFF) by (nonlinear_arith)
        requires
            0 <= size <= 0xFFFF_FFFF,
            0 <= step <= 0xFFFF_FFFF,
    ;
    let scaled: u128 = size * step as u128;
    assert(scaled * scaled <= 0xFFFF_FFFE_0000_0001 * 0xFFFF_FFFE_0000_0001) by (nonlinear_arith)
        requires
            0 <= scaled <= 0xFFFF_FFFE_0000_0001,
    ;
    let square: u128 = scaled * scaled;
    let reach: u64 = isqrt(square / len_sq);
    proof {
        let q = (square / len_sq) as int;
        let s = step as int;
        let ds = d as int * s;
        assert(square == ds * ds) by (nonlinear_arith)
            requires
                scaled == size * s,
                size == d || size == -d,
                ds == d * s,
                square == scaled * scaled,
        ;
        assert(square <= len_sq * (s * s)) by (nonlinear_arith)
            requires
                square == ds * ds,
                ds == d * s,
                d * d <= len_sq,
                0 <= s,
        ;
        assert(q <= s * s) by (nonlinear_arith)
            requires
                q == square / len_sq,
                len_sq > 0,
                0 <= square <= len_sq * (s * s),
        ;
        assert(reach <= s) by (nonlinear_arith)
            requires
                0 <= reach,
                0 <= s,
                reach * reach <= q,
                q <= s * s,
        ;
    }
    if d >= 0 {
        reach as i64
    } else {
        -(reach as i64)
    }
}

/// The point one `step` from `from` towards `to`, or `None` when the two
/// coincide.
pub fn steer(from: &[i32; 2], to: &[i32; 2], step: u32) -> (target: Option<(i64, i64)>)
    ensures
        target is None <==> steered(*from, *to, step as int) is None,
        target is Some ==> steered(*from, *to, step as int) == Some(
            (target.unwrap().0 as int, target.unwrap().1 as int),
        ),
{
    let dx: i64 = to[0] as i64 - from[0] as i64;
    let dy: i64 = to[1] as i64 - from[1] as i64;
    assert(0 <= dx * dx <= 0xFFFF_FFFE_0000_0001) by (nonlinear_arith)
        requires
            -0xFFFF_FFFF <= dx <= 0xFFFF_FFFF,
    ;
    assert(0 <= dy * dy <= 0xFFFF_FFFE_0000_0001) by (nonlinear_arith)
        requires
            -0xFFFF_FFFF <= dy <= 0xFFFF_FFFF,
    ;
    let len_sq: u128 = (dx as i128 * dx as i128) as u128 + (dy as i128 * dy as i128) as u128;
    if len_sq == 0 {
        return None;
    }
    let off_x = axis_offset(dx, step, len_sq);
    let off_y = axis_offset(dy, step, len_sq);
    Some((from[0] as i64 + off_x, from[1] as i64 + off_y))
}

} // verus!
