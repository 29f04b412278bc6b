//! What the walk of a segment guarantees of its geometry: a segment that
//! has a point strictly inside an occupied cell is reported occupied.
//!
//! A point of the segment from `a` to `b` is named by a fraction
//! `num / den` of the way; its position along one axis, scaled by `den`,
//! is `a * den + num * (b - a)`.

use crate::grid::{lemma_cell_of, GridView};
use crate::raytrace::{
    ends_before, lead, next_line, segment, segment_occupied, span, start, trace, Cursor, Segment,
};
use vstd::prelude::*;

verus! {

/// The position, scaled by `den`, of the point `num / den` of the way from
/// `a` to `b` along one axis.
pub open spec fn scaled(a: int, b: int, num: int, den: int) -> int {
    a * den + num * (b - a)
}

/// `num / den` names a point of the segment.
pub open spec fn on_segment(num: int, den: int) -> bool {
    0 <= num <= den && den > 0
}

/// Along one axis the point lies strictly between the two lines of the
/// cells with lower line `lower`.
pub open spec fn within(lower: int, res: int, a: int, b: int, num: int, den: int) -> bool {
    lower * den < scaled(a, b, num, den) < (lower + res) * den
}

/// The point `num / den` of the segment lies strictly inside cell
/// `(x, y)`.
pub open spec fn strictly_inside(g: GridView, s: Segment, x: int, y: int, num: int, den: int) -> bool {
    &&& within(g.origin_x + x * g.resolution, g.resolution, s.ax, s.bx, num, den)
    &&& within(g.origin_y + y * g.resolution, g.resolution, s.ay, s.by, num, den)
}

/// Along one axis the point has come as far as the cells with lower line
/// `lower`: it lies on them or beyond, in the direction of the segment.
pub open spec fn ahead(lower: int, res: int, a: int, b: int, num: int, den: int) -> bool {
    if b > a {
        scaled(a, b, num, den) >= lower * den
    } else if b < a {
        scaled(a, b, num, den) <= (lower + res) * den
    } else {
        lower <= a < lower + res
    }
}

/// Along one axis the point has left the cells with lower line `lower`: it
/// lies on the line ahead or beyond it.
pub open spec fn past(lower: int, res: int, a: int, b: int, num: int, den: int) -> bool {
    if b > a {
        scaled(a, b, num, den) >= (lower + res) * den
    } else if b < a {
        scaled(a, b, num, den) <= lower * den
    } else {
        false
    }
}

/// Along one axis the cursor's cell lies on the grid, or just off it on
/// the side to which the segment runs, and its lower line is where the
/// grid puts it.
pub open spec fn on_course(origin: int, cells: int, res: int, a: int, b: int, cell: int, lower: int) -> bool {
    &&& lower == origin + cell * res
    &&& if b > a {
        0 <= cell
    } else if b < a {
        cell < cells
    } else {
        0 <= cell < cells
    }
}

/// A line that the point has reached is one that the segment meets.
proof fn lemma_past_is_met(lower: int, res: int, a: int, b: int, num: int, den: int)
    requires
        on_segment(num, den),
        past(lower, res, a, b, num, den),
    ensures
        !ends_before(next_line(lower, res, a, b), a, b),
        a != b,
{
    let d = b - a;
    let line = next_line(lower, res, a, b);
    if b > a {
        assert(num * d <= den * d) by (nonlinear_arith)
            requires
                0 <= num <= den,
                d > 0,
        ;
        assert(a * den + den * d == b * den) by (nonlinear_arith)
            requires
                d == b - a,
        ;
        assert(line <= b) by (nonlinear_arith)
            requires
                line * den <= b * den,
                den > 0,
        ;
    } else {
        assert(num * d >= den * d) by (nonlinear_arith)
            requires
                0 <= num <= den,
                d < 0,
        ;
        assert(a * den + den * d == b * den) by (nonlinear_arith)
            requires
                d == b - a,
        ;
        assert(line >= b) by (nonlinear_arith)
            requires
                line * den >= b * den,
                den > 0,
        ;
    }
}

/// Whether the point has reached the line ahead, told by how far the line
/// leads and how long the segment spans.
proof fn lemma_past_by_lead(lower: int, res: int, a: int, b: int, num: int, den: int)
    requires
        a != b,
    ensures
        past(lower, res, a, b, num, den) <==> num * span(a, b) >= lead(
            next_line(lower, res, a, b),
            a,
            b,
        ) * den,
{
    let line = next_line(lower, res, a, b);
    if b > a {
        assert((line - a) * den == line * den - a * den) by (nonlinear_arith);
    } else {
        assert((a - line) * den == a * den - line * den) by (nonlinear_arith);
        assert(num * (a - b) == -(num * (b - a))) by (nonlinear_arith);
    }
}

/// A point that has reached the line ahead along `y` but not the one along
/// `x` is on a segment that meets the line along `y` first.
proof fn lemma_first_line(lead_x: int, lead_y: int, span_x: int, span_y: int, num: int, den: int)
    requires
        den > 0,
        span_x > 0,
        span_y > 0,
        num * span_y >= lead_y * den,
        num * span_x < lead_x * den,
    ensures
        lead_y * span_x < lead_x * span_y,
{
    assert((num * span_y) * span_x >= (lead_y * den) * span_x) by (nonlinear_arith)
        requires
            num * span_y >= lead_y * den,
            span_x > 0,
    ;
    assert((num * span_x) * span_y < (lead_x * den) * span_y) by (nonlinear_arith)
        requires
            num * span_x < lead_x * den,
            span_y > 0,
    ;
    assert((num * span_y) * span_x == (num * span_x) * span_y) by (nonlinear_arith);
    assert((lead_y * den) * span_x == (lead_y * span_x) * den) by (nonlinear_arith);
    assert((lead_x * den) * span_y == (lead_x * span_y) * den) by (nonlinear_arith);
    assert(lead_y * span_x < lead_x * span_y) by (nonlinear_arith)
        requires
            (lead_y * span_x) * den < (lead_x * span_y) * den,
            den > 0,
    ;
}

/// A point that has come as far as a cell and not left it, and that lies
/// strictly inside cell `k` of the grid, lies in that cell: `k` is the
/// cursor's cell.
proof fn lemma_same_cell(
    origin: int,
    res: int,
    a: int,
    b: int,
    num: int,
    den: int,
    cell: int,
    k: int,
)
    requires
        res > 0,
        den > 0,
        ahead(origin + cell * res, res, a, b, num, den),
        !past(origin + cell * res, res, a, b, num, den),
        within(origin + k * res, res, a, b, num, den),
    ensures
        k == cell,
{
    let p = scaled(a, b, num, den);
    let lower = origin + cell * res;
    let inner = origin + k * res;
    let unit = res * den;
    assert(unit > 0) by (nonlinear_arith)
        requires
            unit == res * den,
            res > 0,
            den > 0,
    ;
    assert(inner * den - lower * den == (k - cell) * unit) by (nonlinear_arith)
        requires
            inner == origin + k * res,
            lower == origin + cell * res,
            unit == res * den,
    ;
    assert((lower + res) * den == lower * den + unit) by (nonlinear_arith)
        requires
            unit == res * den,
    ;
    assert((inner + res) * den == inner * den + unit) by (nonlinear_arith)
        requires
            unit == res * den,
    ;
    if a == b {
        assert(p == a * den) by (nonlinear_arith)
            requires
                p == a * den + num * (b - a),
                a == b,
        ;
        assert(lower * den <= a * den < lower * den + unit) by (nonlinear_arith)
            requires
                lower <= a < lower + res,
                den > 0,
                unit == res * den,
        ;
    }
    let j = k - cell;
    assert(j == 0) by (nonlinear_arith)
        requires
            -unit < j * unit < unit,
            unit > 0,
    ;
}

/// A point that has come as far as a cell off the grid, on the side to
/// which the segment runs, lies strictly inside no cell of the grid.
proof fn lemma_off_the_grid(
    origin: int,
    cells: int,
    res: int,
    a: int,
    b: int,
    num: int,
    den: int,
    cell: int,
    k: int,
)
    requires
        res > 0,
        den > 0,
        on_course(origin, cells, res, a, b, cell, origin + cell * res),
        !(0 <= cell < cells),
        0 <= k < cells,
        ahead(origin + cell * res, res, a, b, num, den),
    ensures
        !within(origin + k * res, res, a, b, num, den),
{
    let lower = origin + cell * res;
    let inner = origin + k * res;
    if b > a {
        assert((inner + res) * den <= lower * den) by (nonlinear_arith)
            requires
                inner == origin + k * res,
                lower == origin + cell * res,
                k + 1 <= cell,
                res > 0,
                den > 0,
        ;
    } else {
        assert((lower + res) * den <= inner * den) by (nonlinear_arith)
            requires
                inner == origin + k * res,
                lower == origin + cell * res,
                cell + 1 <= k,
                res > 0,
                den > 0,
        ;
    }
}

/// The neighbour of a cell on course is on course.
proof fn lemma_step_on_course(origin: int, cells: int, res: int, a: int, b: int, cell: int)
    requires
        a != b,
        0 <= cell < cells,
    ensures
        b > a ==> on_course(origin, cells, res, a, b, cell + 1, origin + cell * res + res),
        b < a ==> on_course(origin, cells, res, a, b, cell - 1, origin + cell * res - res),
{
    assert((cell + 1) * res == cell * res + res) by (nonlinear_arith);
    assert((cell - 1) * res == cell * res - res) by (nonlinear_arith);
}

impl Cursor {
    /// The cursor's cell lies on the grid or just off it on the side to
    /// which the segment runs, with its corner where the grid puts it.
    pub open spec fn on_course(self, g: GridView, s: Segment) -> bool {
        &&& on_course(g.origin_x, g.x_cells as int, g.resolution, s.ax, s.bx, self.cx, self.x0)
        &&& on_course(g.origin_y, g.y_cells as int, g.resolution, s.ay, s.by, self.cy, self.y0)
    }

    /// The point `num / den` of the segment has come as far as the
    /// cursor's cell along both axes.
    pub open spec fn reached_by(self, g: GridView, s: Segment, num: int, den: int) -> bool {
        &&& ahead(self.x0, g.resolution, s.ax, s.bx, num, den)
        &&& ahead(self.y0, g.resolution, s.ay, s.by, num, den)
    }
}

/// A walk that a point of the segment has not yet left behind comes to an
/// occupied cell if that point lies strictly inside one.
pub proof fn lemma_walk_meets(g: GridView, s: Segment, at: Cursor, num: int, den: int, x: int, y: int)
    requires
        g.resolution > 0,
        at.on_course(g, s),
        on_segment(num, den),
        at.reached_by(g, s, num, den),
        strictly_inside(g, s, x, y, num, den),
        g.occupied(x, y),
    ensures
        trace(g, s, at),
    decreases at.walk_left(g, s),
{
    let res = g.resolution;
    if !g.in_grid(at.cx, at.cy) {
        if !(0 <= at.cx < g.x_cells) {
            lemma_off_the_grid(g.origin_x, g.x_cells as int, res, s.ax, s.bx, num, den, at.cx, x);
        } else {
            lemma_off_the_grid(g.origin_y, g.y_cells as int, res, s.ay, s.by, num, den, at.cy, y);
        }
        assert(false);
    }
    let past_x = past(at.x0, res, s.ax, s.bx, num, den);
    let past_y = past(at.y0, res, s.ay, s.by, num, den);
    if !past_x && !past_y {
        lemma_same_cell(g.origin_x, res, s.ax, s.bx, num, den, at.cx, x);
        lemma_same_cell(g.origin_y, res, s.ay, s.by, num, den, at.cy, y);
    } else if !g.occupied(at.cx, at.cy) {
        let line_x = next_line(at.x0, res, s.ax, s.bx);
        let line_y = next_line(at.y0, res, s.ay, s.by);
        if past_x {
            lemma_past_is_met(at.x0, res, s.ax, s.bx, num, den);
            lemma_past_by_lead(at.x0, res, s.ax, s.bx, num, den);
        }
        if past_y {
            lemma_past_is_met(at.y0, res, s.ay, s.by, num, den);
            lemma_past_by_lead(at.y0, res, s.ay, s.by, num, den);
        }
        assert(!at.is_last(g, s));
        if at.leaves_along_x(g, s) {
            if !past_x {
                lemma_past_by_lead(at.x0, res, s.ax, s.bx, num, den);
                lemma_first_line(
                    lead(line_x, s.ax, s.bx),
                    lead(line_y, s.ay, s.by),
                    span(s.ax, s.bx),
                    span(s.ay, s.by),
                    num,
                    den,
                );
                assert(false);
            }
            lemma_step_on_course(g.origin_x, g.x_cells as int, res, s.ax, s.bx, at.cx);
            lemma_walk_meets(g, s, at.step_x(g, s), num, den, x, y);
        } else {
            if !past_y {
                lemma_past_by_lead(at.y0, res, s.ay, s.by, num, den);
                lemma_first_line(
                    lead(line_y, s.ay, s.by),
                    lead(line_x, s.ax, s.bx),
                    span(s.ay, s.by),
                    span(s.ax, s.bx),
                    num,
                    den,
                );
                assert(false);
            }
            lemma_step_on_course(g.origin_y, g.y_cells as int, res, s.ay, s.by, at.cy);
            lemma_walk_meets(g, s, at.step_y(g, s), num, den, x, y);
        }
    }
}

impl Cursor {
    /// The segment leaves the cursor's cell through a corner: it meets the
    /// two lines ahead at once.
    pub open spec fn at_corner(self, g: GridView, s: Segment) -> bool {
        let line_x = next_line(self.x0, g.resolution, s.ax, s.bx);
        let line_y = next_line(self.y0, g.resolution, s.ay, s.by);
        &&& !ends_before(line_x, s.ax, s.bx)
        &&& !ends_before(line_y, s.ay, s.by)
        &&& lead(line_x, s.ax, s.bx) * span(s.ay, s.by) == lead(line_y, s.ay, s.by) * span(
            s.ax,
            s.bx,
        )
    }
}

/// Through a corner the walk goes on to the cell diagonally ahead, by way
/// of a free neighbour, whenever one of the two neighbours is free; it
/// comes to an occupied cell there and then when both are occupied. So one
/// occupied neighbour alone does not block a corner, and two let nothing
/// through.
pub proof fn lemma_corner(g: GridView, s: Segment, at: Cursor)
    requires
        g.resolution > 0,
        g.in_grid(at.cx, at.cy),
        !g.occupied(at.cx, at.cy),
        at.at_corner(g, s),
    ensures
        trace(g, s, at) == if g.occupied(at.step_x(g, s).cx, at.cy) && g.occupied(
            at.cx,
            at.step_y(g, s).cy,
        ) {
            true
        } else {
            trace(g, s, at.step_x(g, s).step_y(g, s))
        },
{
    let res = g.resolution;
    let lead_x = lead(next_line(at.x0, res, s.ax, s.bx), s.ax, s.bx);
    let lead_y = lead(next_line(at.y0, res, s.ay, s.by), s.ay, s.by);
    let span_x = span(s.ax, s.bx);
    let span_y = span(s.ay, s.by);
    let diagonal = at.step_x(g, s).step_y(g, s);
    assert(diagonal == at.step_y(g, s).step_x(g, s));
    assert((lead_x + res) * span_y > lead_y * span_x) by (nonlinear_arith)
        requires
            lead_x * span_y == lead_y * span_x,
            res > 0,
            span_y > 0,
    ;
    assert(lead_x * span_y < (lead_y + res) * span_x) by (nonlinear_arith)
        requires
            lead_x * span_y == lead_y * span_x,
            res > 0,
            span_x > 0,
    ;
    if !g.occupied(at.step_x(g, s).cx, at.cy) {
        let next = at.step_x(g, s);
        assert(at.leaves_along_x(g, s));
        assert(trace(g, s, at) == trace(g, s, next));
        if g.in_grid(next.cx, next.cy) {
            assert(!next.leaves_along_x(g, s));
            assert(trace(g, s, next) == trace(g, s, diagonal));
        } else {
            assert(!trace(g, s, next));
            assert(!trace(g, s, diagonal));
        }
    } else {
        let next = at.step_y(g, s);
        assert(!at.leaves_along_x(g, s));
        assert(trace(g, s, at) == trace(g, s, next));
        if g.in_grid(next.cx, next.cy) {
            if !g.occupied(next.cx, next.cy) {
                assert(next.leaves_along_x(g, s));
                assert(trace(g, s, next) == trace(g, s, diagonal));
            }
        } else {
            assert(!trace(g, s, next));
            assert(!trace(g, s, diagonal));
        }
    }
}

/// Every point of a segment has come as far as the cell where its walk
/// begins.
proof fn lemma_start_reached(origin: int, cells: int, res: int, a: int, b: int, num: int, den: int)
    requires
        0 <= cells,
        origin <= a < origin + cells * res,
        on_segment(num, den),
    ensures
        res > 0,
        on_course(
            origin,
            cells,
            res,
            a,
            b,
            (a - origin) / res,
            origin + ((a - origin) / res) * res,
        ),
        ahead(origin + ((a - origin) / res) * res, res, a, b, num, den),
{
    lemma_cell_of(origin, res, cells, a);
    let lower = origin + ((a - origin) / res) * res;
    let d = b - a;
    if b > a {
        assert(num * d >= 0) by (nonlinear_arith)
            requires
                num >= 0,
                d > 0,
        ;
        assert(lower * den <= a * den) by (nonlinear_arith)
            requires
                lower <= a,
                den > 0,
        ;
    } else if b < a {
        assert(num * d <= 0) by (nonlinear_arith)
            requires
                num >= 0,
                d < 0,
        ;
        assert(a * den <= (lower + res) * den) by (nonlinear_arith)
            requires
                a <= lower + res,
                den > 0,
        ;
    }
}

/// No segment leaks through an occupied cell: a segment from a position on
/// the grid that has a point strictly inside an occupied cell is occupied.
pub proof fn lemma_no_leak(g: GridView, a: [i32; 2], b: [i32; 2], num: int, den: int, x: int, y: int)
    requires
        g.covers(a@[0] as int, a@[1] as int),
        on_segment(num, den),
        strictly_inside(g, segment(a, b), x, y, num, den),
        g.occupied(x, y),
    ensures
        segment_occupied(g, a, b),
{
    let s = segment(a, b);
    lemma_start_reached(g.origin_x, g.x_cells as int, g.resolution, s.ax, s.bx, num, den);
    lemma_start_reached(g.origin_y, g.y_cells as int, g.resolution, s.ay, s.by, num, den);
    lemma_walk_meets(g, s, start(g, s), num, den, x, y);
}

/// Along one axis the point lies between the two lines of the cells with
/// lower line `lower`, or on one of them.
pub open spec fn between(lower: int, res: int, a: int, b: int, num: int, den: int) -> bool {
    lower * den <= scaled(a, b, num, den) <= (lower + res) * den
}

/// The point `num / den` of the segment lies in cell `(x, y)` or on its
/// boundary.
pub open spec fn touches(g: GridView, s: Segment, x: int, y: int, num: int, den: int) -> bool {
    &&& between(g.origin_x + x * g.resolution, g.resolution, s.ax, s.bx, num, den)
    &&& between(g.origin_y + y * g.resolution, g.resolution, s.ay, s.by, num, den)
}

/// Along one axis the point lies between the line by which the segment
/// comes into the cells with lower line `lower` and the line ahead, told
/// by how far the line ahead leads and how long the segment spans.
pub open spec fn held(lower: int, res: int, a: int, b: int, num: int, den: int) -> bool {
    let ahead_by = lead(next_line(lower, res, a, b), a, b);
    if a != b {
        (ahead_by - res) * den <= num * span(a, b) <= ahead_by * den
    } else {
        lower <= a <= lower + res
    }
}

/// A point that a cell holds along an axis lies between its lines.
proof fn lemma_held_is_between(lower: int, res: int, a: int, b: int, num: int, den: int)
    requires
        den > 0,
        held(lower, res, a, b, num, den),
    ensures
        between(lower, res, a, b, num, den),
{
    let p = scaled(a, b, num, den);
    if b > a {
        assert((lower - a) * den == lower * den - a * den) by (nonlinear_arith);
        assert((lower + res - a) * den == (lower + res) * den - a * den) by (nonlinear_arith);
    } else if b < a {
        assert((a - lower - res) * den == a * den - (lower + res) * den) by (nonlinear_arith);
        assert((a - lower) * den == a * den - lower * den) by (nonlinear_arith);
        assert(num * (a - b) == -(num * (b - a))) by (nonlinear_arith);
    } else {
        assert(p == a * den) by (nonlinear_arith)
            requires
                p == a * den + num * (b - a),
                a == b,
        ;
        assert(lower * den <= a * den <= (lower + res) * den) by (nonlinear_arith)
            requires
                lower <= a <= lower + res,
                den > 0,
        ;
    }
}

/// Where the segment leaves a cell across the line ahead along one axis,
/// the point of crossing is a point of the segment that the next cell
/// holds along that axis.
proof fn lemma_crossing_held(lower: int, res: int, a: int, b: int, num: int, den: int)
    requires
        den > 0,
        num >= 0,
        res > 0,
        held(lower, res, a, b, num, den),
        !ends_before(next_line(lower, res, a, b), a, b),
    ensures
        a != b,
        on_segment(lead(next_line(lower, res, a, b), a, b), span(a, b)),
        b > a ==> held(
            lower + res,
            res,
            a,
            b,
            lead(next_line(lower, res, a, b), a, b),
            span(a, b),
        ),
        b < a ==> held(
            lower - res,
            res,
            a,
            b,
            lead(next_line(lower, res, a, b), a, b),
            span(a, b),
        ),
{
    let ahead_by = lead(next_line(lower, res, a, b), a, b);
    let length = span(a, b);
    assert(ahead_by >= 0) by (nonlinear_arith)
        requires
            num * length <= ahead_by * den,
            num >= 0,
            length > 0,
            den > 0,
    ;
    assert((ahead_by + res - res) * length <= ahead_by * length <= (ahead_by + res) * length)
        by (nonlinear_arith)
        requires
            res > 0,
            length > 0,
    ;
}

/// Where the segment leaves a cell across the line ahead along one axis
/// and has not yet met the line ahead along the other, the point of
/// crossing is one that the cell holds along the other axis.
proof fn lemma_crossing_kept(
    lower: int,
    res: int,
    a: int,
    b: int,
    num: int,
    den: int,
    cross: int,
    length: int,
)
    requires
        den > 0,
        num >= 0,
        length > 0,
        0 <= cross <= length,
        num * length <= cross * den,
        held(lower, res, a, b, num, den),
        ends_before(next_line(lower, res, a, b), a, b) || cross * span(a, b) <= lead(
            next_line(lower, res, a, b),
            a,
            b,
        ) * length,
    ensures
        held(lower, res, a, b, cross, length),
{
    if a != b {
        let ahead_by = lead(next_line(lower, res, a, b), a, b);
        let other = span(a, b);
        if ends_before(next_line(lower, res, a, b), a, b) {
            assert(cross * other <= ahead_by * length) by (nonlinear_arith)
                requires
                    0 <= cross <= length,
                    0 < other < ahead_by,
            ;
        }
        assert(((ahead_by - res) * den) * length <= (num * other) * length) by (nonlinear_arith)
            requires
                (ahead_by - res) * den <= num * other,
                length > 0,
        ;
        assert((num * length) * other <= (cross * den) * other) by (nonlinear_arith)
            requires
                num * length <= cross * den,
                other > 0,
        ;
        assert((num * other) * length == (num * length) * other) by (nonlinear_arith);
        assert(((ahead_by - res) * den) * length == ((ahead_by - res) * length) * den)
            by (nonlinear_arith);
        assert((cross * den) * other == (cross * other) * den) by (nonlinear_arith);
        assert((ahead_by - res) * length <= cross * other) by (nonlinear_arith)
            requires
                ((ahead_by - res) * length) * den <= (cross * other) * den,
                den > 0,
        ;
    }
}

/// A walk that comes to an occupied cell comes to one that holds a point
/// of the segment.
proof fn lemma_walk_cause(g: GridView, s: Segment, at: Cursor, num: int, den: int) -> (cause: (
    int,
    int,
    int,
    int,
))
    requires
        g.resolution > 0,
        at.x0 == g.origin_x + at.cx * g.resolution,
        at.y0 == g.origin_y + at.cy * g.resolution,
        on_segment(num, den),
        held(at.x0, g.resolution, s.ax, s.bx, num, den),
        held(at.y0, g.resolution, s.ay, s.by, num, den),
        trace(g, s, at),
    ensures
        g.occupied(cause.0, cause.1),
        on_segment(cause.2, cause.3),
        touches(g, s, cause.0, cause.1, cause.2, cause.3),
    decreases at.walk_left(g, s),
{
    let res = g.resolution;
    if g.occupied(at.cx, at.cy) {
        lemma_held_is_between(at.x0, res, s.ax, s.bx, num, den);
        lemma_held_is_between(at.y0, res, s.ay, s.by, num, den);
        (at.cx, at.cy, num, den)
    } else if at.leaves_along_x(g, s) {
        let cross = lead(next_line(at.x0, res, s.ax, s.bx), s.ax, s.bx);
        let length = span(s.ax, s.bx);
        lemma_crossing_held(at.x0, res, s.ax, s.bx, num, den);
        lemma_crossing_kept(at.y0, res, s.ay, s.by, num, den, cross, length);
        assert((at.cx + 1) * res == at.cx * res + res) by (nonlinear_arith);
        assert((at.cx - 1) * res == at.cx * res - res) by (nonlinear_arith);
        lemma_walk_cause(g, s, at.step_x(g, s), cross, length)
    } else {
        let cross = lead(next_line(at.y0, res, s.ay, s.by), s.ay, s.by);
        let length = span(s.ay, s.by);
        lemma_crossing_held(at.y0, res, s.ay, s.by, num, den);
        lemma_crossing_kept(at.x0, res, s.ax, s.bx, num, den, cross, length);
        assert((at.cy + 1) * res == at.cy * res + res) by (nonlinear_arith);
        assert((at.cy - 1) * res == at.cy * res - res) by (nonlinear_arith);
        lemma_walk_cause(g, s, at.step_y(g, s), cross, length)
    }
}

/// Nothing is reported without cause: a segment that is occupied has a
/// point in an occupied cell of the grid, or on its boundary. The cell and
/// the point, as a fraction of the way, are returned.
pub proof fn lemma_report_has_cause(g: GridView, a: [i32; 2], b: [i32; 2]) -> (cause: (
    int,
    int,
    int,
    int,
))
    requires
        g.covers(a@[0] as int, a@[1] as int),
        segment_occupied(g, a, b),
    ensures
        g.occupied(cause.0, cause.1),
        on_segment(cause.2, cause.3),
        touches(g, segment(a, b), cause.0, cause.1, cause.2, cause.3),
{
    let s = segment(a, b);
    lemma_cell_of(g.origin_x, g.resolution, g.x_cells as int, s.ax);
    lemma_cell_of(g.origin_y, g.resolution, g.y_cells as int, s.ay);
    lemma_walk_cause(g, s, start(g, s), 0, 1)
}

} // verus!
