//! The exact walk of a segment through the cells of an occupancy grid.
//!
//! The segment from `a` to `b` is followed cell by cell. From each cell the
//! walk moves on across the grid line that the segment meets first; every
//! comparison is made on cross-multiplied integers, so no cell is skipped
//! and none is visited that the walk does not enter.

use crate::grid::{lemma_cell_of, GridView, OccupancyGrid};
use vstd::prelude::*;

verus! {

/// A segment between two lattice points.
pub struct Segment {
    pub ax: int,
    pub ay: int,
    pub bx: int,
    pub by: int,
}

/// Where a walk stands: a cell and the position of its lower corner.
pub struct Cursor {
    pub cx: int,
    pub cy: int,
    pub x0: int,
    pub y0: int,
}

/// The segment from `a` to `b`.
pub open spec fn segment(a: [i32; 2], b: [i32; 2]) -> Segment {
    Segment { ax: a@[0] as int, ay: a@[1] as int, bx: b@[0] as int, by: b@[1] as int }
}

/// The grid line that bounds a cell on the side towards which the segment
/// runs: the upper one where it ascends, else the lower one.
pub open spec fn next_line(lower: int, res: int, a: int, b: int) -> int {
    if b > a {
        lower + res
    } else {
        lower
    }
}

/// The segment ends strictly before it meets `line`, or runs along it.
pub open spec fn ends_before(line: int, a: int, b: int) -> bool {
    if b > a {
        b < line
    } else if b < a {
        b > line
    } else {
        true
    }
}

/// How far `line` lies ahead of the segment's start along one axis.
pub open spec fn lead(line: int, a: int, b: int) -> int {
    if b > a {
        line - a
    } else {
        a - line
    }
}

/// The length of the segment along one axis.
pub open spec fn span(a: int, b: int) -> int {
    if b > a {
        b - a
    } else {
        a - b
    }
}

/// How much of one axis the walk may still cover from a cell with the
/// given lower corner.
pub open spec fn axis_left(lower: int, res: int, a: int, b: int) -> nat {
    let left = if b > a {
        b - lower
    } else if b < a {
        lower + res - b
    } else {
        0
    };
    if left >= 0 {
        left as nat
    } else {
        0
    }
}

impl Cursor {
    /// The neighbour along x in the direction of the segment.
    pub open spec fn step_x(self, g: GridView, s: Segment) -> Cursor {
        if s.bx > s.ax {
            Cursor { cx: self.cx + 1, x0: self.x0 + g.resolution, ..self }
        } else {
            Cursor { cx: self.cx - 1, x0: self.x0 - g.resolution, ..self }
        }
    }

    /// The neighbour along y in the direction of the segment.
    pub open spec fn step_y(self, g: GridView, s: Segment) -> Cursor {
        if s.by > s.ay {
            Cursor { cy: self.cy + 1, y0: self.y0 + g.resolution, ..self }
        } else {
            Cursor { cy: self.cy - 1, y0: self.y0 - g.resolution, ..self }
        }
    }

    /// The segment ends inside this cell: it meets neither of the two grid
    /// lines ahead.
    pub open spec fn is_last(self, g: GridView, s: Segment) -> bool {
        &&& ends_before(next_line(self.x0, g.resolution, s.ax, s.bx), s.ax, s.bx)
        &&& ends_before(next_line(self.y0, g.resolution, s.ay, s.by), s.ay, s.by)
    }

    /// The walk leaves this cell along x: the line ahead along x is met
    /// first, or both are met at once, in a corner, and the neighbour along
    /// x is free.
    pub open spec fn leaves_along_x(self, g: GridView, s: Segment) -> bool {
        let line_x = next_line(self.x0, g.resolution, s.ax, s.bx);
        let line_y = next_line(self.y0, g.resolution, s.ay, s.by);
        if ends_before(line_x, s.ax, s.bx) {
            false
        } else if ends_before(line_y, s.ay, s.by) {
            true
        } else {
            let x_first = lead(line_x, s.ax, s.bx) * span(s.ay, s.by);
            let y_first = lead(line_y, s.ay, s.by) * span(s.ax, s.bx);
            if x_first == y_first {
                !g.occupied(self.step_x(g, s).cx, self.cy)
            } else {
                x_first < y_first
            }
        }
    }

    /// How much of both axes the walk may still cover.
    pub open spec fn walk_left(self, g: GridView, s: Segment) -> nat {
        axis_left(self.x0, g.resolution, s.ax, s.bx) + axis_left(
            self.y0,
            g.resolution,
            s.ay,
            s.by,
        )
    }
}

/// Whether the walk along the segment, taken up at `at`, comes to an
/// occupied cell before it ends or leaves the grid.
pub open spec fn trace(g: GridView, s: Segment, at: Cursor) -> bool
    decreases at.walk_left(g, s),
    when g.resolution > 0
{
    if !g.in_grid(at.cx, at.cy) {
        false
    } else if g.occupied(at.cx, at.cy) {
        true
    } else if at.is_last(g, s) {
        false
    } else if at.leaves_along_x(g, s) {
        trace(g, s, at.step_x(g, s))
    } else {
        trace(g, s, at.step_y(g, s))
    }
}

/// The cell that contains the segment's start, where the walk begins.
pub open spec fn start(g: GridView, s: Segment) -> Cursor {
    let cx = g.cell_x(s.ax);
    let cy = g.cell_y(s.ay);
    Cursor { cx, cy, x0: g.origin_x + cx * g.resolution, y0: g.origin_y + cy * g.resolution }
}

/// Whether the segment from `a` to `b` passes through an occupied cell of
/// the grid. Where the segment leaves the grid the walk ends: beyond it
/// there is no cell to be occupied.
pub open spec fn segment_occupied(g: GridView, a: [i32; 2], b: [i32; 2]) -> bool {
    trace(g, segment(a, b), start(g, segment(a, b)))
}

/// The walk begins in a cell of the grid, the one that contains `a`, and
/// an occupied first cell makes the segment occupied.
pub proof fn lemma_start_cell_counts(g: GridView, a: [i32; 2], b: [i32; 2])
    requires
        g.covers(a@[0] as int, a@[1] as int),
    ensures
        g.in_grid(g.cell_x(a@[0] as int), g.cell_y(a@[1] as int)),
        g.occupied(g.cell_x(a@[0] as int), g.cell_y(a@[1] as int)) ==> segment_occupied(g, a, b),
{
    lemma_cell_of(g.origin_x, g.resolution, g.x_cells as int, a@[0] as int);
    lemma_cell_of(g.origin_y, g.resolution, g.y_cells as int, a@[1] as int);
}

/// A segment that ends in the cell where the walk stands, off the grid
/// lines towards which it runs, is occupied exactly when that cell is.
pub proof fn lemma_walk_ends_in_cell(g: GridView, s: Segment, at: Cursor)
    requires
        g.resolution > 0,
        g.in_grid(at.cx, at.cy),
        s.bx > s.ax ==> s.bx < at.x0 + g.resolution,
        s.bx < s.ax ==> s.bx > at.x0,
        s.by > s.ay ==> s.by < at.y0 + g.resolution,
        s.by < s.ay ==> s.by > at.y0,
    ensures
        trace(g, s, at) == g.occupied(at.cx, at.cy),
{
}

/// A segment with both ends in one cell, whose end lies on no grid line
/// that the segment descends to, is occupied exactly when that cell is:
/// whatever the other cells hold, it reports free in a free cell.
pub proof fn lemma_segment_within_one_cell(g: GridView, a: [i32; 2], b: [i32; 2])
    requires
        g.covers(a@[0] as int, a@[1] as int),
        g.covers(b@[0] as int, b@[1] as int),
        g.cell_x(a@[0] as int) == g.cell_x(b@[0] as int),
        g.cell_y(a@[1] as int) == g.cell_y(b@[1] as int),
        b@[0] < a@[0] ==> (b@[0] - g.origin_x) % g.resolution != 0,
        b@[1] < a@[1] ==> (b@[1] - g.origin_y) % g.resolution != 0,
    ensures
        segment_occupied(g, a, b) == g.occupied(g.cell_x(a@[0] as int), g.cell_y(a@[1] as int)),
{
    let s = segment(a, b);
    let at = start(g, s);
    lemma_cell_of(g.origin_x, g.resolution, g.x_cells as int, s.ax);
    lemma_cell_of(g.origin_y, g.resolution, g.y_cells as int, s.ay);
    lemma_cell_of(g.origin_x, g.resolution, g.x_cells as int, s.bx);
    lemma_cell_of(g.origin_y, g.resolution, g.y_cells as int, s.by);
    lemma_on_line(g.origin_x, g.resolution, s.bx);
    lemma_on_line(g.origin_y, g.resolution, s.by);
    lemma_walk_ends_in_cell(g, s, at);
}

/// A coordinate sits on the lower line of its cell only when its offset is
/// a multiple of the edge.
proof fn lemma_on_line(origin: int, resolution: int, x: int)
    requires
        resolution > 0,
    ensures
        x == origin + ((x - origin) / resolution) * resolution ==> (x - origin) % resolution == 0,
{
    let off = x - origin;
    let q = off / resolution;
    assert(off == resolution * q + off % resolution) by (nonlinear_arith)
        requires
            resolution > 0,
            q == off / resolution,
    ;
    assert(q * resolution == resolution * q) by (nonlinear_arith);
}

/// Whether the straight segment from `a` to `b` passes through an occupied
/// cell of the grid, the cell that contains `a` included. The segment may
/// end anywhere; what lies beyond the grid counts as free.
pub fn is_segment_occupied(a: &[i32; 2], b: &[i32; 2], grid: &OccupancyGrid) -> (occupied: bool)
    requires
        grid.wf(),
        grid@.covers(a@[0] as int, a@[1] as int),
    ensures
        occupied == segment_occupied(grid@, *a, *b),
{
    let ghost g = grid@;
    let ghost s = segment(*a, *b);
    let (x_cells, y_cells) = grid.size();
    let res: i64 = grid.resolution() as i64;
    let origin = grid.origin();
    let (first_x, first_y) = grid.position_to_cell(a);
    let (ax, ay): (i64, i64) = (a[0] as i64, a[1] as i64);
    let (bx, by): (i64, i64) = (b[0] as i64, b[1] as i64);
    proof {
        lemma_cell_of(g.origin_x, g.resolution, g.x_cells as int, s.ax);
        lemma_cell_of(g.origin_y, g.resolution, g.y_cells as int, s.ay);
    }
    let mut cell_x: usize = first_x;
    let mut cell_y: usize = first_y;
    assert(0 <= first_x * res <= ax - origin@[0]) by (nonlinear_arith)
        requires
            0 <= first_x,
            res > 0,
            origin@[0] + first_x * res <= ax,
    ;
    assert(0 <= first_y * res <= ay - origin@[1]) by (nonlinear_arith)
        requires
            0 <= first_y,
            res > 0,
            origin@[1] + first_y * res <= ay,
    ;
    let mut x0: i64 = origin[0] as i64 + (first_x as i64) * res;
    let mut y0: i64 = origin[1] as i64 + (first_y as i64) * res;
    let span_x: i128 = if bx > ax {
        (bx - ax) as i128
    } else {
        (ax - bx) as i128
    };
    let span_y: i128 = if by > ay {
        (by - ay) as i128
    } else {
        (ay - by) as i128
    };
    loop
        invariant
            grid.wf(),
            g == grid@,
            s == segment(*a, *b),
            x_cells == g.x_cells,
            y_cells == g.y_cells,
            res == g.resolution,
            0 < res <= 0x7FFF_FFFF,
            ax == s.ax && ay == s.ay && bx == s.bx && by == s.by,
            -0x8000_0000 <= ax <= 0x7FFF_FFFF && -0x8000_0000 <= ay <= 0x7FFF_FFFF,
            -0x8000_0000 <= bx <= 0x7FFF_FFFF && -0x8000_0000 <= by <= 0x7FFF_FFFF,
            span_x == span(s.ax, s.bx),
            span_y == span(s.ay, s.by),
            cell_x < x_cells,
            cell_y < y_cells,
            ax <= bx ==> ax - res <= x0 <= bx,
            bx <= ax ==> bx - res <= x0 <= ax,
            ay <= by ==> ay - res <= y0 <= by,
            by <= ay ==> by - res <= y0 <= ay,
            segment_occupied(g, *a, *b) == trace(
                g,
                s,
                Cursor { cx: cell_x as int, cy: cell_y as int, x0: x0 as int, y0: y0 as int },
            ),
        decreases
            (Cursor { cx: cell_x as int, cy: cell_y as int, x0: x0 as int, y0: y0 as int }).walk_left(
                g,
                s,
            ),
    {
        let ghost at = Cursor { cx: cell_x as int, cy: cell_y as int, x0: x0 as int, y0: y0 as int };
        if *grid.cell(cell_x, cell_y) {
            return true;
        }
        let line_x: i64 = if bx > ax {
            x0 + res
        } else {
            x0
        };
        let line_y: i64 = if by > ay {
            y0 + res
        } else {
            y0
        };
        let ends_x: bool = if bx > ax {
            bx < line_x
        } else if bx < ax {
            bx > line_x
        } else {
            true
        };
        let ends_y: bool = if by > ay {
            by < line_y
        } else if by < ay {
            by > line_y
        } else {
            true
        };
        if ends_x && ends_y {
            return false;
        }
        let along_x: bool = if ends_x {
            false
        } else if ends_y {
            true
        } else {
            let lead_x: i128 = if bx > ax {
                (line_x - ax) as i128
            } else {
                (ax - line_x) as i128
            };
            let lead_y: i128 = if by > ay {
                (line_y - ay) as i128
            } else {
                (ay - line_y) as i128
            };
            assert(-0x4_0000_0000_0000_0000 <= lead_x * span_y <= 0x4_0000_0000_0000_0000)
                by (nonlinear_arith)
                requires
                    -0x2_0000_0000 <= lead_x <= 0x2_0000_0000,
                    0 <= span_y <= 0x2_0000_0000,
            ;
            assert(-0x4_0000_0000_0000_0000 <= lead_y * span_x <= 0x4_0000_0000_0000_0000)
                by (nonlinear_arith)
                requires
                    -0x2_0000_0000 <= lead_y <= 0x2_0000_0000,
                    0 <= span_x <= 0x2_0000_0000,
            ;
            let x_first: i128 = lead_x * span_y;
            let y_first: i128 = lead_y * span_x;
            if x_first == y_first {
                let blocked: bool = if bx > ax {
                    cell_x + 1 < x_cells && *grid.cell(cell_x + 1, cell_y)
                } else {
                    cell_x > 0 && *grid.cell((cell_x - 1) as usize, cell_y)
                };
                !blocked
            } else {
                x_first < y_first
            }
        };
        assert(along_x == at.leaves_along_x(g, s));
        if along_x {
            if bx > ax {
                if cell_x + 1 >= x_cells {
                    assert(!g.in_grid(at.step_x(g, s).cx, at.step_x(g, s).cy));
                    assert(!trace(g, s, at.step_x(g, s)));
                    return false;
                }
                cell_x = cell_x + 1;
                x0 = x0 + res;
            } else {
                if cell_x == 0 {
                    assert(!g.in_grid(at.step_x(g, s).cx, at.step_x(g, s).cy));
                    assert(!trace(g, s, at.step_x(g, s)));
                    return false;
                }
                cell_x = cell_x - 1;
                x0 = x0 - res;
            }
        } else {
            if by > ay {
                if cell_y + 1 >= y_cells {
                    assert(!g.in_grid(at.step_y(g, s).cx, at.step_y(g, s).cy));
                    assert(!trace(g, s, at.step_y(g, s)));
                    return false;
                }
                cell_y = cell_y + 1;
                y0 = y0 + res;
            } else {
                if cell_y == 0 {
                    assert(!g.in_grid(at.step_y(g, s).cx, at.step_y(g, s).cy));
                    assert(!trace(g, s, at.step_y(g, s)));
                    return false;
                }
                cell_y = cell_y - 1;
                y0 = y0 - res;
            }
        }
    }
}

} // verus!
