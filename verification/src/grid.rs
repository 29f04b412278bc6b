//! A fixed-resolution occupancy raster over a rectangle of the lattice.

use vstd::prelude::*;

verus! {

/// The mathematical content of an occupancy grid.
pub struct GridView {
    /// The number of cells along x.
    pub x_cells: nat,
    /// The number of cells along y.
    pub y_cells: nat,
    /// The x coordinate of the lower corner of cell (0, 0).
    pub origin_x: int,
    /// The y coordinate of the lower corner of cell (0, 0).
    pub origin_y: int,
    /// The edge length of a cell.
    pub resolution: int,
    /// The occupancy of every cell, row by row.
    pub cells: Seq<bool>,
}

impl GridView {
    /// Cell `(x, y)` is one of the grid's.
    pub open spec fn in_grid(self, x: int, y: int) -> bool {
        0 <= x < self.x_cells && 0 <= y < self.y_cells
    }

    /// Cell `(x, y)` is one of the grid's and is occupied.
    pub open spec fn occupied(self, x: int, y: int) -> bool {
        self.in_grid(x, y) && self.cells[y * self.x_cells + x]
    }

    /// The grid's extent along x.
    pub open spec fn width(self) -> int {
        self.x_cells * self.resolution
    }

    /// The grid's extent along y.
    pub open spec fn height(self) -> int {
        self.y_cells * self.resolution
    }

    /// The position lies in the half-open rectangle that the grid covers.
    pub open spec fn covers(self, x: int, y: int) -> bool {
        &&& self.origin_x <= x < self.origin_x + self.width()
        &&& self.origin_y <= y < self.origin_y + self.height()
    }

    /// The column of the cell that contains the x coordinate.
    pub open spec fn cell_x(self, x: int) -> int {
        (x - self.origin_x) / self.resolution
    }

    /// The row of the cell that contains the y coordinate.
    pub open spec fn cell_y(self, y: int) -> int {
        (y - self.origin_y) / self.resolution
    }

    /// The grid with the occupancy of cell `(x, y)` replaced.
    pub open spec fn with_cell(self, x: int, y: int, value: bool) -> GridView {
        GridView { cells: self.cells.update(y * self.x_cells + x, value), ..self }
    }
}

/// A row-major index stays inside the raster.
pub proof fn lemma_cell_index(x_cells: int, y_cells: int, x: int, y: int)
    requires
        0 <= x < x_cells,
        0 <= y < y_cells,
    ensures
        0 <= y * x_cells + x < x_cells * y_cells,
{
    assert(y * x_cells + x < x_cells * y_cells) by (nonlinear_arith)
        requires
            0 <= x < x_cells,
            0 <= y < y_cells,
    ;
    assert(0 <= y * x_cells) by (nonlinear_arith)
        requires
            0 <= x_cells,
            0 <= y,
    ;
}

/// A coordinate inside `cells` cells of edge `resolution` from `origin`
/// lies in a cell of that range, and the edge is positive.
pub proof fn lemma_cell_of(origin: int, resolution: int, cells: int, x: int)
    requires
        0 <= cells,
        origin <= x < origin + cells * resolution,
    ensures
        resolution > 0,
        0 <= (x - origin) / resolution < cells,
        origin + ((x - origin) / resolution) * resolution <= x < origin + ((x - origin)
            / resolution) * resolution + resolution,
{
    assert(resolution > 0) by (nonlinear_arith)
        requires
            0 <= cells,
            0 < cells * resolution,
    ;
    let off = x - origin;
    let q = off / resolution;
    assert(off == resolution * q + off % resolution && 0 <= off % resolution < resolution)
        by (nonlinear_arith)
        requires
            resolution > 0,
            q == off / resolution,
    ;
    assert(q * resolution == resolution * q) by (nonlinear_arith);
    assert(0 <= q < cells) by (nonlinear_arith)
        requires
            resolution > 0,
            0 <= off < cells * resolution,
            resolution * q <= off < resolution * q + resolution,
    ;
}

/// An occupancy grid: a boolean raster of square cells over a rectangle.
pub struct OccupancyGrid {
    storage: Vec<bool>,
    x_cells: usize,
    y_cells: usize,
    origin: [i32; 2],
    resolution: i32,
}

impl View for OccupancyGrid {
    type V = GridView;

    closed spec fn view(&self) -> GridView {
        GridView {
            x_cells: self.x_cells as nat,
            y_cells: self.y_cells as nat,
            origin_x: self.origin@[0] as int,
            origin_y: self.origin@[1] as int,
            resolution: self.resolution as int,
            cells: self.storage@,
        }
    }
}

impl OccupancyGrid {
    /// The grid's invariant: the raster has one entry per cell.
    pub closed spec fn wf(&self) -> bool {
        self.storage@.len() == self.x_cells * self.y_cells
    }

    /// A grid of `x_cells` by `y_cells` free cells.
    pub fn new(x_cells: usize, y_cells: usize, origin: [i32; 2], resolution: i32) -> (grid: Self)
        requires
            x_cells * y_cells <= usize::MAX,
        ensures
            grid.wf(),
            grid@.x_cells == x_cells,
            grid@.y_cells == y_cells,
            grid@.origin_x == origin@[0],
            grid@.origin_y == origin@[1],
            grid@.resolution == resolution,
            grid@.cells.len() == x_cells * y_cells,
            forall|i: int| 0 <= i < grid@.cells.len() ==> !#[trigger] grid@.cells[i],
            forall|x: int, y: int| !grid@.occupied(x, y),
    {
        let total: usize = x_cells * y_cells;
        let mut storage: Vec<bool> = Vec::new();
        let mut k: usize = 0;
        while k < total
            invariant
                k <= total,
                storage@.len() == k,
                forall|j: int| 0 <= j < k ==> !storage@[j],
            decreases total - k,
        {
            storage.push(false);
            k = k + 1;
        }
        let grid = OccupancyGrid { storage, x_cells, y_cells, origin, resolution };
        assert forall|x: int, y: int| !grid@.occupied(x, y) by {
            if grid@.in_grid(x, y) {
                lemma_cell_index(x_cells as int, y_cells as int, x, y);
            }
        }
        grid
    }

    /// Whether cell `(x, y)` is occupied.
    pub fn cell(&self, x: usize, y: usize) -> (occupied: &bool)
        requires
            self.wf(),
            x < self@.x_cells,
            y < self@.y_cells,
        ensures
            *occupied == self@.occupied(x as int, y as int),
    {
        let total = self.storage.len();
        proof {
            lemma_cell_index(self.x_cells as int, self.y_cells as int, x as int, y as int);
            assert(self.x_cells * self.y_cells == total);
        }
        &self.storage[y * self.x_cells + x]
    }

    /// The occupancy of cell `(x, y)`, to be written through.
    pub fn cell_mut(&mut self, x: usize, y: usize) -> (occupied: &mut bool)
        requires
            old(self).wf(),
            x < old(self)@.x_cells,
            y < old(self)@.y_cells,
        ensures
            *occupied == old(self)@.occupied(x as int, y as int),
            final(self).wf(),
            final(self)@ == old(self)@.with_cell(x as int, y as int, *final(occupied)),
    {
        let total = self.storage.len();
        proof {
            lemma_cell_index(self.x_cells as int, self.y_cells as int, x as int, y as int);
            assert(self.x_cells * self.y_cells == total);
        }
        &mut self.storage[y * self.x_cells + x]
    }

    /// The cell that contains the position.
    pub fn position_to_cell(&self, pos: &[i32; 2]) -> (cell: (usize, usize))
        requires
            self.wf(),
            self@.covers(pos@[0] as int, pos@[1] as int),
        ensures
            cell.0 == self@.cell_x(pos@[0] as int),
            cell.1 == self@.cell_y(pos@[1] as int),
            self@.in_grid(cell.0 as int, cell.1 as int),
    {
        proof {
            lemma_cell_of(
                self@.origin_x,
                self@.resolution,
                self@.x_cells as int,
                pos@[0] as int,
            );
            lemma_cell_of(
                self@.origin_y,
                self@.resolution,
                self@.y_cells as int,
                pos@[1] as int,
            );
        }
        let off_x: i64 = pos[0] as i64 - self.origin[0] as i64;
        let off_y: i64 = pos[1] as i64 - self.origin[1] as i64;
        let res: i64 = self.resolution as i64;
        ((off_x / res) as usize, (off_y / res) as usize)
    }

    /// The number of cells along x and along y.
    pub fn size(&self) -> (cells: (usize, usize))
        ensures
            cells.0 == self@.x_cells,
            cells.1 == self@.y_cells,
    {
        (self.x_cells, self.y_cells)
    }

    /// The grid's extent along x and along y.
    pub fn real_size(&self) -> (extent: [i128; 2])
        ensures
            extent@[0] == self@.width(),
            extent@[1] == self@.height(),
    {
        let res: i128 = self.resolution as i128;
        assert(-0x8000_0000_0000_0000_0000_0000 <= self.x_cells * res
            <= 0x8000_0000_0000_0000_0000_0000) by (nonlinear_arith)
            requires
                0 <= self.x_cells <= 0xFFFF_FFFF_FFFF_FFFF,
                -0x8000_0000 <= res <= 0x7FFF_FFFF,
        ;
        assert(-0x8000_0000_0000_0000_0000_0000 <= self.y_cells * res
            <= 0x8000_0000_0000_0000_0000_0000) by (nonlinear_arith)
            requires
                0 <= self.y_cells <= 0xFFFF_FFFF_FFFF_FFFF,
                -0x8000_0000 <= res <= 0x7FFF_FFFF,
        ;
        [self.x_cells as i128 * res, self.y_cells as i128 * res]
    }

    /// The position of the lower corner of cell (0, 0).
    pub fn origin(&self) -> (origin: [i32; 2])
        ensures
            origin@[0] == self@.origin_x,
            origin@[1] == self@.origin_y,
    {
        self.origin
    }

    /// The edge length of a cell.
    pub fn resolution(&self) -> (resolution: i32)
        ensures
            resolution == self@.resolution,
    {
        self.resolution
    }
}

} // verus!
