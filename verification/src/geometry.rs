//! Cells and rectangles of the electrode grid.

use vstd::prelude::*;

verus! {

/// A cell of the grid, named by its row `y` and column `x`. The same type
/// measures an extent: `y` rows by `x` columns.
#[derive(Clone, Copy, Debug, PartialEq, Eq, Structural, Hash)]
pub struct Location {
    pub y: i32,
    pub x: i32,
}

/// A rectangle of cells: `location` is its top-left cell, `dimensions` its
/// extent. A rectangle with a non-positive extent holds no cell.
#[derive(Clone, Copy, Debug, PartialEq, Eq, Structural, Hash)]
pub struct Region {
    pub location: Location,
    pub dimensions: Location,
}

impl Region {
    /// The cell `(y, x)` belongs to the rectangle.
    pub open spec fn covers(self, y: int, x: int) -> bool {
        &&& self.location.y <= y < self.location.y + self.dimensions.y
        &&& self.location.x <= x < self.location.x + self.dimensions.x
    }

    /// The two rectangles share a cell.
    pub open spec fn overlaps(self, other: Region) -> bool {
        &&& self.dimensions.y > 0
        &&& self.dimensions.x > 0
        &&& other.dimensions.y > 0
        &&& other.dimensions.x > 0
        &&& self.location.y < other.location.y + other.dimensions.y
        &&& other.location.y < self.location.y + self.dimensions.y
        &&& self.location.x < other.location.x + other.dimensions.x
        &&& other.location.x < self.location.x + self.dimensions.x
    }

    /// The rectangle holds at least one cell and lies on a grid of `height`
    /// rows and `width` columns.
    pub open spec fn inside(self, height: int, width: int) -> bool {
        &&& self.dimensions.y > 0
        &&& self.dimensions.x > 0
        &&& 0 <= self.location.y
        &&& self.location.y + self.dimensions.y <= height
        &&& 0 <= self.location.x
        &&& self.location.x + self.dimensions.x <= width
    }

    /// The single cell at `location`.
    pub open spec fn cell(location: Location) -> Region {
        Region { location, dimensions: Location { y: 1, x: 1 } }
    }

    pub fn new(location: Location, dimensions: Location) -> (r: Region)
        ensures
            r == (Region { location, dimensions }),
    {
        Region { location, dimensions }
    }

    /// The rectangle of one cell at `location`.
    pub fn of_cell(location: Location) -> (r: Region)
        ensures
            r == Region::cell(location),
    {
        Region { location, dimensions: Location { y: 1, x: 1 } }
    }

    /// Whether the two rectangles share a cell.
    pub fn intersects(&self, other: &Region) -> (r: bool)
        ensures
            r == self.overlaps(*other),
    {
        let ay: i64 = self.location.y as i64;
        let ax: i64 = self.location.x as i64;
        let ah: i64 = self.dimensions.y as i64;
        let aw: i64 = self.dimensions.x as i64;
        let by: i64 = other.location.y as i64;
        let bx: i64 = other.location.x as i64;
        let bh: i64 = other.dimensions.y as i64;
        let bw: i64 = other.dimensions.x as i64;
        ah > 0 && aw > 0 && bh > 0 && bw > 0 && ay < by + bh && by < ay + ah && ax < bx + bw && bx
            < ax + aw
    }

    /// Whether the rectangle holds a cell and lies on a grid of `height` rows
    /// and `width` columns.
    pub fn fits_grid(&self, height: i32, width: i32) -> (r: bool)
        ensures
            r == self.inside(height as int, width as int),
    {
        let y: i64 = self.location.y as i64;
        let x: i64 = self.location.x as i64;
        let h: i64 = self.dimensions.y as i64;
        let w: i64 = self.dimensions.x as i64;
        h > 0 && w > 0 && 0 <= y && y + h <= height as i64 && 0 <= x && x + w <= width as i64
    }
}

/// Two rectangles overlap exactly when some cell belongs to both.
pub proof fn lemma_overlap_is_shared_cell(a: Region, b: Region)
    ensures
        a.overlaps(b) <==> exists|y: int, x: int| a.covers(y, x) && b.covers(y, x),
{
    if a.overlaps(b) {
        let y = if a.location.y >= b.location.y {
            a.location.y as int
        } else {
            b.location.y as int
        };
        let x = if a.location.x >= b.location.x {
            a.location.x as int
        } else {
            b.location.x as int
        };
        assert(a.covers(y, x) && b.covers(y, x));
    }
}

/// Every cell of a rectangle that lies on the grid is a cell of the grid.
pub proof fn lemma_inside_cells_on_grid(a: Region, height: int, width: int, y: int, x: int)
    requires
        a.inside(height, width),
        a.covers(y, x),
    ensures
        0 <= y < height,
        0 <= x < width,
{
}

} // verus!
