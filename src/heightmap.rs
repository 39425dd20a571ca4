//! A heightfield: a dense grid of elevations in fixed-point units.
use vstd::prelude::*;
use crate::grid::{ElevationGrid, grid_cells, grid_extent};

verus! {

/// Elevation units in the length of one grid cell: an elevation of
/// `UNITS_PER_CELL` stands as high as a cell is wide.
pub const UNITS_PER_CELL: i64 = 65536;

/// The largest extent of a heightfield along either axis.
pub const MAX_EXTENT: usize = 32768;

/// A point in space, in elevation units; `y` points up.
#[derive(Clone, Copy, Debug, PartialEq, Eq, Structural)]
pub struct Point3 {
    pub x: i64,
    pub y: i64,
    pub z: i64,
}

/// A direction in space, in elevation units; `y` points up.
#[derive(Clone, Copy, Debug, PartialEq, Eq, Structural)]
pub struct Vector3 {
    pub x: i128,
    pub y: i128,
    pub z: i128,
}

/// A dense grid of elevations, indexed by `(x, y)` with `x < width` and `y < height`.
pub struct HeightMap {
    grid: ElevationGrid,
}

/// `v` clipped into `[lo, hi]`.
pub open spec fn clamp_spec(v: int, lo: int, hi: int) -> int {
    if v < lo {
        lo
    } else if v > hi {
        hi
    } else {
        v
    }
}

/// The horizontal coordinate of grid index `i` on an axis of extent `n`,
/// centred on the grid: `i - n / 2` cells, in elevation units.
pub open spec fn centred(i: int, n: int) -> int {
    (2 * i - n) * (UNITS_PER_CELL / 2)
}

/// The slope along one axis at index `i`, doubled so that it stays whole:
/// a central difference inside, a one-sided difference at either edge.
pub open spec fn doubled_slope(before: int, here: int, after: int, i: int, n: int) -> int {
    if i == 0 {
        2 * (after - here)
    } else if i == n - 1 {
        2 * (here - before)
    } else {
        after - before
    }
}

impl HeightMap {
    pub closed spec fn width(&self) -> nat {
        grid_extent(self.grid).0
    }

    pub closed spec fn height(&self) -> nat {
        grid_extent(self.grid).1
    }

    /// The elevation stored at `(x, y)`.
    pub closed spec fn elevation(&self, x: int, y: int) -> int {
        grid_cells(self.grid)[x * self.height() + y] as int
    }

    /// The grid holds one sample per cell, and both extents are bounded.
    pub closed spec fn wf(&self) -> bool {
        &&& grid_cells(self.grid).len() == self.width() * self.height()
        &&& self.width() <= MAX_EXTENT
        &&& self.height() <= MAX_EXTENT
    }

    pub open spec fn in_bounds(&self, x: int, y: int) -> bool {
        0 <= x < self.width() && 0 <= y < self.height()
    }

    /// The position of sample `(x, y)`: centred horizontally, its elevation as height.
    pub open spec fn position(&self, x: int, y: int) -> Point3 {
        Point3 {
            x: centred(x, self.width() as int) as i64,
            y: self.elevation(x, y) as i64,
            z: centred(y, self.height() as int) as i64,
        }
    }

    /// The direction of the surface at `(x, y)`: with slopes `sx` and `sy`
    /// along the axes, `(-sx, 1, -sy)`, scaled by twice the units in a cell.
    pub open spec fn surface_normal(&self, x: int, y: int) -> (int, int, int) {
        let sx = doubled_slope(
            self.elevation(x - 1, y),
            self.elevation(x, y),
            self.elevation(x + 1, y),
            x,
            self.width() as int,
        );
        let sy = doubled_slope(
            self.elevation(x, y - 1),
            self.elevation(x, y),
            self.elevation(x, y + 1),
            y,
            self.height() as int,
        );
        (-sx, 2 * UNITS_PER_CELL, -sy)
    }

    proof fn lemma_index(&self, x: int, y: int)
        requires
            self.wf(),
            self.in_bounds(x, y),
        ensures
            0 <= x * self.height() + y < grid_cells(self.grid).len(),
    {
        let h = self.height() as int;
        assert(x * h + y < self.width() * h) by (nonlinear_arith)
            requires x + 1 <= self.width(), y < h, 0 <= y;
        assert(x * h >= 0) by (nonlinear_arith) requires x >= 0, h >= 0;
    }

    /// Both extents of a well-formed heightfield are bounded.
    pub proof fn lemma_extent_bounds(&self)
        requires
            self.wf(),
        ensures
            self.width() <= MAX_EXTENT,
            self.height() <= MAX_EXTENT,
    {
    }

    /// Every elevation is an `i32`.
    pub proof fn lemma_elevations_i32(&self, x: int, y: int)
        ensures
            i32::MIN <= self.elevation(x, y) <= i32::MAX,
    {
    }

    /// Each stored elevation is an `i32`.
    pub proof fn lemma_elevation_bounds(&self, x: int, y: int)
        requires
            self.wf(),
            self.in_bounds(x, y),
        ensures
            i32::MIN <= self.elevation(x, y) <= i32::MAX,
    {
        self.lemma_index(x, y);
    }

    /// A heightfield of the given extent with every elevation zero.
    pub fn new(width: usize, height: usize) -> (r: HeightMap)
        requires
            width <= MAX_EXTENT,
            height <= MAX_EXTENT,
        ensures
            r.wf(),
            r.width() == width,
            r.height() == height,
            forall|x: int, y: int| r.in_bounds(x, y) ==> r.elevation(x, y) == 0,
    {
        assert(width * height <= MAX_EXTENT * MAX_EXTENT) by (nonlinear_arith)
            requires width <= MAX_EXTENT, height <= MAX_EXTENT;
        let r = HeightMap { grid: ElevationGrid::zeros(width, height) };
        assert forall|x: int, y: int| r.in_bounds(x, y) implies r.elevation(x, y) == 0 by {
            r.lemma_index(x, y);
        }
        r
    }

    /// Stores `elevation` at `(x, y)`, leaving every other sample as it was.
    pub fn set_height(&mut self, x: usize, y: usize, elevation: i32)
        requires
            old(self).wf(),
            old(self).in_bounds(x as int, y as int),
        ensures
            final(self).wf(),
            final(self).width() == old(self).width(),
            final(self).height() == old(self).height(),
            final(self).elevation(x as int, y as int) == elevation,
            forall|i: int, j: int|
                final(self).in_bounds(i, j) && (i != x || j != y) ==> final(self).elevation(i, j)
                    == old(self).elevation(i, j),
    {
        proof {
            self.lemma_index(x as int, y as int);
        }
        self.grid.set(x, y, elevation);
        proof {
            assert forall|i: int, j: int|
                self.in_bounds(i, j) && (i != x || j != y) implies self.elevation(i, j)
                    == old(self).elevation(i, j) by {
                old(self).lemma_index(i, j);
                let h = self.height() as int;
                if i * h + j == x * h + y {
                    if i < x {
                        assert((i + 1) * h <= x * h) by (nonlinear_arith)
                            requires i + 1 <= x, h >= 0;
                        assert((i + 1) * h == i * h + h) by (nonlinear_arith);
                    } else if i > x {
                        assert((x + 1) * h <= i * h) by (nonlinear_arith)
                            requires x + 1 <= i, h >= 0;
                        assert((x + 1) * h == x * h + h) by (nonlinear_arith);
                    }
                }
            }
        }
    }

    /// The extent of the grid: `(width, height)`.
    pub fn dim(&self) -> (r: (usize, usize))
        ensures
            r.0 == self.width(),
            r.1 == self.height(),
    {
        self.grid.dim()
    }

    /// The elevation stored at `(x, y)`.
    pub fn height_at(&self, x: usize, y: usize) -> (r: i32)
        requires
            self.wf(),
            self.in_bounds(x as int, y as int),
        ensures
            r == self.elevation(x as int, y as int),
    {
        self.grid.get(x, y)
    }

    /// The position of sample `(x, y)`, centred horizontally on the grid.
    pub fn vertex_at(&self, x: usize, y: usize) -> (r: Point3)
        requires
            self.wf(),
            self.in_bounds(x as int, y as int),
        ensures
            r == self.position(x as int, y as int),
    {
        let (w, h) = self.dim();
        let half: i64 = UNITS_PER_CELL / 2;
        Point3 {
            x: (2 * (x as i64) - w as i64) * half,
            y: self.height_at(x, y) as i64,
            z: (2 * (y as i64) - h as i64) * half,
        }
    }

    /// The slope along one axis, doubled: a central difference inside the
    /// grid, a one-sided one at either edge.
    fn doubled_slope_at(before: i32, here: i32, after: i32, i: usize, n: usize) -> (r: i128)
        requires
            i < n,
        ensures
            r == doubled_slope(before as int, here as int, after as int, i as int, n as int),
    {
        if i == 0 {
            2 * (after as i128 - here as i128)
        } else if i + 1 == n {
            2 * (here as i128 - before as i128)
        } else {
            after as i128 - before as i128
        }
    }

    /// The direction of the surface at `(x, y)`, from the slopes of the
    /// elevations around it. Its upward component is positive, so it never
    /// vanishes, and a flat neighbourhood gives straight up.
    pub fn normal_at(&self, x: usize, y: usize) -> (r: Vector3)
        requires
            self.wf(),
            self.in_bounds(x as int, y as int),
            self.width() >= 2,
            self.height() >= 2,
        ensures
            (r.x as int, r.y as int, r.z as int) == self.surface_normal(x as int, y as int),
    {
        let (w, h) = self.dim();
        let here = self.height_at(x, y);
        let left = if x > 0 { self.height_at(x - 1, y) } else { here };
        let right = if x + 1 < w { self.height_at(x + 1, y) } else { here };
        let down = if y > 0 { self.height_at(x, y - 1) } else { here };
        let up = if y + 1 < h { self.height_at(x, y + 1) } else { here };
        let sx = Self::doubled_slope_at(left, here, right, x, w);
        let sy = Self::doubled_slope_at(down, here, up, y, h);
        Vector3 { x: -sx, y: 2 * UNITS_PER_CELL as i128, z: -sy }
    }
}

} // verus!
