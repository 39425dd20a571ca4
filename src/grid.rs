//! A dense two-dimensional array of elevations, kept in an `ndarray::Array2`.
use vstd::prelude::*;

verus! {

/// The elevation samples of a heightfield, indexed `[x, y]`.
#[verifier::external_body]
pub struct ElevationGrid {
    array: ndarray::Array2<i32>,
}

/// What the grid holds: the sample at `[x, y]` stands at `x * extent.1 + y`.
pub uninterp spec fn grid_cells(g: ElevationGrid) -> Seq<i32>;

/// The extent of the grid along its two axes.
pub uninterp spec fn grid_extent(g: ElevationGrid) -> (nat, nat);

impl ElevationGrid {
    /// Relies on ndarray's `Array2::zeros`: an array of the given shape holding
    /// zeros; it panics where the number of elements overflows `isize`.
    #[verifier::external_body]
    pub(crate) fn zeros(width: usize, height: usize) -> (r: ElevationGrid)
        requires
            width * height <= isize::MAX,
        ensures
            grid_extent(r) == (width as nat, height as nat),
            grid_cells(r) == Seq::new((width * height) as nat, |i: int| 0i32),
    {
        ElevationGrid { array: ndarray::Array2::zeros((width, height)) }
    }

    /// Relies on ndarray's `ArrayBase::dim`: the extent of each axis.
    #[verifier::external_body]
    pub(crate) fn dim(&self) -> (r: (usize, usize))
        ensures
            r.0 as nat == grid_extent(*self).0,
            r.1 as nat == grid_extent(*self).1,
    {
        self.array.dim()
    }

    /// Relies on ndarray's indexing by `[x, y]`, which panics out of bounds.
    #[verifier::external_body]
    pub(crate) fn get(&self, x: usize, y: usize) -> (r: i32)
        requires
            (x as nat) < grid_extent(*self).0,
            (y as nat) < grid_extent(*self).1,
        ensures
            r == grid_cells(*self)[x * grid_extent(*self).1 + y],
    {
        self.array[[x, y]]
    }

    /// Relies on ndarray's mutable indexing by `[x, y]`: it replaces that one
    /// element and leaves the shape as it was.
    #[verifier::external_body]
    pub(crate) fn set(&mut self, x: usize, y: usize, v: i32)
        requires
            (x as nat) < grid_extent(*old(self)).0,
            (y as nat) < grid_extent(*old(self)).1,
        ensures
            grid_extent(*final(self)) == grid_extent(*old(self)),
            grid_cells(*final(self)) == grid_cells(*old(self)).update(
                x * grid_extent(*old(self)).1 + y,
                v,
            ),
    {
        self.array[[x, y]] = v;
    }
}

/// The error of each midpoint of a triangle hierarchy, indexed `[x, y]`.
#[verifier::external_body]
pub struct ErrorGrid {
    array: ndarray::Array2<i64>,
}

/// What the grid holds: the entry at `[x, y]` stands at `x * extent.1 + y`.
pub uninterp spec fn error_cells(g: ErrorGrid) -> Seq<i64>;

/// The extent of the grid along its two axes.
pub uninterp spec fn error_extent(g: ErrorGrid) -> (nat, nat);

impl ErrorGrid {
    /// Relies on ndarray's `Array2::zeros`: an array of the given shape holding
    /// zeros; it panics where the number of elements overflows `isize`.
    #[verifier::external_body]
    pub(crate) fn zeros(width: usize, height: usize) -> (r: ErrorGrid)
        requires
            width * height <= isize::MAX,
        ensures
            error_extent(r) == (width as nat, height as nat),
            error_cells(r) == Seq::new((width * height) as nat, |i: int| 0i64),
    {
        ErrorGrid { array: ndarray::Array2::zeros((width, height)) }
    }

    /// Relies on ndarray's indexing by `[x, y]`, which panics out of bounds.
    #[verifier::external_body]
    pub(crate) fn get(&self, ix: [usize; 2]) -> (r: i64)
        requires
            (ix[0] as nat) < error_extent(*self).0,
            (ix[1] as nat) < error_extent(*self).1,
        ensures
            r == error_cells(*self)[ix[0] * error_extent(*self).1 + ix[1]],
    {
        self.array[ix]
    }

    /// Relies on ndarray's mutable indexing by `[x, y]`: it replaces that one
    /// element and leaves the shape as it was.
    #[verifier::external_body]
    pub(crate) fn set(&mut self, ix: [usize; 2], v: i64)
        requires
            (ix[0] as nat) < error_extent(*old(self)).0,
            (ix[1] as nat) < error_extent(*old(self)).1,
        ensures
            error_extent(*final(self)) == error_extent(*old(self)),
            error_cells(*final(self)) == error_cells(*old(self)).update(
                ix[0] * error_extent(*old(self)).1 + ix[1],
                v,
            ),
    {
        self.array[ix] = v;
    }
}

/// A vertex number, plus one, for each grid position, indexed `[x, y]`; zero where there is none.
#[verifier::external_body]
pub struct IndexGrid {
    array: ndarray::Array2<usize>,
}

/// What the grid holds: the entry at `[x, y]` stands at `x * extent.1 + y`.
pub uninterp spec fn index_cells(g: IndexGrid) -> Seq<usize>;

/// The extent of the grid along its two axes.
pub uninterp spec fn index_extent(g: IndexGrid) -> (nat, nat);

impl IndexGrid {
    /// Relies on ndarray's `Array2::zeros`: an array of the given shape holding
    /// zeros; it panics where the number of elements overflows `isize`.
    #[verifier::external_body]
    pub(crate) fn zeros(width: usize, height: usize) -> (r: IndexGrid)
        requires
            width * height <= isize::MAX,
        ensures
            index_extent(r) == (width as nat, height as nat),
            index_cells(r) == Seq::new((width * height) as nat, |i: int| 0usize),
    {
        IndexGrid { array: ndarray::Array2::zeros((width, height)) }
    }

    /// Relies on ndarray's indexing by `[x, y]`, which panics out of bounds.
    #[verifier::external_body]
    pub(crate) fn get(&self, ix: [usize; 2]) -> (r: usize)
        requires
            (ix[0] as nat) < index_extent(*self).0,
            (ix[1] as nat) < index_extent(*self).1,
        ensures
            r == index_cells(*self)[ix[0] * index_extent(*self).1 + ix[1]],
    {
        self.array[ix]
    }

    /// Relies on ndarray's mutable indexing by `[x, y]`: it replaces that one
    /// element and leaves the shape as it was.
    #[verifier::external_body]
    pub(crate) fn set(&mut self, ix: [usize; 2], v: usize)
        requires
            (ix[0] as nat) < index_extent(*old(self)).0,
            (ix[1] as nat) < index_extent(*old(self)).1,
        ensures
            index_extent(*final(self)) == index_extent(*old(self)),
            index_cells(*final(self)) == index_cells(*old(self)).update(
                ix[0] * index_extent(*old(self)).1 + ix[1],
                v,
            ),
    {
        self.array[ix] = v;
    }
}

} // verus!
