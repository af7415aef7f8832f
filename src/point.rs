use vstd::prelude::*;

verus! {

/// The largest dataset the library accepts: sums of coordinates over it fit
/// in 64 bits and sums of squared distances in 128 bits.
pub const MAX_POINTS: usize = 0x7FFF_FFFF;

/// A point of the integer grid.
#[derive(Clone, Copy, PartialEq, Eq, Structural, Debug, Hash)]
pub struct Point {
    pub x: i32,
    pub y: i32,
}

/// Position of a point in a dataset.
#[derive(Clone, Copy, PartialEq, Eq, Structural, Debug, Hash)]
pub struct PointIdx(pub usize);

/// Position of a centroid in a centroid set.
#[derive(Clone, Copy, PartialEq, Eq, Structural, Debug, Hash)]
pub struct CentroidIdx(pub usize);

/// Squared Euclidean distance between two points.
pub open spec fn dist2(a: Point, b: Point) -> int {
    (a.x - b.x) * (a.x - b.x) + (a.y - b.y) * (a.y - b.y)
}

impl Point {
    pub fn new(x: i32, y: i32) -> (r: Point)
        ensures
            r.x == x,
            r.y == y,
    {
        Point { x, y }
    }

    /// The key of the canonical order: by x, then by y.
    pub fn key(&self) -> (r: (i32, i32))
        ensures
            r == (self.x, self.y),
    {
        (self.x, self.y)
    }

    /// Squared Euclidean distance to `other`.
    pub fn distance_squared(&self, other: &Point) -> (r: u128)
        ensures
            r == dist2(*self, *other),
    {
        let dx: i64 = self.x as i64 - other.x as i64;
        let dy: i64 = self.y as i64 - other.y as i64;
        let ax: u128 = if dx < 0 { (-dx) as u128 } else { dx as u128 };
        let ay: u128 = if dy < 0 { (-dy) as u128 } else { dy as u128 };
        assert(ax * ax == dx * dx) by (nonlinear_arith)
            requires ax == dx || ax == -dx;
        assert(ay * ay == dy * dy) by (nonlinear_arith)
            requires ay == dy || ay == -dy;
        assert(ax * ax <= 0x1_0000_0000u128 * 0x1_0000_0000u128) by (nonlinear_arith)
            requires ax <= 0x1_0000_0000u128;
        assert(ay * ay <= 0x1_0000_0000u128 * 0x1_0000_0000u128) by (nonlinear_arith)
            requires ay <= 0x1_0000_0000u128;
        ax * ax + ay * ay
    }
}

} // verus!

verus! {

/// Why a clustering request was refused.
#[derive(Clone, Copy, PartialEq, Eq, Structural, Debug)]
pub enum KMeansError {
    /// The dataset or the centroid set is empty, or the cluster count is zero.
    InvalidInput,
    /// The centroids did not settle within the allowed number of iterations.
    NotConverged,
}

} // verus!
