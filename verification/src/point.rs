//! Grid points, contours and polygons.

use vstd::prelude::*;

verus! {

/// Largest magnitude a coordinate may have.
///
/// With coordinates inside this bound every cross product of two edge
/// directions fits in 64 bits, and every comparison of two positions along an
/// edge fits in 128 bits.
pub const COORD_LIMIT: i64 = 0x4000_0000;

/// A point of the plane with integer coordinates.
#[derive(Clone, Copy, Debug, PartialEq, Eq, Structural)]
pub struct Point {
    pub x: i64,
    pub y: i64,
}

/// One loop of a polygon: its points in order, the first repeated at the end
/// once the loop is closed.
pub type Contour = Vec<Point>;

/// A collection of contours.
pub type Polygon = Vec<Contour>;

impl Point {
    /// Both coordinates lie within `COORD_LIMIT` of zero.
    pub open spec fn in_range(self) -> bool {
        &&& -COORD_LIMIT <= self.x <= COORD_LIMIT
        &&& -COORD_LIMIT <= self.y <= COORD_LIMIT
    }

    /// The point with the given coordinates.
    pub fn new(x: i64, y: i64) -> (p: Point)
        ensures
            p.x == x,
            p.y == y,
    {
        Point { x, y }
    }

    /// Tells whether the point may be handed to the rest of the library.
    pub fn is_in_range(&self) -> (b: bool)
        ensures
            b == self.in_range(),
    {
        -COORD_LIMIT <= self.x && self.x <= COORD_LIMIT && -COORD_LIMIT <= self.y && self.y
            <= COORD_LIMIT
    }
}

/// Every point of the sequence is in range.
pub open spec fn points_in_range(c: Seq<Point>) -> bool {
    forall|i: int| 0 <= i < c.len() ==> (#[trigger] c[i]).in_range()
}

/// The contours of a polygon as sequences of points.
pub open spec fn contours_of(p: Seq<Vec<Point>>) -> Seq<Seq<Point>> {
    Seq::new(p.len(), |i: int| p[i]@)
}

/// Every point of every contour is in range.
pub open spec fn contours_in_range(p: Seq<Seq<Point>>) -> bool {
    forall|k: int| 0 <= k < p.len() ==> points_in_range(#[trigger] p[k])
}

} // verus!
