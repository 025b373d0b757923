//! Fixed-point 3D points and the per-axis helpers the grid is specified with.
use vstd::prelude::*;

verus! {

/// A world-space point in fixed-point integer units. Hosts pick the scale
/// (for example, one unit per millimetre) when converting their own
/// floating-point coordinates.
#[derive(Clone, Copy, PartialEq, Eq, Structural, Debug)]
pub struct Point3 {
    pub x: i64,
    pub y: i64,
    pub z: i64,
}

impl Point3 {
    pub fn new(x: i64, y: i64, z: i64) -> (p: Point3)
        ensures
            p == (Point3 { x, y, z }),
    {
        Point3 { x, y, z }
    }
}

/// The smaller of two coordinates; used to normalize the corners of the grid.
pub open spec fn axis_min(a: int, b: int) -> int {
    if a <= b {
        a
    } else {
        b
    }
}

/// The larger of two coordinates.
pub open spec fn axis_max(a: int, b: int) -> int {
    if a <= b {
        b
    } else {
        a
    }
}

/// Orders a pair of coordinates so the first is the minimum.
pub fn sort_axis(a: i64, b: i64) -> (r: (i64, i64))
    ensures
        r.0 == axis_min(a as int, b as int),
        r.1 == axis_max(a as int, b as int),
{
    if a <= b {
        (a, b)
    } else {
        (b, a)
    }
}

} // verus!
