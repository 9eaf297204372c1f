use vstd::prelude::*;

verus! {

/// A point in the plane.
pub struct Point {
    pub x: i32,
    pub y: i32,
}

/// The first coordinate of a point.
///
/// summary: returns p.x
pub fn get_x(p: Point) -> (r: i32)
    ensures
        r == p.x,
{
    p.x
}

} // verus!
