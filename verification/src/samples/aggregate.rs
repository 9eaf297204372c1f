use vstd::prelude::*;

verus! {

/// A point in the plane.
pub struct Point {
    pub x: i32,
    pub y: i32,
}

/// Builds a point and reads its first coordinate back out.
///
/// summary: returns 3
pub fn build() -> (r: i32)
    ensures
        r == 3,
{
    let p = Point { x: 3, y: 4 };
    p.x
}

} // verus!
