use vstd::prelude::*;

verus! {

/// Twice `x`, plus one.
pub fn outer(x: i32) -> (r: i32)
    requires
        i32::MIN <= 2 * x + 1 <= i32::MAX,
    ensures
        r == 2 * x + 1,
{
    inner(x) + 1
}

fn inner(y: i32) -> (r: i32)
    requires
        i32::MIN <= 2 * y <= i32::MAX,
    ensures
        r == 2 * y,
{
    y * 2
}

} // verus!
