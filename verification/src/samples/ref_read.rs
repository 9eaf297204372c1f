use vstd::prelude::*;

verus! {

/// A local read through a shared reference: five.
///
/// summary: returns 5
pub fn g() -> (r: i32)
    ensures
        r == 5,
{
    let x: i32 = 5;
    let r = &x;
    *r
}

} // verus!
