use vstd::prelude::*;

verus! {

/// A local written through a mutable reference: seven.
///
/// summary: returns 7
pub fn h() -> (r: i32)
    ensures
        r == 7,
{
    let mut x: i32 = 1;
    let r = &mut x;
    *r = 7;
    x
}

} // verus!
