use vstd::prelude::*;

verus! {

/// `x` stepped up or down by one, by a flag.
///
/// summary: returns (if c { (x + 1) } else { (x - 1) })
/// Both arms are followed and merged back into the branch they came from.
pub fn step(c: bool, x: i32) -> (r: i32)
    requires
        c ==> x < i32::MAX,
        !c ==> x > i32::MIN,
    ensures
        r == (if c { x + 1 } else { x - 1 }),
{
    if c {
        x + 1
    } else {
        x - 1
    }
}

} // verus!
