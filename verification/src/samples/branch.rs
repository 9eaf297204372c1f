use vstd::prelude::*;

verus! {

/// One of two constants, by a flag.
///
/// summary: returns (if c { 1 } else { 2 })
/// The two arms are followed separately and merged back into a conditional.
pub fn pick(c: bool) -> (r: i32)
    ensures
        r == (if c { 1i32 } else { 2i32 }),
{
    if c {
        1
    } else {
        2
    }
}

} // verus!
