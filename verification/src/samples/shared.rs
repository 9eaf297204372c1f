use vstd::prelude::*;

verus! {

/// A local read through two shared references at once: ten.
pub fn two_refs() -> (r: i32)
    ensures
        r == 10,
{
    let x: i32 = 5;
    let a = &x;
    let b = &x;
    *a + *b
}

} // verus!
