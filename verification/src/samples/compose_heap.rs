use vstd::prelude::*;

verus! {

fn set(p: &mut i32, v: i32)
    ensures
        *final(p) == v,
{
    *p = v;
}

/// A local set through a callee's reference parameter: seven.
pub fn caller() -> (r: i32)
    ensures
        r == 7,
{
    let mut x: i32 = 1;
    set(&mut x, 7);
    x
}

} // verus!
