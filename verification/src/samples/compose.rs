use vstd::prelude::*;

verus! {

/// Four times `x`.
pub fn quad(x: i32) -> (r: i32)
    requires
        i32::MIN <= 4 * x <= i32::MAX,
    ensures
        r == 4 * x,
{
    double(double(x))
}

fn double(x: i32) -> (r: i32)
    requires
        i32::MIN <= 2 * x <= i32::MAX,
    ensures
        r == 2 * x,
{
    x * 2
}

/// Ten, as a sum of two constants.
pub fn ten() -> (r: i32)
    ensures
        r == 10,
{
    self::add(4, 6)
}

fn add(a: i32, b: i32) -> (r: i32)
    requires
        i32::MIN <= a + b <= i32::MAX,
    ensures
        r == a + b,
{
    a + b
}

} // verus!
