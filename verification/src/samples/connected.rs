use vstd::prelude::*;

verus! {

/// Twice `x`.
pub fn double(x: i32) -> (r: i32)
    requires
        i32::MIN <= 2 * x <= i32::MAX,
    ensures
        r == 2 * x,
{
    x * 2
}

/// `x` plus one.
pub fn inc(x: i32) -> (r: i32)
    requires
        x < i32::MAX,
    ensures
        r == x + 1,
{
    x + 1
}

fn scale(x: i32) -> (r: i32)
    requires
        i32::MIN <= 3 * x + 1 <= i32::MAX,
        i32::MIN <= 2 * x <= i32::MAX,
    ensures
        r == 3 * x + 1,
{
    double(x) + inc(x)
}

fn combo(x: i32) -> (r: i32)
    requires
        i32::MIN <= 6 * x + 1 <= i32::MAX,
        i32::MIN <= 4 * x <= i32::MAX,
    ensures
        r == 6 * x + 1,
{
    scale(double(x))
}

/// `9 * x + 2`, through a small call graph.
pub fn top(x: i32) -> (r: i32)
    requires
        i32::MIN <= 9 * x + 2 <= i32::MAX,
    ensures
        r == 9 * x + 2,
{
    combo(x) + scale(x)
}

} // verus!
