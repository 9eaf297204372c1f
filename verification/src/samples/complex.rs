use vstd::prelude::*;

verus! {

/// `x` brought into `lo ..= hi` (the bounds are checked in that order).
fn clamp(x: i32, lo: i32, hi: i32) -> (r: i32)
    ensures
        r == (if x < lo {
            lo
        } else if x > hi {
            hi
        } else {
            x
        }),
{
    if x < lo {
        lo
    } else if x > hi {
        hi
    } else {
        x
    }
}

/// `0 + 1 + ... + (n - 1)`, and `0` when `n` is not positive.
pub open spec fn sum_below(n: int) -> int
    decreases n,
{
    if n <= 0 {
        0
    } else {
        sum_below(n - 1) + (n - 1)
    }
}

proof fn lemma_sum_below_mono(i: int, j: int)
    requires
        0 <= i <= j,
    ensures
        sum_below(i) <= sum_below(j),
    decreases j - i,
{
    if i < j {
        lemma_sum_below_mono(i, j - 1);
    }
}

fn sum_to(n: i32) -> (r: i32)
    requires
        sum_below(n as int) <= i32::MAX,
    ensures
        r == sum_below(n as int),
{
    let mut total: i32 = 0;
    let mut i: i32 = 0;
    while i < n
        invariant
            0 <= i,
            n > 0 ==> i <= n,
            n <= 0 ==> i == 0,
            total == sum_below(i as int),
            sum_below(n as int) <= i32::MAX,
        decreases n - i,
    {
        proof {
            lemma_sum_below_mono(i + 1, n as int);
        }
        total += i;
        i += 1;
    }
    total
}

/// `1` for a score of 0, `2` for 1, `0` for any other.
fn grade(score: i32) -> (r: i32)
    ensures
        r == (if score == 0 {
            1i32
        } else if score == 1 {
            2i32
        } else {
            0i32
        }),
{
    match score {
        0 => 1,
        1 => 2,
        _ => 0,
    }
}

/// Combines a clamp, a sum and a grade: `10` with the flag, else `2`.
pub fn run(flag: bool) -> (r: i32)
    ensures
        r == (if flag { 10i32 } else { 2i32 }),
{
    let base = clamp(7, 0, 5);
    assert(sum_below(3) == 3) by {
        reveal_with_fuel(sum_below, 4);
    }
    let s = sum_to(3);
    let g = grade(1);
    if flag {
        base + s + g
    } else {
        base - s
    }
}

} // verus!
