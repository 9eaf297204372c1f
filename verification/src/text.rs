//! Building the analyses' text output.
use vstd::prelude::*;

verus! {

pub open spec fn digit_char(d: nat) -> char {
    if d == 0 {
        '0'
    } else if d == 1 {
        '1'
    } else if d == 2 {
        '2'
    } else if d == 3 {
        '3'
    } else if d == 4 {
        '4'
    } else if d == 5 {
        '5'
    } else if d == 6 {
        '6'
    } else if d == 7 {
        '7'
    } else if d == 8 {
        '8'
    } else {
        '9'
    }
}

/// The decimal digits of `n`, most significant first.
pub open spec fn dec(n: nat) -> Seq<char>
    decreases n,
{
    if n < 10 {
        seq![digit_char(n)]
    } else {
        dec(n / 10).push(digit_char(n % 10))
    }
}

/// The decimal rendering of `v`, with a leading `-` when it is negative.
pub open spec fn dec_int(v: int) -> Seq<char> {
    if v < 0 {
        seq!['-'] + dec((-v) as nat)
    } else {
        dec(v as nat)
    }
}

fn digit_str(d: u128) -> (r: &'static str)
    requires
        d < 10,
    ensures
        r@ == seq![digit_char(d as nat)],
{
    proof {
        reveal_strlit("0");
        reveal_strlit("1");
        reveal_strlit("2");
        reveal_strlit("3");
        reveal_strlit("4");
        reveal_strlit("5");
        reveal_strlit("6");
        reveal_strlit("7");
        reveal_strlit("8");
        reveal_strlit("9");
    }
    if d == 0 {
        "0"
    } else if d == 1 {
        "1"
    } else if d == 2 {
        "2"
    } else if d == 3 {
        "3"
    } else if d == 4 {
        "4"
    } else if d == 5 {
        "5"
    } else if d == 6 {
        "6"
    } else if d == 7 {
        "7"
    } else if d == 8 {
        "8"
    } else {
        "9"
    }
}

/// A string holding exactly `s`.
pub fn text(s: &str) -> (r: String)
    ensures
        r@ == s@,
{
    String::from_str(s)
}

/// Appends `x` to `out`.
pub fn put(out: &mut String, x: &str)
    ensures
        final(out)@ == old(out)@ + x@,
{
    out.append(x);
}

/// The decimal rendering of `n`.
pub fn fmt_u128(n: u128) -> (r: String)
    ensures
        r@ == dec(n as nat),
    decreases n,
{
    if n < 10 {
        text(digit_str(n))
    } else {
        let mut s = fmt_u128(n / 10);
        put(&mut s, digit_str(n % 10));
        proof {
            assert(seq![digit_char((n % 10) as nat)] =~= seq![digit_char((n % 10) as nat)]);
            assert(s@ =~= dec((n / 10) as nat).push(digit_char((n % 10) as nat)));
        }
        s
    }
}

/// The decimal rendering of `n`.
pub fn fmt_usize(n: usize) -> (r: String)
    ensures
        r@ == dec(n as nat),
{
    fmt_u128(n as u128)
}

/// The decimal rendering of `v`.
pub fn fmt_i128(v: i128) -> (r: String)
    ensures
        r@ == dec_int(v as int),
{
    if v < 0 {
        let m: u128 = if v == i128::MIN {
            0x8000_0000_0000_0000_0000_0000_0000_0000u128
        } else {
            (-v) as u128
        };
        let mut s = text("-");
        let d = fmt_u128(m);
        put(&mut s, d.as_str());
        proof {
            reveal_strlit("-");
        }
        s
    } else {
        fmt_u128(v as u128)
    }
}

/// `a`, then `x`, then `b`.
pub fn wrap(a: &str, x: &String, b: &str) -> (r: String)
    ensures
        r@ == a@ + x@ + b@,
{
    let mut s = text(a);
    put(&mut s, x.as_str());
    put(&mut s, b);
    s
}

/// `a`, `x`, `b`, `y`, `c`, in that order.
pub fn wrap2(a: &str, x: &String, b: &str, y: &String, c: &str) -> (r: String)
    ensures
        r@ == a@ + x@ + b@ + y@ + c@,
{
    let mut s = wrap(a, x, b);
    put(&mut s, y.as_str());
    put(&mut s, c);
    s
}

/// The concatenation of `parts`, with `sep` between neighbours.
pub open spec fn joined(parts: Seq<Seq<char>>, sep: Seq<char>) -> Seq<char>
    decreases parts.len(),
{
    if parts.len() == 0 {
        seq![]
    } else if parts.len() == 1 {
        parts[0]
    } else {
        joined(parts.drop_last(), sep) + sep + parts.last()
    }
}

pub open spec fn views(v: Seq<String>) -> Seq<Seq<char>> {
    v.map_values(|s: String| s@)
}

/// The strings of `parts` joined by `sep`.
pub fn join(parts: &Vec<String>, sep: &str) -> (r: String)
    ensures
        r@ == joined(views(parts@), sep@),
{
    let mut out = text("");
    proof {
        reveal_strlit("");
    }
    let mut i: usize = 0;
    while i < parts.len()
        invariant
            i <= parts@.len(),
            out@ == joined(views(parts@.take(i as int)), sep@),
        decreases parts@.len() - i,
    {
        proof {
            assert(views(parts@.take(i + 1)).drop_last() =~= views(parts@.take(i as int)));
            assert(views(parts@.take(i + 1)).last() == parts@[i as int]@);
        }
        if i > 0 {
            put(&mut out, sep);
        }
        put(&mut out, parts[i].as_str());
        proof {
            if i == 0 {
                assert(out@ =~= parts@[0]@);
            }
        }
        i = i + 1;
    }
    proof {
        assert(parts@.take(parts@.len() as int) =~= parts@);
    }
    out
}

/// A character as it stands inside a double-quoted label: a backslash or a
/// double quote gets a backslash before it.
pub open spec fn esc_char(c: char) -> Seq<char> {
    if c == '\\' {
        seq!['\\', '\\']
    } else if c == '"' {
        seq!['\\', '"']
    } else {
        seq![c]
    }
}

pub open spec fn escaped(s: Seq<char>) -> Seq<char>
    decreases s.len(),
{
    if s.len() == 0 {
        seq![]
    } else {
        escaped(s.drop_last()) + esc_char(s.last())
    }
}

/// `s` with every backslash and double quote escaped by a backslash.
pub fn escape(s: &str) -> (r: String)
    ensures
        r@ == escaped(s@),
{
    proof {
        reveal_strlit("");
    }
    let n = s.unicode_len();
    let mut out = text("");
    let mut i: usize = 0;
    while i < n
        invariant
            i <= n,
            n == s@.len(),
            out@ == escaped(s@.take(i as int)),
        decreases n - i,
    {
        let c = s.get_char(i);
        proof {
            assert(s@.take(i + 1).drop_last() =~= s@.take(i as int));
            assert(s@.take(i + 1).last() == c);
        }
        if c == '\\' {
            put(&mut out, "\\\\");
            proof {
                reveal_strlit("\\\\");
                assert("\\\\"@ =~= seq!['\\', '\\']);
            }
        } else if c == '"' {
            put(&mut out, "\\\"");
            proof {
                reveal_strlit("\\\"");
                assert("\\\""@ =~= seq!['\\', '"']);
            }
        } else {
            let one = s.substring_char(i, i + 1);
            put(&mut out, one);
            proof {
                assert(one@ =~= seq![c]);
            }
        }
        i = i + 1;
    }
    proof {
        assert(s@.take(n as int) =~= s@);
    }
    out
}

} // verus!
