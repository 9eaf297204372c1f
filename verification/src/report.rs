//! The printed form of the heap model's results: per function, the variables,
//! the heap cells and their borrow states, what the function returns, and
//! the undefined behaviour found, per path; and the same as Graphviz.
use vstd::prelude::*;

use crate::heap::{
    Guard, HeapSummary, Ownership, PathV, State, StateV, Val, all_fit, analyzed, fits, label_of, path_views,
    summaries_follow,
};
use crate::cfg::crate_order;
use crate::mir::FnEntry;
use crate::walk::{body_lines, listing};
use crate::summary::{FnSummary, crate_summaries, crate_summarizable, values_of};
use crate::text::{dec, dec_int, escape, escaped, fmt_i128, fmt_usize, join, joined, put, text, views};

verus! {

/// The printed values of a function's locals, when there are some.
pub open spec fn sym_view(sym: Option<&Vec<String>>) -> Option<Seq<Seq<char>>> {
    match sym {
        Some(v) => Some(views(v@)),
        None => None,
    }
}

/// The name of the `n`-th parameter, else `argN`.
pub open spec fn param_name(s: StateV, n: usize) -> Seq<char> {
    if n + 1 < s.names.len() {
        s.names[n + 1]
    } else {
        "arg"@ + dec(n as nat)
    }
}

/// A value, with parameters by name.
pub open spec fn val_text(s: StateV, v: Val) -> Seq<char> {
    match v {
        Val::Param(n) => param_name(s, n),
        Val::In(n) => "*"@ + param_name(s, n),
        _ => v.text_of(),
    }
}

fn param_text(s: &State, n: usize) -> (r: String)
    ensures
        r@ == param_name(s@, n),
{
    if s.names.len() > 0 && n < s.names.len() - 1 {
        s.names[n + 1].clone()
    } else {
        let d = fmt_usize(n);
        let r = crate::text::wrap("arg", &d, "");
        proof {
            reveal_strlit("");
            assert(r@ =~= "arg"@ + dec(n as nat));
        }
        r
    }
}

pub fn fmt_val(s: &State, v: &Val) -> (r: String)
    ensures
        r@ == val_text(s@, *v),
{
    match v {
        Val::Param(n) => param_text(s, *n),
        Val::In(n) => {
            let mut r = text("*");
            put(&mut r, param_text(s, *n).as_str());
            r
        },
        _ => v.to_text(),
    }
}

/// The local owns (mutably or not) the cell `a`.
pub open spec fn owns(o: Option<Ownership>, a: usize) -> bool {
    match o {
        Some(Ownership::Owned(x, _)) => x == a,
        Some(Ownership::MutOwned(x, _)) => x == a,
        _ => false,
    }
}

/// The first of the first `k` locals that owns the cell `a`.
pub open spec fn first_owner(vars: Seq<Option<Ownership>>, a: usize, k: int) -> Option<usize>
    decreases k,
{
    if k <= 0 {
        None
    } else {
        match first_owner(vars, a, k - 1) {
            Some(i) => Some(i),
            None => if owns(vars[k - 1], a) {
                Some((k - 1) as usize)
            } else {
                None
            },
        }
    }
}

proof fn lemma_first_owner_range(vars: Seq<Option<Ownership>>, a: usize, k: int)
    ensures
        first_owner(vars, a, k) matches Some(i) ==> i < k,
    decreases k,
{
    if k > 0 {
        lemma_first_owner_range(vars, a, k - 1);
    }
}

/// The local that owns the cell `a`, if any.
pub fn owner_of(s: &State, a: usize) -> (r: Option<usize>)
    ensures
        r == first_owner(s@.vars, a, s@.vars.len() as int),
        r matches Some(i) ==> i < s@.vars.len(),
{
    let mut i: usize = 0;
    while i < s.vars.len()
        invariant
            i <= s@.vars.len(),
            first_owner(s@.vars, a, i as int) is None,
        decreases s@.vars.len() - i,
    {
        let hit = match s.vars[i] {
            Some(Ownership::Owned(x, _)) => x == a,
            Some(Ownership::MutOwned(x, _)) => x == a,
            _ => false,
        };
        if hit {
            proof {
                lemma_first_owner_suffix(s@.vars, a, i + 1);
            }
            return Some(i);
        }
        i = i + 1;
    }
    None
}

proof fn lemma_first_owner_suffix(vars: Seq<Option<Ownership>>, a: usize, k: int)
    requires
        0 < k <= vars.len(),
        first_owner(vars, a, k) is Some,
    ensures
        first_owner(vars, a, vars.len() as int) == first_owner(vars, a, k),
    decreases vars.len() - k,
{
    if k < vars.len() {
        lemma_first_owner_suffix(vars, a, k + 1);
    }
}

/// A cell's value: the owning local's printed symbolic value when there is
/// one, else the model's value.
pub open spec fn cell_text_of(s: StateV, a: usize, sym: Option<Seq<Seq<char>>>) -> Seq<char> {
    match (sym, first_owner(s.vars, a, s.vars.len() as int)) {
        (Some(v), Some(l)) => if l < v.len() {
            v[l as int]
        } else {
            val_text(s, s.heap[a as int].value)
        },
        _ => val_text(s, s.heap[a as int].value),
    }
}

pub fn cell_text(s: &State, a: usize, sym: Option<&Vec<String>>) -> (r: String)
    requires
        a < s@.heap.len(),
    ensures
        r@ == cell_text_of(s@, a, sym_view(sym)),
{
    let own = owner_of(s, a);
    proof {
        assert(s@.heap[a as int] == s.heap@[a as int]@);
    }
    match (sym, own) {
        (Some(v), Some(l)) => if l < v.len() {
            v[l].clone()
        } else {
            fmt_val(s, &s.heap[a].value)
        },
        _ => fmt_val(s, &s.heap[a].value),
    }
}

/// What a function returns: the printed symbolic value of `_0` when there
/// is one and it is known, else the model's value.
pub open spec fn ret_text_of(s: StateV, ret: Val, sym: Option<Seq<Seq<char>>>) -> Seq<char> {
    match sym {
        Some(v) => if v.len() > 0 && v[0] != "?"@ {
            v[0]
        } else {
            val_text(s, ret)
        },
        None => val_text(s, ret),
    }
}

pub fn ret_text(s: &State, ret: &Val, sym: Option<&Vec<String>>) -> (r: String)
    ensures
        r@ == ret_text_of(s@, *ret, sym_view(sym)),
{
    match sym {
        Some(v) => if v.len() > 0 && !crate::sym::str_eq(v[0].as_str(), "?") {
            v[0].clone()
        } else {
            fmt_val(s, ret)
        },
        None => fmt_val(s, ret),
    }
}

pub open spec fn local_or_unknown(s: StateV, l: usize) -> Seq<char> {
    if l < s.names.len() {
        s.names[l as int]
    } else {
        "?"@
    }
}

/// The name a guard's discriminant is printed with.
pub open spec fn guard_name(s: StateV, g: Guard, sym: Option<Seq<Seq<char>>>) -> Seq<char> {
    match g.discr {
        Some(l) => match sym {
            Some(v) => if l < v.len() && v[l as int] != "?"@ {
                v[l as int]
            } else {
                local_or_unknown(s, l)
            },
            None => local_or_unknown(s, l),
        },
        None => "?"@,
    }
}

/// A branch taken: `c` or `!c` for a boolean, `x == v` for a valued arm,
/// `else` for the otherwise arm.
pub open spec fn guard_text(s: StateV, g: Guard, sym: Option<Seq<Seq<char>>>) -> Seq<char> {
    let name = guard_name(s, g, sym);
    if g.is_bool {
        if g.value == Some(0i128) {
            "!"@ + name
        } else {
            name
        }
    } else {
        match g.value {
            Some(v) => name + " == "@ + dec_int(v as int),
            None => "else"@,
        }
    }
}

/// The printed condition of a branch holds exactly on the inputs that take
/// it: the `true` arm of a boolean prints its name, the `false` arm its
/// negation `!name`, a valued arm `name == v` with `v` in decimal, and the
/// `otherwise` arm of a valued switch `else`.
pub proof fn lemma_guard_text_meaning(s: StateV, g: Guard, sym: Option<Seq<Seq<char>>>)
    ensures
        (g.is_bool && g.value == Some(0i128)) ==> guard_text(s, g, sym) == "!"@ + guard_name(s, g, sym),
        (g.is_bool && g.value != Some(0i128)) ==> guard_text(s, g, sym) == guard_name(s, g, sym),
        (!g.is_bool && g.value is Some) ==> guard_text(s, g, sym) == guard_name(s, g, sym) + " == "@ + dec_int(
            g.value->0 as int,
        ),
        (!g.is_bool && g.value is None) ==> guard_text(s, g, sym) == "else"@,
{
}

pub fn guard_one(s: &State, g: &Guard, sym: Option<&Vec<String>>) -> (r: String)
    ensures
        r@ == guard_text(s@, *g, sym_view(sym)),
{
    let name = match g.discr {
        Some(l) => {
            let from_sym = match sym {
                Some(v) => if l < v.len() && !crate::sym::str_eq(v[l].as_str(), "?") {
                    Some(v[l].clone())
                } else {
                    None
                },
                None => None,
            };
            match from_sym {
                Some(x) => x,
                None => if l < s.names.len() {
                    s.names[l].clone()
                } else {
                    text("?")
                },
            }
        },
        None => text("?"),
    };
    if g.is_bool {
        if g.value == Some(0i128) {
            let mut r = text("!");
            put(&mut r, name.as_str());
            r
        } else {
            name
        }
    } else {
        match g.value {
            Some(v) => {
                let mut r = name;
                put(&mut r, " == ");
                put(&mut r, fmt_i128(v).as_str());
                r
            },
            None => text("else"),
        }
    }
}

/// The branches of a path, joined by `&&`.
pub open spec fn guard_cond_of(s: StateV, gs: Seq<Guard>, sym: Option<Seq<Seq<char>>>) -> Seq<char> {
    joined(Seq::new(gs.len(), |k: int| guard_text(s, gs[k], sym)), " && "@)
}

pub fn guard_cond(s: &State, guards: &Vec<Guard>, sym: Option<&Vec<String>>) -> (r: String)
    ensures
        r@ == guard_cond_of(s@, guards@, sym_view(sym)),
{
    let mut parts: Vec<String> = Vec::new();
    let mut k: usize = 0;
    while k < guards.len()
        invariant
            k <= guards@.len(),
            parts@.len() == k,
            forall|q: int| 0 <= q < k ==> (#[trigger] parts@[q])@ == guard_text(s@, guards@[q], sym_view(sym)),
        decreases guards@.len() - k,
    {
        parts.push(guard_one(s, &guards[k], sym));
        k = k + 1;
    }
    proof {
        assert(views(parts@) =~= Seq::new(guards@.len(), |q: int| guard_text(s@, guards@[q], sym_view(sym))));
    }
    join(&parts, " && ")
}

/// The parameter names, joined by `", "`.
pub open spec fn params_text(s: StateV) -> Seq<char> {
    joined(s.names.subrange(1, s.arg_count + 1), ", "@)
}

pub fn params_str(s: &State) -> (r: String)
    requires
        s@.wf(),
    ensures
        r@ == params_text(s@),
{
    let mut parts: Vec<String> = Vec::new();
    let mut i: usize = 1;
    while i <= s.arg_count
        invariant
            1 <= i <= s@.arg_count + 1,
            s@.wf(),
            parts@.len() == i - 1,
            forall|q: int| 0 <= q < i - 1 ==> (#[trigger] parts@[q])@ == s@.names[q + 1],
        decreases s.arg_count + 1 - i,
    {
        proof {
            assert(s@.names[i as int] == s.names@[i as int]@);
        }
        parts.push(s.names[i].clone());
        i = i + 1;
    }
    proof {
        assert(views(parts@) =~= s@.names.subrange(1, s@.arg_count + 1));
    }
    join(&parts, ", ")
}

/// The undefined behaviour found, one `UB:` entry per finding, or `UB: none`.
pub open spec fn ub_text(s: StateV) -> Seq<char> {
    if s.ub.len() == 0 {
        "UB: none"@
    } else {
        joined(Seq::new(s.ub.len(), |k: int| "UB: "@ + s.ub[k]), "\\n"@)
    }
}

pub fn ub_label(s: &State) -> (r: String)
    ensures
        r@ == ub_text(s@),
{
    if s.ub.len() == 0 {
        return text("UB: none");
    }
    let mut parts: Vec<String> = Vec::new();
    let mut k: usize = 0;
    while k < s.ub.len()
        invariant
            k <= s@.ub.len(),
            parts@.len() == k,
            forall|q: int| 0 <= q < k ==> (#[trigger] parts@[q])@ == "UB: "@ + s@.ub[q],
        decreases s@.ub.len() - k,
    {
        proof {
            assert(s@.ub[k as int] == s.ub@[k as int]@);
        }
        let mut t = text("UB: ");
        put(&mut t, s.ub[k].as_str());
        parts.push(t);
        k = k + 1;
    }
    proof {
        assert(views(parts@) =~= Seq::new(s@.ub.len(), |q: int| "UB: "@ + s@.ub[q]));
    }
    join(&parts, "\\n")
}

// ---------------------------------------------------------------------------
// The variables and cells shown.
// ---------------------------------------------------------------------------

pub open spec fn starts_with_underscore(n: Seq<char>) -> bool {
    n.len() > 0 && n[0] == '_'
}

/// The locals among the first `k` that hold a cell and have a user name (one
/// not starting with `_`).
pub open spec fn shown_upto(s: StateV, k: int) -> Seq<usize>
    decreases k,
{
    if k <= 0 {
        seq![]
    } else {
        let r = shown_upto(s, k - 1);
        if s.vars[k - 1] is Some && !starts_with_underscore(s.names[k - 1]) {
            r.push((k - 1) as usize)
        } else {
            r
        }
    }
}

pub open spec fn shown(s: StateV) -> Seq<usize> {
    shown_upto(s, s.vars.len() as int)
}

pub open spec fn held_by(s: StateV, sh: Seq<usize>, a: int) -> bool {
    exists|q: int| 0 <= q < sh.len() && (#[trigger] s.vars[sh[q] as int]).unwrap().spec_addr() == a
}

/// The cells among the first `k` that a shown local holds, in increasing
/// order.
pub open spec fn cells_upto(s: StateV, k: int) -> Seq<usize>
    decreases k,
{
    if k <= 0 {
        seq![]
    } else {
        cells_upto(s, k - 1) + if held_by(s, shown(s), k - 1) {
            seq![(k - 1) as usize]
        } else {
            seq![]
        }
    }
}

pub open spec fn shown_cells(s: StateV) -> Seq<usize> {
    cells_upto(s, s.heap.len() as int)
}

proof fn lemma_shown_upto(s: StateV, k: int)
    requires
        0 <= k <= s.vars.len(),
        s.wf(),
    ensures
        forall|q: int| 0 <= q < shown_upto(s, k).len() ==> #[trigger] shown_upto(s, k)[q] < k,
        forall|q: int| 0 <= q < shown_upto(s, k).len() ==> (#[trigger] s.vars[shown_upto(s, k)[q] as int]) is Some,
    decreases k,
{
    if k > 0 {
        lemma_shown_upto(s, k - 1);
    }
}

proof fn lemma_cells_upto(s: StateV, k: int)
    requires
        k <= usize::MAX,
    ensures
        forall|q: int| 0 <= q < cells_upto(s, k).len() ==> #[trigger] cells_upto(s, k)[q] < k,
    decreases k,
{
    if k > 0 {
        lemma_cells_upto(s, k - 1);
        let a = cells_upto(s, k - 1);
        let b: Seq<usize> = if held_by(s, shown(s), k - 1) {
            seq![(k - 1) as usize]
        } else {
            seq![]
        };
        assert(cells_upto(s, k) == a + b);
        assert forall|q: int| 0 <= q < cells_upto(s, k).len() implies #[trigger] cells_upto(s, k)[q] < k by {
            if q < a.len() {
                assert((a + b)[q] == a[q]);
            } else {
                assert((a + b)[q] == b[q - a.len()]);
            }
        }
    }
}

fn starts_us(n: &String) -> (r: bool)
    ensures
        r == starts_with_underscore(n@),
{
    let t = n.as_str();
    t.unicode_len() > 0 && t.get_char(0) == '_'
}

/// The shown locals, in order.
pub fn shown_locals(s: &State) -> (r: Vec<usize>)
    requires
        s@.wf(),
    ensures
        r@ == shown(s@),
{
    let mut out: Vec<usize> = Vec::new();
    let mut i: usize = 0;
    while i < s.vars.len()
        invariant
            i <= s@.vars.len(),
            s@.wf(),
            out@ == shown_upto(s@, i as int),
        decreases s@.vars.len() - i,
    {
        proof {
            assert(s@.names[i as int] == s.names@[i as int]@);
        }
        if s.vars[i].is_some() && !starts_us(&s.names[i]) {
            out.push(i);
        }
        i = i + 1;
    }
    out
}

/// The cells the shown locals hold, in increasing order, each once.
pub fn cells_shown(s: &State, sh: &Vec<usize>) -> (r: Vec<usize>)
    requires
        s@.wf(),
        sh@ == shown(s@),
    ensures
        r@ == shown_cells(s@),
{
    proof {
        lemma_shown_upto(s@, s@.vars.len() as int);
    }
    let mut out: Vec<usize> = Vec::new();
    let mut a: usize = 0;
    while a < s.heap.len()
        invariant
            a <= s@.heap.len(),
            s@.wf(),
            sh@ == shown(s@),
            forall|q: int| 0 <= q < sh@.len() ==> #[trigger] sh@[q] < s@.vars.len(),
            forall|q: int| 0 <= q < sh@.len() ==> (#[trigger] s@.vars[sh@[q] as int]) is Some,
            out@ == cells_upto(s@, a as int),
        decreases s@.heap.len() - a,
    {
        let mut held = false;
        let mut q: usize = 0;
        while q < sh.len()
            invariant
                q <= sh@.len(),
                forall|w: int| 0 <= w < sh@.len() ==> #[trigger] sh@[w] < s@.vars.len(),
                forall|w: int| 0 <= w < sh@.len() ==> (#[trigger] s@.vars[sh@[w] as int]) is Some,
                held == exists|w: int| 0 <= w < q && (#[trigger] s@.vars[sh@[w] as int]).unwrap().spec_addr() == a,
            decreases sh@.len() - q,
        {
            let i = sh[q];
            if let Some(o) = s.vars[i] {
                if o.addr() == a {
                    held = true;
                }
            }
            q = q + 1;
        }
        if held {
            out.push(a);
        }
        proof {
            assert(cells_upto(s@, a + 1) =~= out@);
        }
        a = a + 1;
    }
    out
}

// ---------------------------------------------------------------------------
// The report of one path.
// ---------------------------------------------------------------------------

/// `x` padded with spaces to six characters.
pub open spec fn pad6(x: Seq<char>) -> Seq<char> {
    if x.len() < 6 {
        x + Seq::new((6 - x.len()) as nat, |i: int| ' ')
    } else {
        x
    }
}

fn pad6_text(x: &String) -> (r: String)
    ensures
        r@ == pad6(x@),
{
    let n = x.as_str().unicode_len();
    let mut r = x.clone();
    let mut k = n;
    while k < 6
        invariant
            n == x@.len(),
            n <= k <= 6 || (n > 6 && k == n),
            r@ == x@ + Seq::new((k - n) as nat, |i: int| ' '),
        decreases 6 - k,
    {
        put(&mut r, " ");
        proof {
            reveal_strlit(" ");
            assert(r@ =~= x@ + Seq::new((k + 1 - n) as nat, |i: int| ' '));
        }
        k = k + 1;
    }
    proof {
        if n >= 6 {
            assert(r@ =~= x@);
        }
    }
    r
}

pub open spec fn lt_text(o: Ownership) -> Seq<char> {
    let lt = o.spec_lifetime();
    "[lt"@ + dec(lt.id as nat) + " "@ + dec(lt.start as nat) + ".."@ + dec(lt.end as nat) + "]"@
}

fn lt_str(o: &Ownership) -> (r: String)
    ensures
        r@ == lt_text(*o),
{
    let lt = o.lifetime();
    let mut r = text("[lt");
    put(&mut r, fmt_usize(lt.id).as_str());
    put(&mut r, " ");
    put(&mut r, fmt_usize(lt.start).as_str());
    put(&mut r, "..");
    put(&mut r, fmt_usize(lt.end).as_str());
    put(&mut r, "]");
    r
}

pub open spec fn var_line(s: StateV, i: usize, indent: Seq<char>) -> Seq<char> {
    let o = s.vars[i as int].unwrap();
    indent + "    "@ + pad6(s.names[i as int]) + " "@ + o.kind_name() + " @a"@ + dec(o.spec_addr() as nat) + "  "@
        + lt_text(o)
}

pub open spec fn heap_line(s: StateV, a: usize, indent: Seq<char>, sym: Option<Seq<Seq<char>>>) -> Seq<char> {
    indent + "    a"@ + dec(a as nat) + " = "@ + cell_text_of(s, a, sym) + "  ("@ + label_of(s.heap[a as int].state)
        + ")"@
}

pub open spec fn note_text(looped: bool) -> Seq<char> {
    if looped {
        "  (approximate: loops not modelled)"@
    } else {
        ""@
    }
}

/// The report of one final state: its variables, its cells, what it
/// returns, and the undefined behaviour found.
pub open spec fn body_text(
    s: StateV,
    ret: Val,
    sym: Option<Seq<Seq<char>>>,
    indent: Seq<char>,
    looped: bool,
) -> Seq<Seq<char>> {
    let sh = shown(s);
    let cells = shown_cells(s);
    seq![indent + "  vars:"@] + Seq::new(sh.len(), |k: int| var_line(s, sh[k], indent)) + seq![
        indent + "  heap:"@,
    ] + Seq::new(cells.len(), |k: int| heap_line(s, cells[k], indent, sym)) + seq![
        indent + "  summary: returns "@ + ret_text_of(s, ret, sym) + note_text(looped),
    ] + if s.ub.len() == 0 {
        seq![indent + "  UB: none"@]
    } else {
        Seq::new(s.ub.len(), |k: int| indent + "  UB: "@ + s.ub[k])
    }
}

fn push_line(lines: &mut Vec<String>, l: String)
    ensures
        views(final(lines)@) == views(old(lines)@).push(l@),
{
    lines.push(l);
    proof {
        assert(views(final(lines)@) =~= views(old(lines)@).push(l@));
    }
}

pub fn report_body(s: &State, ret: &Val, sym: Option<&Vec<String>>, indent: &str, looped: bool) -> (r: Vec<String>)
    requires
        s@.wf(),
    ensures
        views(r@) == body_text(s@, *ret, sym_view(sym), indent@, looped),
{
    let sh = shown_locals(s);
    let cells = cells_shown(s, &sh);
    let hl = s.heap.len();
    proof {
        lemma_shown_upto(s@, s@.vars.len() as int);
        lemma_cells_upto(s@, s@.heap.len() as int);
    }
    let ghost sv = s@;
    let ghost sy = sym_view(sym);
    let mut lines: Vec<String> = Vec::new();
    let mut t = text(indent);
    put(&mut t, "  vars:");
    push_line(&mut lines, t);
    let ghost base0 = views(lines@);
    let mut k: usize = 0;
    while k < sh.len()
        invariant
            k <= sh@.len(),
            sv == s@,
            s@.wf(),
            sh@ == shown(s@),
            forall|q: int| 0 <= q < sh@.len() ==> #[trigger] sh@[q] < s@.vars.len(),
            forall|q: int| 0 <= q < sh@.len() ==> (#[trigger] s@.vars[sh@[q] as int]) is Some,
            views(lines@) == base0 + Seq::new(k as nat, |q: int| var_line(sv, sh@[q], indent@)),
        decreases sh@.len() - k,
    {
        let i = sh[k];
        let o = match s.vars[i] {
            Some(o) => o,
            None => Ownership::Owned(0, crate::heap::Lifetime { id: 0, start: 0, end: 0 }),
        };
        proof {
            assert(s@.names[i as int] == s.names@[i as int]@);
        }
        let mut l = text(indent);
        put(&mut l, "    ");
        put(&mut l, pad6_text(&s.names[i]).as_str());
        put(&mut l, " ");
        put(&mut l, o.kind());
        put(&mut l, " @a");
        put(&mut l, fmt_usize(o.addr()).as_str());
        put(&mut l, "  ");
        put(&mut l, lt_str(&o).as_str());
        push_line(&mut lines, l);
        proof {
            assert(views(lines@) =~= base0 + Seq::new((k + 1) as nat, |q: int| var_line(sv, sh@[q], indent@)));
        }
        k = k + 1;
    }
    let mut t = text(indent);
    put(&mut t, "  heap:");
    push_line(&mut lines, t);
    let ghost base1 = views(lines@);
    let mut k: usize = 0;
    while k < cells.len()
        invariant
            k <= cells@.len(),
            sv == s@,
            sy == sym_view(sym),
            s@.wf(),
            cells@ == shown_cells(s@),
            forall|q: int| 0 <= q < cells@.len() ==> #[trigger] cells@[q] < s@.heap.len(),
            views(lines@) == base1 + Seq::new(k as nat, |q: int| heap_line(sv, cells@[q], indent@, sy)),
        decreases cells@.len() - k,
    {
        let a = cells[k];
        proof {
            assert(s@.heap[a as int] == s.heap@[a as int]@);
        }
        let mut l = text(indent);
        put(&mut l, "    a");
        put(&mut l, fmt_usize(a).as_str());
        put(&mut l, " = ");
        put(&mut l, cell_text(s, a, sym).as_str());
        put(&mut l, "  (");
        put(&mut l, s.heap[a].state.label().as_str());
        put(&mut l, ")");
        push_line(&mut lines, l);
        proof {
            assert(views(lines@) =~= base1 + Seq::new((k + 1) as nat, |q: int| heap_line(sv, cells@[q], indent@, sy)));
        }
        k = k + 1;
    }
    let mut t = text(indent);
    put(&mut t, "  summary: returns ");
    put(&mut t, ret_text(s, ret, sym).as_str());
    if looped {
        put(&mut t, "  (approximate: loops not modelled)");
    } else {
        put(&mut t, "");
    }
    push_line(&mut lines, t);
    let ghost base2 = views(lines@);
    if s.ub.len() == 0 {
        let mut t = text(indent);
        put(&mut t, "  UB: none");
        push_line(&mut lines, t);
    } else {
        let mut k: usize = 0;
        while k < s.ub.len()
            invariant
                k <= s@.ub.len(),
                sv == s@,
                views(lines@) == base2 + Seq::new(k as nat, |q: int| indent@ + "  UB: "@ + sv.ub[q]),
            decreases s@.ub.len() - k,
        {
            proof {
                assert(s@.ub[k as int] == s.ub@[k as int]@);
            }
            let mut t = text(indent);
            put(&mut t, "  UB: ");
            put(&mut t, s.ub[k].as_str());
            push_line(&mut lines, t);
            proof {
                assert(views(lines@) =~= base2 + Seq::new((k + 1) as nat, |q: int| indent@ + "  UB: "@ + sv.ub[q]));
            }
            k = k + 1;
        }
    }
    proof {
        assert(views(lines@) =~= body_text(s@, *ret, sym_view(sym), indent@, looped));
    }
    lines
}

// ---------------------------------------------------------------------------
// Graphviz nodes of one state.
// ---------------------------------------------------------------------------

/// `c<idx>_<a>` or `c<idx>_<path>_<a>` (and likewise with another prefix).
pub open spec fn node_id(prefix: Seq<char>, idx: usize, path: Option<usize>, x: usize) -> Seq<char> {
    match path {
        Some(p) => prefix + dec(idx as nat) + "_"@ + dec(p as nat) + "_"@ + dec(x as nat),
        None => prefix + dec(idx as nat) + "_"@ + dec(x as nat),
    }
}

fn node_name(prefix: &str, idx: usize, path: Option<usize>, x: usize) -> (r: String)
    ensures
        r@ == node_id(prefix@, idx, path, x),
{
    let mut r = text(prefix);
    put(&mut r, fmt_usize(idx).as_str());
    put(&mut r, "_");
    if let Some(p) = path {
        put(&mut r, fmt_usize(p).as_str());
        put(&mut r, "_");
    }
    put(&mut r, fmt_usize(x).as_str());
    r
}

pub open spec fn cell_node_line(s: StateV, idx: usize, path: Option<usize>, a: usize, sym: Option<Seq<Seq<char>>>) -> Seq<
    char,
> {
    "    "@ + node_id("c"@, idx, path, a) + " [label=\"a"@ + dec(a as nat) + " = "@ + escaped(cell_text_of(s, a, sym))
        + "\\n"@ + escaped(label_of(s.heap[a as int].state)) + "\"];"@
}

pub open spec fn var_node_lines(s: StateV, idx: usize, path: Option<usize>, i: usize) -> Seq<Seq<char>> {
    let o = s.vars[i as int].unwrap();
    seq![
        "    "@ + node_id("v"@, idx, path, i) + " [style=rounded, label=\""@ + escaped(s.names[i as int]) + "\\n"@
            + lt_text(o) + "\"];"@,
        "    "@ + node_id("v"@, idx, path, i) + " -> "@ + node_id("c"@, idx, path, o.spec_addr()) + " [label=\""@
            + o.kind_name() + "\""@ + (if o.is_reference() {
            ", style=dashed"@
        } else {
            ""@
        }) + "];"@,
    ]
}

pub open spec fn var_nodes_upto(s: StateV, idx: usize, path: Option<usize>, sh: Seq<usize>, k: int) -> Seq<Seq<char>>
    decreases k,
{
    if k <= 0 {
        seq![]
    } else {
        var_nodes_upto(s, idx, path, sh, k - 1) + var_node_lines(s, idx, path, sh[k - 1])
    }
}

/// One node per shown cell, then one node and one edge per shown local.
pub open spec fn nodes_text(s: StateV, idx: usize, path: Option<usize>, sym: Option<Seq<Seq<char>>>) -> Seq<Seq<char>> {
    let cells = shown_cells(s);
    Seq::new(cells.len(), |k: int| cell_node_line(s, idx, path, cells[k], sym)) + var_nodes_upto(
        s,
        idx,
        path,
        shown(s),
        shown(s).len() as int,
    )
}

pub fn dot_nodes(s: &State, idx: usize, path: Option<usize>, sym: Option<&Vec<String>>) -> (r: Vec<String>)
    requires
        s@.wf(),
    ensures
        views(r@) == nodes_text(s@, idx, path, sym_view(sym)),
{
    let sh = shown_locals(s);
    let cells = cells_shown(s, &sh);
    let hl = s.heap.len();
    proof {
        lemma_shown_upto(s@, s@.vars.len() as int);
        lemma_cells_upto(s@, s@.heap.len() as int);
    }
    let ghost sv = s@;
    let ghost sy = sym_view(sym);
    let mut lines: Vec<String> = Vec::new();
    let mut k: usize = 0;
    while k < cells.len()
        invariant
            k <= cells@.len(),
            sv == s@,
            sy == sym_view(sym),
            s@.wf(),
            cells@ == shown_cells(s@),
            forall|q: int| 0 <= q < cells@.len() ==> #[trigger] cells@[q] < s@.heap.len(),
            views(lines@) == Seq::new(k as nat, |q: int| cell_node_line(sv, idx, path, cells@[q], sy)),
        decreases cells@.len() - k,
    {
        let a = cells[k];
        proof {
            assert(s@.heap[a as int] == s.heap@[a as int]@);
        }
        let mut l = text("    ");
        put(&mut l, node_name("c", idx, path, a).as_str());
        put(&mut l, " [label=\"a");
        put(&mut l, fmt_usize(a).as_str());
        put(&mut l, " = ");
        put(&mut l, escape(cell_text(s, a, sym).as_str()).as_str());
        put(&mut l, "\\n");
        put(&mut l, escape(s.heap[a].state.label().as_str()).as_str());
        put(&mut l, "\"];");
        push_line(&mut lines, l);
        proof {
            assert(views(lines@) =~= Seq::new((k + 1) as nat, |q: int| cell_node_line(sv, idx, path, cells@[q], sy)));
        }
        k = k + 1;
    }
    let ghost base = views(lines@);
    let mut k: usize = 0;
    while k < sh.len()
        invariant
            k <= sh@.len(),
            sv == s@,
            s@.wf(),
            sh@ == shown(s@),
            forall|q: int| 0 <= q < sh@.len() ==> #[trigger] sh@[q] < s@.vars.len(),
            forall|q: int| 0 <= q < sh@.len() ==> (#[trigger] s@.vars[sh@[q] as int]) is Some,
            views(lines@) == base + var_nodes_upto(sv, idx, path, sh@, k as int),
        decreases sh@.len() - k,
    {
        let i = sh[k];
        let o = match s.vars[i] {
            Some(o) => o,
            None => Ownership::Owned(0, crate::heap::Lifetime { id: 0, start: 0, end: 0 }),
        };
        proof {
            assert(s@.names[i as int] == s.names@[i as int]@);
        }
        let vid = node_name("v", idx, path, i);
        let mut l1 = text("    ");
        put(&mut l1, vid.as_str());
        put(&mut l1, " [style=rounded, label=\"");
        put(&mut l1, escape(s.names[i].as_str()).as_str());
        put(&mut l1, "\\n");
        put(&mut l1, lt_str(&o).as_str());
        put(&mut l1, "\"];");
        let mut l2 = text("    ");
        put(&mut l2, vid.as_str());
        put(&mut l2, " -> ");
        put(&mut l2, node_name("c", idx, path, o.addr()).as_str());
        put(&mut l2, " [label=\"");
        put(&mut l2, o.kind());
        put(&mut l2, "\"");
        let dashed = match o {
            Ownership::SharedRef(..) | Ownership::MutRef(..) => true,
            _ => false,
        };
        if dashed {
            put(&mut l2, ", style=dashed");
        } else {
            put(&mut l2, "");
        }
        put(&mut l2, "];");
        let ghost before = views(lines@);
        push_line(&mut lines, l1);
        push_line(&mut lines, l2);
        proof {
            assert(views(lines@) =~= before + var_node_lines(sv, idx, path, i));
        }
        k = k + 1;
    }
    lines
}

pub open spec fn cluster_text(
    s: StateV,
    idx: usize,
    sig: Seq<char>,
    ret: Val,
    sym: Option<Seq<Seq<char>>>,
    looped: bool,
) -> Seq<Seq<char>> {
    seq![
        "  subgraph cluster_"@ + dec(idx as nat) + " {"@,
        "    h"@ + dec(idx as nat) + " [shape=box, style=bold, label=\""@ + escaped(sig) + "\\nreturns "@ + escaped(
            ret_text_of(s, ret, sym),
        ) + (if looped {
            "\\n(approximate: loops not modelled)"@
        } else {
            ""@
        }) + "\\n"@ + escaped(ub_text(s)) + "\"];"@,
    ] + nodes_text(s, idx, None, sym) + seq!["  }"@]
}

/// One function of a single path as a Graphviz cluster.
pub fn dot_cluster(s: &State, idx: usize, sig: &String, ret: &Val, sym: Option<&Vec<String>>, looped: bool) -> (r: Vec<
    String,
>)
    requires
        s@.wf(),
    ensures
        views(r@) == cluster_text(s@, idx, sig@, *ret, sym_view(sym), looped),
{
    let mut lines: Vec<String> = Vec::new();
    let mut l = text("  subgraph cluster_");
    put(&mut l, fmt_usize(idx).as_str());
    put(&mut l, " {");
    push_line(&mut lines, l);
    let mut h = text("    h");
    put(&mut h, fmt_usize(idx).as_str());
    put(&mut h, " [shape=box, style=bold, label=\"");
    put(&mut h, escape(sig.as_str()).as_str());
    put(&mut h, "\\nreturns ");
    put(&mut h, escape(ret_text(s, ret, sym).as_str()).as_str());
    if looped {
        put(&mut h, "\\n(approximate: loops not modelled)");
    } else {
        put(&mut h, "");
    }
    put(&mut h, "\\n");
    put(&mut h, escape(ub_label(s).as_str()).as_str());
    put(&mut h, "\"];");
    push_line(&mut lines, h);
    let nodes = dot_nodes(s, idx, None, sym);
    let ghost before = views(lines@);
    let mut k: usize = 0;
    while k < nodes.len()
        invariant
            k <= nodes@.len(),
            views(lines@) == before + views(nodes@).take(k as int),
        decreases nodes@.len() - k,
    {
        push_line(&mut lines, nodes[k].clone());
        proof {
            assert(views(nodes@).take(k + 1) =~= views(nodes@).take(k as int).push(nodes@[k as int]@));
        }
        k = k + 1;
    }
    proof {
        assert(views(nodes@).take(nodes@.len() as int) =~= views(nodes@));
    }
    push_line(&mut lines, text("  }"));
    proof {
        assert(views(lines@) =~= cluster_text(s@, idx, sig@, *ret, sym_view(sym), looped));
    }
    lines
}

// ---------------------------------------------------------------------------
// All paths of one function.
// ---------------------------------------------------------------------------

/// Every path's final state is well formed.
pub open spec fn paths_wf(ps: Seq<(Vec<Guard>, State, Val)>) -> bool {
    forall|k: int| 0 <= k < ps.len() ==> (#[trigger] ps[k]).1@.wf()
}

fn append_lines(lines: &mut Vec<String>, more: Vec<String>)
    ensures
        views(final(lines)@) == views(old(lines)@) + views(more@),
{
    let ghost before = views(lines@);
    let mut k: usize = 0;
    while k < more.len()
        invariant
            k <= more@.len(),
            views(lines@) == before + views(more@).take(k as int),
        decreases more@.len() - k,
    {
        push_line(lines, more[k].clone());
        proof {
            assert(views(more@).take(k + 1) =~= views(more@).take(k as int).push(more@[k as int]@));
        }
        k = k + 1;
    }
    proof {
        assert(views(more@).take(more@.len() as int) =~= views(more@));
    }
}

pub open spec fn nest(ps: Seq<PathV>, sym: Option<Seq<Seq<char>>>, k: int) -> Seq<char>
    decreases ps.len() - k,
{
    if k >= ps.len() - 1 {
        val_text(ps.last().1, ps.last().2)
    } else {
        "if "@ + guard_cond_of(ps[k].1, ps[k].0, sym) + " { "@ + val_text(ps[k].1, ps[k].2) + " } else { "@ + nest(
            ps,
            sym,
            k + 1,
        ) + " }"@
    }
}

/// The paths are the two arms of a `bool` switch, the `false` arm first.
pub open spec fn false_arm_first(ps: Seq<PathV>) -> bool {
    &&& ps.len() == 2
    &&& ps[0].0.len() > 0
    &&& ps[0].0.last().is_bool
    &&& ps[0].0.last().value == Some(0i128)
}

/// What a function returns over all its paths: the common value when they
/// agree; for the two arms of a `bool` switch, `if` on the condition with the
/// `true` arm first; else a chain of `if`s on each path's branches, the last
/// path as the final `else`.
pub open spec fn recombined(ps: Seq<PathV>, sym: Option<Seq<Seq<char>>>) -> Seq<char> {
    if forall|k: int| 0 <= k < ps.len() ==> #[trigger] val_text(ps[k].1, ps[k].2) == val_text(ps[0].1, ps[0].2) {
        val_text(ps[0].1, ps[0].2)
    } else if false_arm_first(ps) {
        "(if "@ + guard_cond_of(ps[1].1, ps[1].0, sym) + " { "@ + val_text(ps[1].1, ps[1].2) + " } else { "@
            + val_text(ps[0].1, ps[0].2) + " })"@
    } else {
        "("@ + nest(ps, sym, 0) + ")"@
    }
}

pub fn recombine(paths: &Vec<(Vec<Guard>, State, Val)>, sym: Option<&Vec<String>>) -> (r: String)
    requires
        paths@.len() >= 1,
    ensures
        r@ == recombined(path_views(paths@), sym_view(sym)),
{
    let ghost ps = path_views(paths@);
    let n = paths.len();
    let first = fmt_val(&paths[0].1, &paths[0].2);
    let mut all = true;
    let mut k: usize = 1;
    while k < n
        invariant
            1 <= k <= n,
            n == paths@.len(),
            ps == path_views(paths@),
            first@ == val_text(ps[0].1, ps[0].2),
            all == forall|q: int| 0 <= q < k ==> #[trigger] val_text(ps[q].1, ps[q].2) == val_text(ps[0].1, ps[0].2),
        decreases n - k,
    {
        let t = fmt_val(&paths[k].1, &paths[k].2);
        assert(ps[k as int] == (paths@[k as int].0@, paths@[k as int].1@, paths@[k as int].2));
        let ghost before = all;
        if !crate::sym::str_eq(t.as_str(), first.as_str()) {
            all = false;
        }
        proof {
            assert(t@ == val_text(ps[k as int].1, ps[k as int].2));
            if all {
                assert forall|q: int| 0 <= q < k + 1 implies #[trigger] val_text(ps[q].1, ps[q].2) == val_text(ps[0].1, ps[0].2) by {
                    if q < k {
                        assert(before);
                    }
                }
            } else if before {
                assert(val_text(ps[k as int].1, ps[k as int].2) != val_text(ps[0].1, ps[0].2));
            }
        }
        k = k + 1;
    }
    if all {
        return first;
    }
    let swap = n == 2 && paths[0].0.len() > 0 && {
        let g = paths[0].0[paths[0].0.len() - 1];
        g.is_bool && match g.value {
            Some(v) => v == 0,
            None => false,
        }
    };
    if swap {
        proof {
            assert(ps[0].0 == paths@[0].0@);
            assert(ps[1] == (paths@[1].0@, paths@[1].1@, paths@[1].2));
        }
        let mut r = text("(if ");
        put(&mut r, guard_cond(&paths[1].1, &paths[1].0, sym).as_str());
        put(&mut r, " { ");
        put(&mut r, fmt_val(&paths[1].1, &paths[1].2).as_str());
        put(&mut r, " } else { ");
        put(&mut r, first.as_str());
        put(&mut r, " })");
        return r;
    }
    let mut acc = fmt_val(&paths[n - 1].1, &paths[n - 1].2);
    let mut k: usize = n - 1;
    while k > 0
        invariant
            0 <= k <= n - 1,
            n == paths@.len(),
            ps == path_views(paths@),
            acc@ == nest(ps, sym_view(sym), k as int),
        decreases k,
    {
        k = k - 1;
        let mut t = text("if ");
        put(&mut t, guard_cond(&paths[k].1, &paths[k].0, sym).as_str());
        put(&mut t, " { ");
        put(&mut t, fmt_val(&paths[k].1, &paths[k].2).as_str());
        put(&mut t, " } else { ");
        put(&mut t, acc.as_str());
        put(&mut t, " }");
        acc = t;
    }
    let mut r = text("(");
    put(&mut r, acc.as_str());
    put(&mut r, ")");
    r
}

pub open spec fn paths_report(ps: Seq<PathV>, sym: Option<Seq<Seq<char>>>, k: int) -> Seq<Seq<char>>
    decreases k,
{
    if k <= 0 {
        seq![]
    } else {
        paths_report(ps, sym, k - 1) + seq!["  path ["@ + guard_cond_of(ps[k - 1].1, ps[k - 1].0, sym) + "]:"@]
            + body_text(ps[k - 1].1, ps[k - 1].2, None, "  "@, false)
    }
}

/// What a function returns over all its paths, as the summary line shows it:
/// the printed symbolic value of `_0` when there is one and it is known,
/// else the recombination of the paths' heap values.
pub open spec fn returns_text(ps: Seq<PathV>, sym: Option<Seq<Seq<char>>>) -> Seq<char> {
    match sym {
        Some(v) => if v.len() > 0 && v[0] != "?"@ {
            v[0]
        } else {
            recombined(ps, sym)
        },
        None => recombined(ps, sym),
    }
}

pub fn returns_line(paths: &Vec<(Vec<Guard>, State, Val)>, sym: Option<&Vec<String>>) -> (r: String)
    requires
        paths@.len() >= 1,
    ensures
        r@ == returns_text(path_views(paths@), sym_view(sym)),
{
    match sym {
        Some(v) => if v.len() > 0 && !crate::sym::str_eq(v[0].as_str(), "?") {
            v[0].clone()
        } else {
            recombine(paths, sym)
        },
        None => recombine(paths, sym),
    }
}

/// Lines set under a section heading.
pub open spec fn indented(ls: Seq<Seq<char>>) -> Seq<Seq<char>> {
    Seq::new(ls.len(), |k: int| "    "@ + ls[k])
}

/// The Rust source of a function and, beside it, its MIR listing.
pub open spec fn beside_text(f: FnEntry) -> Seq<Seq<char>> {
    seq!["  source:"@] + indented(views(f.source@)) + seq!["  mir:"@] + indented(listing(&f.body))
}

fn push_indented(lines: &mut Vec<String>, more: &Vec<String>)
    ensures
        views(final(lines)@) == views(old(lines)@) + indented(views(more@)),
{
    let ghost before = views(lines@);
    let mut k: usize = 0;
    while k < more.len()
        invariant
            k <= more@.len(),
            views(lines@) == before + indented(views(more@)).take(k as int),
        decreases more@.len() - k,
    {
        let mut l = text("    ");
        put(&mut l, more[k].as_str());
        push_line(lines, l);
        proof {
            assert(indented(views(more@)).take(k + 1) =~= indented(views(more@)).take(k as int).push(l@));
        }
        k = k + 1;
    }
    proof {
        assert(indented(views(more@)).take(more@.len() as int) =~= indented(views(more@)));
    }
}

/// The source and MIR sections of a function's report.
pub fn source_and_mir(f: &FnEntry) -> (r: Vec<String>)
    requires
        f.body.wf(),
    ensures
        views(r@) == beside_text(*f),
{
    let mut lines: Vec<String> = Vec::new();
    push_line(&mut lines, text("  source:"));
    push_indented(&mut lines, &f.source);
    push_line(&mut lines, text("  mir:"));
    let mir = body_lines(&f.body);
    push_indented(&mut lines, &mir);
    proof {
        assert(views(lines@) =~= beside_text(*f));
    }
    lines
}

/// The report of one function: its source and MIR, then its single path, or
/// each path with its branches and then what the function returns over all
/// of them.
pub open spec fn report_text(f: FnEntry, ps: Seq<PathV>, looped: bool, sym: Option<Seq<Seq<char>>>) -> Seq<
    Seq<char>,
> {
    seq![""@, "fn "@ + f.path@] + beside_text(f) + if ps.len() == 1 {
        body_text(ps[0].1, ps[0].2, sym, ""@, looped)
    } else {
        paths_report(ps, sym, ps.len() as int) + seq!["  summary: returns "@ + returns_text(ps, sym)]
    }
}

pub fn report_fn(f: &FnEntry, paths: &Vec<(Vec<Guard>, State, Val)>, looped: bool, sym: Option<&Vec<String>>) -> (r:
    Vec<String>)
    requires
        f.body.wf(),
        paths@.len() >= 1,
        paths_wf(paths@),
    ensures
        views(r@) == report_text(*f, path_views(paths@), looped, sym_view(sym)),
{
    let ghost ps = path_views(paths@);
    let mut lines: Vec<String> = Vec::new();
    push_line(&mut lines, text(""));
    let mut t = text("fn ");
    put(&mut t, f.path.as_str());
    push_line(&mut lines, t);
    let side = source_and_mir(f);
    append_lines(&mut lines, side);
    proof {
        reveal_strlit("");
        assert(paths@[0].1@.wf());
    }
    if paths.len() == 1 {
        let body = report_body(&paths[0].1, &paths[0].2, sym, "", looped);
        append_lines(&mut lines, body);
        return lines;
    }
    let ghost base = views(lines@);
    let mut k: usize = 0;
    while k < paths.len()
        invariant
            k <= paths@.len(),
            ps == path_views(paths@),
            paths_wf(paths@),
            views(lines@) == base + paths_report(ps, sym_view(sym), k as int),
        decreases paths@.len() - k,
    {
        let mut t = text("  path [");
        put(&mut t, guard_cond(&paths[k].1, &paths[k].0, sym).as_str());
        put(&mut t, "]:");
        push_line(&mut lines, t);
        proof {
            assert(paths@[k as int].1@.wf());
        }
        let body = report_body(&paths[k].1, &paths[k].2, None, "  ", false);
        append_lines(&mut lines, body);
        proof {
            assert(views(lines@) =~= base + paths_report(ps, sym_view(sym), k + 1));
        }
        k = k + 1;
    }
    let mut t = text("  summary: returns ");
    put(&mut t, returns_line(paths, sym).as_str());
    push_line(&mut lines, t);
    lines
}

pub open spec fn sig_text(path: Seq<char>, ps: Seq<PathV>) -> Seq<char> {
    path + "("@ + params_text(ps[0].1) + ")"@
}

pub open spec fn path_cluster(idx: usize, ps: Seq<PathV>, sym: Option<Seq<Seq<char>>>, p: int) -> Seq<Seq<char>> {
    let cond = guard_cond_of(ps[p].1, ps[p].0, sym);
    let shown_cond = if cond.len() == 0 {
        "default"@
    } else {
        cond
    };
    seq![
        "    subgraph cluster_"@ + dec(idx as nat) + "_"@ + dec(p as nat) + " {"@,
        "      label=\"["@ + escaped(shown_cond) + "]\\n"@ + escaped(ub_text(ps[p].1)) + "\";"@,
    ] + nodes_text(ps[p].1, idx, Some(p as usize), None) + seq!["    }"@]
}

pub open spec fn path_clusters(idx: usize, ps: Seq<PathV>, sym: Option<Seq<Seq<char>>>, k: int) -> Seq<Seq<char>>
    decreases k,
{
    if k <= 0 {
        seq![]
    } else {
        path_clusters(idx, ps, sym, k - 1) + path_cluster(idx, ps, sym, k - 1)
    }
}

/// One function as a Graphviz cluster: a single path's state, or one
/// sub-cluster per path with its branches and what the function returns over
/// all of them.
pub open spec fn dot_fn_text(idx: usize, path: Seq<char>, ps: Seq<PathV>, looped: bool, sym: Option<Seq<Seq<char>>>) -> Seq<
    Seq<char>,
> {
    let sig = sig_text(path, ps);
    if ps.len() == 1 {
        cluster_text(ps[0].1, idx, sig, ps[0].2, sym, looped)
    } else {
        seq![
            "  subgraph cluster_"@ + dec(idx as nat) + " {"@,
            "    label=\""@ + escaped(sig) + "\";"@,
            "    h"@ + dec(idx as nat) + " [shape=box, style=bold, label=\"returns "@ + escaped(returns_text(ps, sym))
                + "\"];"@,
        ] + path_clusters(idx, ps, sym, ps.len() as int) + seq!["  }"@]
    }
}

pub fn dot_fn(idx: usize, path: &String, paths: &Vec<(Vec<Guard>, State, Val)>, looped: bool, sym: Option<&Vec<String>>) -> (r:
    Vec<String>)
    requires
        paths@.len() >= 1,
        paths_wf(paths@),
    ensures
        views(r@) == dot_fn_text(idx, path@, path_views(paths@), looped, sym_view(sym)),
{
    let ghost ps = path_views(paths@);
    proof {
        assert(paths@[0].1@.wf());
    }
    let mut sig = path.clone();
    put(&mut sig, "(");
    put(&mut sig, params_str(&paths[0].1).as_str());
    put(&mut sig, ")");
    if paths.len() == 1 {
        return dot_cluster(&paths[0].1, idx, &sig, &paths[0].2, sym, looped);
    }
    let mut lines: Vec<String> = Vec::new();
    let mut t = text("  subgraph cluster_");
    put(&mut t, fmt_usize(idx).as_str());
    put(&mut t, " {");
    push_line(&mut lines, t);
    let mut t = text("    label=\"");
    put(&mut t, escape(sig.as_str()).as_str());
    put(&mut t, "\";");
    push_line(&mut lines, t);
    let mut t = text("    h");
    put(&mut t, fmt_usize(idx).as_str());
    put(&mut t, " [shape=box, style=bold, label=\"returns ");
    put(&mut t, escape(returns_line(paths, sym).as_str()).as_str());
    put(&mut t, "\"];");
    push_line(&mut lines, t);
    let ghost base = views(lines@);
    let mut p: usize = 0;
    while p < paths.len()
        invariant
            p <= paths@.len(),
            ps == path_views(paths@),
            paths_wf(paths@),
            views(lines@) == base + path_clusters(idx, ps, sym_view(sym), p as int),
        decreases paths@.len() - p,
    {
        proof {
            assert(paths@[p as int].1@.wf());
        }
        let cond = guard_cond(&paths[p].1, &paths[p].0, sym);
        let shown_cond = if cond.as_str().unicode_len() == 0 {
            text("default")
        } else {
            cond
        };
        let mut t = text("    subgraph cluster_");
        put(&mut t, fmt_usize(idx).as_str());
        put(&mut t, "_");
        put(&mut t, fmt_usize(p).as_str());
        put(&mut t, " {");
        push_line(&mut lines, t);
        let mut t = text("      label=\"[");
        put(&mut t, escape(shown_cond.as_str()).as_str());
        put(&mut t, "]\\n");
        put(&mut t, escape(ub_label(&paths[p].1).as_str()).as_str());
        put(&mut t, "\";");
        push_line(&mut lines, t);
        let nodes = dot_nodes(&paths[p].1, idx, Some(p), None);
        append_lines(&mut lines, nodes);
        push_line(&mut lines, text("    }"));
        proof {
            assert(views(lines@) =~= base + path_clusters(idx, ps, sym_view(sym), p + 1));
        }
        p = p + 1;
    }
    push_line(&mut lines, text("  }"));
    lines
}

// ---------------------------------------------------------------------------
// The whole crate.
// ---------------------------------------------------------------------------

pub open spec fn flatten(rs: Seq<Seq<Seq<char>>>) -> Seq<Seq<char>>
    decreases rs.len(),
{
    if rs.len() == 0 {
        seq![]
    } else {
        flatten(rs.drop_last()) + rs.last()
    }
}

/// `lines` is the report of function `k`: its paths under the heap
/// summaries, with the printed symbolic values of its locals.
pub open spec fn fn_report(
    funcs: Seq<FnEntry>,
    hsums: Seq<(u64, HeapSummary)>,
    ssums: Seq<(u64, FnSummary)>,
    k: int,
    lines: Seq<Seq<char>>,
) -> bool {
    exists|ps: Seq<PathV>, looped: bool, vals: Seq<String>|
        #![trigger analyzed(&funcs[k].body, hsums, ps, looped), values_of(funcs, ssums, k, vals)]
        analyzed(&funcs[k].body, hsums, ps, looped) && values_of(funcs, ssums, k, vals) && lines
            == report_text(funcs[k], ps, looped, Some(views(vals)))
}

/// The heap report of every function of the crate, in order.
pub fn analyze_crate(funcs: &Vec<FnEntry>) -> (r: Vec<String>)
    requires
        crate_summarizable(funcs@),
    ensures
        exists|hsums: Seq<(u64, HeapSummary)>, ssums: Seq<(u64, FnSummary)>, reports: Seq<Seq<Seq<char>>>|
            #![trigger summaries_follow(funcs@, crate_order(funcs@), hsums), crate_summaries(funcs@, crate_order(funcs@), ssums), flatten(reports)]
            summaries_follow(funcs@, crate_order(funcs@), hsums) && crate_summaries(funcs@, crate_order(funcs@), ssums) && reports.len()
                == funcs@.len() && (forall|k: int|
                0 <= k < funcs@.len() ==> #[trigger] fn_report(funcs@, hsums, ssums, k, reports[k]))
                && views(r@) == flatten(reports),
{
    let sym = crate::summary::local_values(funcs);
    let summaries = crate::heap::build_summaries(funcs);
    let ghost sorder = crate_order(funcs@);
    let ghost ssums = choose|sums: Seq<(u64, FnSummary)>|
        #[trigger] crate_summaries(funcs@, crate_order(funcs@), sums) && forall|i: int|
            0 <= i < funcs@.len() ==> (#[trigger] sym@[i]).0 == funcs@[i].def_id && values_of(
                funcs@,
                sums,
                i,
                sym@[i].1@,
            );
    let ghost horder = crate_order(funcs@);
    let mut lines: Vec<String> = Vec::new();
    let ghost mut reports: Seq<Seq<Seq<char>>> = seq![];
    let mut i: usize = 0;
    while i < funcs.len()
        invariant
            i <= funcs@.len(),
            crate_summarizable(funcs@),
            sym@.len() == funcs@.len(),
            crate_summaries(funcs@, sorder, ssums),
            forall|j: int|
                0 <= j < funcs@.len() ==> (#[trigger] sym@[j]).0 == funcs@[j].def_id && values_of(
                    funcs@,
                    ssums,
                    j,
                    sym@[j].1@,
                ),
            summaries_follow(funcs@, horder, summaries@),
            reports.len() == i,
            forall|k: int| 0 <= k < i ==> #[trigger] fn_report(funcs@, summaries@, ssums, k, reports[k]),
            views(lines@) == flatten(reports),
        decreases funcs@.len() - i,
    {
        assert(funcs@[i as int].body.wf());
        let (paths, looped) = crate::heap::analyze_paths(&funcs[i].body, &summaries);
        proof {
            assert forall|k: int| 0 <= k < paths@.len() implies (#[trigger] paths@[k]).1@.wf() by {
                assert(fits(paths@[k].1@, &funcs@[i as int].body));
            }
        }
        let rep = report_fn(&funcs[i], &paths, looped, Some(&sym[i].1));
        let ghost before = reports;
        proof {
            reports = reports.push(views(rep@));
            assert(values_of(funcs@, ssums, i as int, sym@[i as int].1@));
            assert(analyzed(&funcs@[i as int].body, summaries@, path_views(paths@), looped));
            assert(fn_report(funcs@, summaries@, ssums, i as int, reports[i as int]));
            assert(reports.drop_last() =~= before);
        }
        append_lines(&mut lines, rep);
        proof {
            assert forall|k: int| 0 <= k < i + 1 implies #[trigger] fn_report(funcs@, summaries@, ssums, k, reports[k]) by {
                if k < i {
                    assert(reports[k] == before[k]);
                }
            }
        }
        i = i + 1;
    }
    lines
}

pub open spec fn heap_edge_lines(funcs: Seq<FnEntry>, k: int) -> Seq<Seq<char>>
    decreases k,
{
    if k <= 0 {
        seq![]
    } else {
        let callees = crate::cfg::distinct_in(
            crate::cfg::named_callees(funcs[k - 1].body.basic_blocks@),
            crate::cfg::fn_ids(funcs),
        );
        heap_edge_lines(funcs, k - 1) + Seq::new(
            callees.len(),
            |q: int| {
                let j = crate::summary::index_in(funcs, callees[q]);
                "  h"@ + dec((k - 1) as nat) + " -> h"@ + dec(j as nat) + " [ltail=cluster_"@ + dec((k - 1) as nat)
                    + ", lhead=cluster_"@ + dec(j as nat) + "];"@
            },
        )
    }
}

/// `lines` is the Graphviz cluster of function `k`.
pub open spec fn fn_dot(
    funcs: Seq<FnEntry>,
    hsums: Seq<(u64, HeapSummary)>,
    ssums: Seq<(u64, FnSummary)>,
    k: int,
    lines: Seq<Seq<char>>,
) -> bool {
    exists|ps: Seq<PathV>, looped: bool, vals: Seq<String>|
        #![trigger analyzed(&funcs[k].body, hsums, ps, looped), values_of(funcs, ssums, k, vals)]
        analyzed(&funcs[k].body, hsums, ps, looped) && values_of(funcs, ssums, k, vals) && lines
            == dot_fn_text(k as usize, funcs[k].path@, ps, looped, Some(views(vals)))
}

/// The heaps of every function of the crate and its call graph, as the
/// lines of a Graphviz file.
pub fn emit_dot(funcs: &Vec<FnEntry>) -> (r: Vec<String>)
    requires
        crate_summarizable(funcs@),
    ensures
        exists|hsums: Seq<(u64, HeapSummary)>, ssums: Seq<(u64, FnSummary)>, clusters: Seq<Seq<Seq<char>>>|
            #![trigger summaries_follow(funcs@, crate_order(funcs@), hsums), crate_summaries(funcs@, crate_order(funcs@), ssums), flatten(clusters)]
            summaries_follow(funcs@, crate_order(funcs@), hsums) && crate_summaries(funcs@, crate_order(funcs@), ssums) && clusters.len()
                == funcs@.len() && (forall|k: int|
                0 <= k < funcs@.len() ==> #[trigger] fn_dot(funcs@, hsums, ssums, k, clusters[k]))
                && views(r@) == seq!["digraph heap {"@, "  compound=true;"@, "  node [shape=box, fontname=monospace];"@]
                + flatten(clusters) + heap_edge_lines(funcs@, funcs@.len() as int) + seq!["}"@],
{
    let in_crate = crate::cfg::crate_ids(funcs);
    let sym = crate::summary::local_values(funcs);
    let summaries = crate::heap::build_summaries(funcs);
    let ghost sorder = crate_order(funcs@);
    let ghost ssums = choose|sums: Seq<(u64, FnSummary)>|
        #[trigger] crate_summaries(funcs@, crate_order(funcs@), sums) && forall|i: int|
            0 <= i < funcs@.len() ==> (#[trigger] sym@[i]).0 == funcs@[i].def_id && values_of(
                funcs@,
                sums,
                i,
                sym@[i].1@,
            );
    let ghost horder = crate_order(funcs@);
    let mut lines: Vec<String> = Vec::new();
    push_line(&mut lines, text("digraph heap {"));
    push_line(&mut lines, text("  compound=true;"));
    push_line(&mut lines, text("  node [shape=box, fontname=monospace];"));
    let ghost head = views(lines@);
    let ghost mut clusters: Seq<Seq<Seq<char>>> = seq![];
    let mut i: usize = 0;
    while i < funcs.len()
        invariant
            i <= funcs@.len(),
            crate_summarizable(funcs@),
            sym@.len() == funcs@.len(),
            crate_summaries(funcs@, sorder, ssums),
            forall|j: int|
                0 <= j < funcs@.len() ==> (#[trigger] sym@[j]).0 == funcs@[j].def_id && values_of(
                    funcs@,
                    ssums,
                    j,
                    sym@[j].1@,
                ),
            summaries_follow(funcs@, horder, summaries@),
            clusters.len() == i,
            forall|k: int| 0 <= k < i ==> #[trigger] fn_dot(funcs@, summaries@, ssums, k, clusters[k]),
            views(lines@) == head + flatten(clusters),
        decreases funcs@.len() - i,
    {
        assert(funcs@[i as int].body.wf());
        let (paths, looped) = crate::heap::analyze_paths(&funcs[i].body, &summaries);
        proof {
            assert forall|k: int| 0 <= k < paths@.len() implies (#[trigger] paths@[k]).1@.wf() by {
                assert(fits(paths@[k].1@, &funcs@[i as int].body));
            }
        }
        let part = dot_fn(i, &funcs[i].path, &paths, looped, Some(&sym[i].1));
        let ghost before = clusters;
        proof {
            clusters = clusters.push(views(part@));
            assert(values_of(funcs@, ssums, i as int, sym@[i as int].1@));
            assert(analyzed(&funcs@[i as int].body, summaries@, path_views(paths@), looped));
            assert(fn_dot(funcs@, summaries@, ssums, i as int, clusters[i as int]));
            assert(clusters.drop_last() =~= before);
        }
        append_lines(&mut lines, part);
        proof {
            assert forall|k: int| 0 <= k < i + 1 implies #[trigger] fn_dot(funcs@, summaries@, ssums, k, clusters[k]) by {
                if k < i {
                    assert(clusters[k] == before[k]);
                }
            }
            assert(views(lines@) =~= head + flatten(clusters));
        }
        i = i + 1;
    }
    let ghost mid = views(lines@);
    let mut i: usize = 0;
    while i < funcs.len()
        invariant
            i <= funcs@.len(),
            crate::mir::funcs_wf(funcs@),
            in_crate@ == crate::cfg::fn_ids(funcs@),
            views(lines@) == mid + heap_edge_lines(funcs@, i as int),
        decreases funcs@.len() - i,
    {
        let callees = crate::cfg::direct_callees(&funcs[i].body, &in_crate);
        let ghost before = views(lines@);
        let ghost cl = Seq::new(
            callees@.len(),
            |q: int| {
                let j = crate::summary::index_in(funcs@, callees@[q]);
                "  h"@ + dec(i as nat) + " -> h"@ + dec(j as nat) + " [ltail=cluster_"@ + dec(i as nat)
                    + ", lhead=cluster_"@ + dec(j as nat) + "];"@
            },
        );
        let mut k: usize = 0;
        while k < callees.len()
            invariant
                k <= callees@.len(),
                i < funcs@.len(),
                crate::mir::funcs_wf(funcs@),
                in_crate@ == crate::cfg::fn_ids(funcs@),
                callees@ == crate::cfg::distinct_in(
                    crate::cfg::named_callees(funcs@[i as int].body.basic_blocks@),
                    crate::cfg::fn_ids(funcs@),
                ),
                cl.len() == callees@.len(),
                forall|q: int| 0 <= q < callees@.len() ==> #[trigger] cl[q] == {
                    let j = crate::summary::index_in(funcs@, callees@[q]);
                    "  h"@ + dec(i as nat) + " -> h"@ + dec(j as nat) + " [ltail=cluster_"@ + dec(i as nat)
                        + ", lhead=cluster_"@ + dec(j as nat) + "];"@
                },
                views(lines@) == before + cl.take(k as int),
            decreases callees@.len() - k,
        {
            proof {
                crate::heap::lemma_distinct_in_kept(
                    crate::cfg::named_callees(funcs@[i as int].body.basic_blocks@),
                    crate::cfg::fn_ids(funcs@),
                );
            }
            let j = crate::heap::index_of_fn(funcs, callees[k]);
            proof {
                let w = crate::summary::index_in(funcs@, callees@[k as int]);
                assert(funcs@[w].def_id == callees@[k as int]);
                assert(w == j);
            }
            let mut l = text("  h");
            put(&mut l, fmt_usize(i).as_str());
            put(&mut l, " -> h");
            put(&mut l, fmt_usize(j).as_str());
            put(&mut l, " [ltail=cluster_");
            put(&mut l, fmt_usize(i).as_str());
            put(&mut l, ", lhead=cluster_");
            put(&mut l, fmt_usize(j).as_str());
            put(&mut l, "];");
            push_line(&mut lines, l);
            proof {
                assert(cl.take(k + 1) =~= cl.take(k as int).push(cl[k as int]));
            }
            k = k + 1;
        }
        proof {
            assert(cl.take(cl.len() as int) =~= cl);
            assert(views(lines@) =~= mid + heap_edge_lines(funcs@, i + 1));
        }
        i = i + 1;
    }
    push_line(&mut lines, text("}"));
    lines
}

} // verus!
