//! Symbolic values: what a function computes, written as an expression over
//! its inputs.
use vstd::prelude::*;

use crate::mir::{BinOp, UnOp};
use crate::text::{dec_int, fmt_i128, join, joined, put, text, views};

verus! {

/// A symbolic value.
pub enum Sym {
    /// A named input of the function (a parameter, or `*p` behind a
    /// reference parameter `p`).
    Input(String),
    Const(i128),
    /// A binary operation, by its operator's symbol.
    Bin(String, Box<Sym>, Box<Sym>),
    /// A unary operation, by its operator's symbol.
    Un(String, Box<Sym>),
    /// `if c { t } else { e }`
    Cond(Box<Sym>, Box<Sym>, Box<Sym>),
    /// A reference to the slot `target` of the environment, named `name`.
    Ref { target: usize, name: String },
    /// A call of a function outside the crate, by name.
    Call(String, Vec<Sym>),
    Field(Box<Sym>, String),
    Aggregate(Vec<Sym>),
    Index(Box<Sym>, Box<Sym>),
    Unknown,
}

/// The mathematical value of a `Sym`.
pub enum SymV {
    Input(Seq<char>),
    Const(i128),
    Bin(Seq<char>, Box<SymV>, Box<SymV>),
    Un(Seq<char>, Box<SymV>),
    Cond(Box<SymV>, Box<SymV>, Box<SymV>),
    Ref { target: usize, name: Seq<char> },
    Call(Seq<char>, Seq<SymV>),
    Field(Box<SymV>, Seq<char>),
    Aggregate(Seq<SymV>),
    Index(Box<SymV>, Box<SymV>),
    Unknown,
}

pub open spec fn sym_view(s: Sym) -> SymV
    decreases s,
{
    match s {
        Sym::Input(n) => SymV::Input(n@),
        Sym::Const(v) => SymV::Const(v),
        Sym::Bin(op, l, r) => SymV::Bin(op@, Box::new(sym_view(*l)), Box::new(sym_view(*r))),
        Sym::Un(op, v) => SymV::Un(op@, Box::new(sym_view(*v))),
        Sym::Cond(c, t, e) => SymV::Cond(
            Box::new(sym_view(*c)),
            Box::new(sym_view(*t)),
            Box::new(sym_view(*e)),
        ),
        Sym::Ref { target, name } => SymV::Ref { target, name: name@ },
        Sym::Call(n, args) => SymV::Call(n@, syms_view(args@)),
        Sym::Field(b, n) => SymV::Field(Box::new(sym_view(*b)), n@),
        Sym::Aggregate(es) => SymV::Aggregate(syms_view(es@)),
        Sym::Index(b, i) => SymV::Index(Box::new(sym_view(*b)), Box::new(sym_view(*i))),
        Sym::Unknown => SymV::Unknown,
    }
}

pub open spec fn syms_view(v: Seq<Sym>) -> Seq<SymV>
    decreases v,
{
    if v.len() == 0 {
        seq![]
    } else {
        syms_view(v.subrange(0, v.len() - 1)).push(sym_view(v[v.len() - 1]))
    }
}

impl View for Sym {
    type V = SymV;

    open spec fn view(&self) -> SymV {
        sym_view(*self)
    }
}

/// The views of a sequence of symbolic values are the elementwise views.
pub proof fn lemma_syms_view(v: Seq<Sym>)
    ensures
        syms_view(v).len() == v.len(),
        forall|i: int| 0 <= i < v.len() ==> #[trigger] syms_view(v)[i] == sym_view(v[i]),
    decreases v.len(),
{
    if v.len() > 0 {
        lemma_syms_view(v.subrange(0, v.len() - 1));
    }
}

/// Two sequences with elementwise equal views have equal views.
pub proof fn lemma_syms_view_eq(a: Seq<Sym>, b: Seq<Sym>)
    requires
        a.len() == b.len(),
        forall|i: int| 0 <= i < a.len() ==> sym_view(#[trigger] a[i]) == sym_view(b[i]),
    ensures
        syms_view(a) == syms_view(b),
{
    lemma_syms_view(a);
    lemma_syms_view(b);
    assert(syms_view(a) =~= syms_view(b));
}

impl Sym {
    /// A deep copy.
    pub fn copy(&self) -> (r: Sym)
        ensures
            r@ == self@,
        decreases self,
    {
        match self {
            Sym::Input(n) => Sym::Input(n.clone()),
            Sym::Const(v) => Sym::Const(*v),
            Sym::Bin(op, l, r) => Sym::Bin(op.clone(), Box::new(l.copy()), Box::new(r.copy())),
            Sym::Un(op, v) => Sym::Un(op.clone(), Box::new(v.copy())),
            Sym::Cond(c, t, e) => Sym::Cond(Box::new(c.copy()), Box::new(t.copy()), Box::new(e.copy())),
            Sym::Ref { target, name } => Sym::Ref { target: *target, name: name.clone() },
            Sym::Call(n, args) => Sym::Call(n.clone(), copy_all(args)),
            Sym::Field(b, n) => Sym::Field(Box::new(b.copy()), n.clone()),
            Sym::Aggregate(es) => Sym::Aggregate(copy_all(es)),
            Sym::Index(b, i) => Sym::Index(Box::new(b.copy()), Box::new(i.copy())),
            Sym::Unknown => Sym::Unknown,
        }
    }

    /// Whether two symbolic values are the same expression.
    pub fn same(&self, other: &Sym) -> (r: bool)
        ensures
            r == (self@ == other@),
        decreases self,
    {
        match (self, other) {
            (Sym::Input(a), Sym::Input(b)) => *a == *b,
            (Sym::Const(a), Sym::Const(b)) => *a == *b,
            (Sym::Bin(o1, l1, r1), Sym::Bin(o2, l2, r2)) => *o1 == *o2 && l1.same(l2) && r1.same(r2),
            (Sym::Un(o1, v1), Sym::Un(o2, v2)) => *o1 == *o2 && v1.same(v2),
            (Sym::Cond(c1, t1, e1), Sym::Cond(c2, t2, e2)) => c1.same(c2) && t1.same(t2) && e1.same(e2),
            (Sym::Ref { target: t1, name: n1 }, Sym::Ref { target: t2, name: n2 }) => *t1 == *t2 && *n1 == *n2,
            (Sym::Call(n1, a1), Sym::Call(n2, a2)) => *n1 == *n2 && same_all(a1, a2),
            (Sym::Field(b1, n1), Sym::Field(b2, n2)) => b1.same(b2) && *n1 == *n2,
            (Sym::Aggregate(a1), Sym::Aggregate(a2)) => same_all(a1, a2),
            (Sym::Index(b1, i1), Sym::Index(b2, i2)) => b1.same(b2) && i1.same(i2),
            (Sym::Unknown, Sym::Unknown) => true,
            _ => false,
        }
    }
}

/// A deep copy of each element.
pub fn copy_all(v: &Vec<Sym>) -> (r: Vec<Sym>)
    ensures
        syms_view(r@) == syms_view(v@),
    decreases v,
{
    let mut out: Vec<Sym> = Vec::new();
    let mut i: usize = 0;
    while i < v.len()
        invariant
            i <= v@.len(),
            out@.len() == i,
            forall|k: int| 0 <= k < i ==> sym_view(#[trigger] out@[k]) == sym_view(v@[k]),
        decreases v@.len() - i,
    {
        out.push(v[i].copy());
        i = i + 1;
    }
    proof {
        lemma_syms_view_eq(out@, v@);
    }
    out
}

/// Whether two sequences of symbolic values are the same, element by element.
pub fn same_all(a: &Vec<Sym>, b: &Vec<Sym>) -> (r: bool)
    ensures
        r == (syms_view(a@) == syms_view(b@)),
    decreases a,
{
    proof {
        lemma_syms_view(a@);
        lemma_syms_view(b@);
    }
    if a.len() != b.len() {
        return false;
    }
    let mut i: usize = 0;
    while i < a.len()
        invariant
            i <= a@.len(),
            a@.len() == b@.len(),
            syms_view(a@).len() == a@.len(),
            syms_view(b@).len() == b@.len(),
            forall|k: int| 0 <= k < a@.len() ==> #[trigger] syms_view(a@)[k] == sym_view(a@[k]),
            forall|k: int| 0 <= k < b@.len() ==> #[trigger] syms_view(b@)[k] == sym_view(b@[k]),
            forall|k: int| 0 <= k < i ==> sym_view(#[trigger] a@[k]) == sym_view(b@[k]),
        decreases a@.len() - i,
    {
        if !a[i].same(&b[i]) {
            assert(syms_view(a@)[i as int] != syms_view(b@)[i as int]);
            return false;
        }
        i = i + 1;
    }
    proof {
        lemma_syms_view_eq(a@, b@);
    }
    true
}

// ---------------------------------------------------------------------------
// Text.
// ---------------------------------------------------------------------------

/// The text of a symbolic value, as the summaries print it.
pub open spec fn sym_text(s: SymV) -> Seq<char>
    decreases s,
{
    match s {
        SymV::Input(n) => n,
        SymV::Const(v) => dec_int(v as int),
        SymV::Bin(op, l, r) => seq!['('] + sym_text(*l) + seq![' '] + op + seq![' '] + sym_text(*r)
            + seq![')'],
        SymV::Un(op, v) => op + sym_text(*v),
        SymV::Cond(c, t, e) => seq!['(', 'i', 'f', ' '] + sym_text(*c) + seq![' ', '{', ' ']
            + sym_text(*t) + seq![' ', '}', ' ', 'e', 'l', 's', 'e', ' ', '{', ' '] + sym_text(*e)
            + seq![' ', '}', ')'],
        SymV::Ref { name, .. } => seq!['&'] + name,
        SymV::Call(n, args) => n + seq!['('] + joined(sym_texts(args), seq![',', ' ']) + seq![')'],
        SymV::Field(b, n) => sym_text(*b) + seq!['.'] + n,
        SymV::Aggregate(es) => seq!['('] + joined(sym_texts(es), seq![',', ' ']) + seq![')'],
        SymV::Index(b, i) => sym_text(*b) + seq!['['] + sym_text(*i) + seq![']'],
        SymV::Unknown => seq!['?'],
    }
}

pub open spec fn sym_texts(v: Seq<SymV>) -> Seq<Seq<char>>
    decreases v,
{
    if v.len() == 0 {
        seq![]
    } else {
        sym_texts(v.subrange(0, v.len() - 1)).push(sym_text(v[v.len() - 1]))
    }
}

proof fn lemma_sym_texts(v: Seq<SymV>)
    ensures
        sym_texts(v).len() == v.len(),
        forall|i: int| 0 <= i < v.len() ==> #[trigger] sym_texts(v)[i] == sym_text(v[i]),
    decreases v.len(),
{
    if v.len() > 0 {
        lemma_sym_texts(v.subrange(0, v.len() - 1));
    }
}

impl Sym {
    /// The text of the value.
    pub fn to_text(&self) -> (r: String)
        ensures
            r@ == sym_text(self@),
        decreases self,
    {
        proof {
            reveal_strlit("(");
            reveal_strlit(")");
            reveal_strlit(" ");
            reveal_strlit("(if ");
            reveal_strlit(" { ");
            reveal_strlit(" } else { ");
            reveal_strlit(" })");
            reveal_strlit("&");
            reveal_strlit(", ");
            reveal_strlit(".");
            reveal_strlit("[");
            reveal_strlit("]");
            reveal_strlit("?");
        }
        match self {
            Sym::Input(n) => n.clone(),
            Sym::Const(v) => fmt_i128(*v),
            Sym::Bin(op, l, r) => {
                let mut s = text("(");
                put(&mut s, l.to_text().as_str());
                put(&mut s, " ");
                put(&mut s, op.as_str());
                put(&mut s, " ");
                put(&mut s, r.to_text().as_str());
                put(&mut s, ")");
                s
            },
            Sym::Un(op, v) => {
                let mut s = op.clone();
                put(&mut s, v.to_text().as_str());
                s
            },
            Sym::Cond(c, t, e) => {
                let mut s = text("(if ");
                put(&mut s, c.to_text().as_str());
                put(&mut s, " { ");
                put(&mut s, t.to_text().as_str());
                put(&mut s, " } else { ");
                put(&mut s, e.to_text().as_str());
                put(&mut s, " })");
                s
            },
            Sym::Ref { name, .. } => {
                let mut s = text("&");
                put(&mut s, name.as_str());
                s
            },
            Sym::Call(n, args) => {
                let mut s = n.clone();
                put(&mut s, "(");
                put(&mut s, texts_joined(args).as_str());
                put(&mut s, ")");
                s
            },
            Sym::Field(b, n) => {
                let mut s = b.to_text();
                put(&mut s, ".");
                put(&mut s, n.as_str());
                s
            },
            Sym::Aggregate(es) => {
                let mut s = text("(");
                put(&mut s, texts_joined(es).as_str());
                put(&mut s, ")");
                s
            },
            Sym::Index(b, i) => {
                let mut s = b.to_text();
                put(&mut s, "[");
                put(&mut s, i.to_text().as_str());
                put(&mut s, "]");
                s
            },
            Sym::Unknown => text("?"),
        }
    }
}

/// The texts of `v`, joined by `", "`.
fn texts_joined(v: &Vec<Sym>) -> (r: String)
    ensures
        r@ == joined(sym_texts(syms_view(v@)), seq![',', ' ']),
    decreases v,
{
    let mut parts: Vec<String> = Vec::new();
    let mut i: usize = 0;
    while i < v.len()
        invariant
            i <= v@.len(),
            parts@.len() == i,
            forall|k: int| 0 <= k < i ==> (#[trigger] parts@[k])@ == sym_text(sym_view(v@[k])),
        decreases v@.len() - i,
    {
        parts.push(v[i].to_text());
        i = i + 1;
    }
    proof {
        lemma_syms_view(v@);
        lemma_sym_texts(syms_view(v@));
        assert(views(parts@) =~= sym_texts(syms_view(v@)));
        reveal_strlit(", ");
    }
    let r = join(&parts, ", ");
    proof {
        assert(", "@ =~= seq![',', ' ']);
    }
    r
}

// ---------------------------------------------------------------------------
// Operators and folding.
// ---------------------------------------------------------------------------

/// Whether two strings hold the same characters.
pub fn str_eq(a: &str, b: &str) -> (r: bool)
    ensures
        r == (a@ == b@),
{
    let n = a.unicode_len();
    if n != b.unicode_len() {
        return false;
    }
    let mut i: usize = 0;
    while i < n
        invariant
            i <= n,
            n == a@.len(),
            n == b@.len(),
            forall|k: int| 0 <= k < i ==> a@[k] == b@[k],
        decreases n - i,
    {
        if a.get_char(i) != b.get_char(i) {
            return false;
        }
        i = i + 1;
    }
    assert(a@ =~= b@);
    true
}

/// The symbol of a binary operator; operators without a symbol keep their
/// name.
pub open spec fn bin_op_text(op: BinOp) -> Seq<char> {
    match op {
        BinOp::Add | BinOp::AddUnchecked | BinOp::AddWithOverflow => seq!['+'],
        BinOp::Sub | BinOp::SubUnchecked | BinOp::SubWithOverflow => seq!['-'],
        BinOp::Mul | BinOp::MulUnchecked | BinOp::MulWithOverflow => seq!['*'],
        BinOp::Div => seq!['/'],
        BinOp::Rem => seq!['%'],
        BinOp::BitXor => seq!['^'],
        BinOp::BitAnd => seq!['&'],
        BinOp::BitOr => seq!['|'],
        BinOp::Shl | BinOp::ShlUnchecked => seq!['<', '<'],
        BinOp::Shr | BinOp::ShrUnchecked => seq!['>', '>'],
        BinOp::Eq => seq!['=', '='],
        BinOp::Ne => seq!['!', '='],
        BinOp::Lt => seq!['<'],
        BinOp::Le => seq!['<', '='],
        BinOp::Gt => seq!['>'],
        BinOp::Ge => seq!['>', '='],
        BinOp::Cmp => seq!['C', 'm', 'p'],
        BinOp::Offset => seq!['O', 'f', 'f', 's', 'e', 't'],
    }
}

/// The symbol of a binary operator.
pub fn bin_op(op: &BinOp) -> (r: String)
    ensures
        r@ == bin_op_text(*op),
{
    proof {
        reveal_strlit("+");
        reveal_strlit("-");
        reveal_strlit("*");
        reveal_strlit("/");
        reveal_strlit("%");
        reveal_strlit("^");
        reveal_strlit("&");
        reveal_strlit("|");
        reveal_strlit("<<");
        reveal_strlit(">>");
        reveal_strlit("==");
        reveal_strlit("!=");
        reveal_strlit("<");
        reveal_strlit("<=");
        reveal_strlit(">");
        reveal_strlit(">=");
        reveal_strlit("Cmp");
        reveal_strlit("Offset");
    }
    let s: &str = match op {
        BinOp::Add | BinOp::AddUnchecked | BinOp::AddWithOverflow => "+",
        BinOp::Sub | BinOp::SubUnchecked | BinOp::SubWithOverflow => "-",
        BinOp::Mul | BinOp::MulUnchecked | BinOp::MulWithOverflow => "*",
        BinOp::Div => "/",
        BinOp::Rem => "%",
        BinOp::BitXor => "^",
        BinOp::BitAnd => "&",
        BinOp::BitOr => "|",
        BinOp::Shl | BinOp::ShlUnchecked => "<<",
        BinOp::Shr | BinOp::ShrUnchecked => ">>",
        BinOp::Eq => "==",
        BinOp::Ne => "!=",
        BinOp::Lt => "<",
        BinOp::Le => "<=",
        BinOp::Gt => ">",
        BinOp::Ge => ">=",
        BinOp::Cmp => "Cmp",
        BinOp::Offset => "Offset",
    };
    text(s)
}

pub open spec fn un_op_text(op: UnOp) -> Seq<char> {
    match op {
        UnOp::Neg => seq!['-'],
        UnOp::Not => seq!['!'],
        UnOp::PtrMetadata => seq!['P', 't', 'r', 'M', 'e', 't', 'a', 'd', 'a', 't', 'a'],
    }
}

/// The symbol of a unary operator.
pub fn un_op(op: &UnOp) -> (r: String)
    ensures
        r@ == un_op_text(*op),
{
    proof {
        reveal_strlit("-");
        reveal_strlit("!");
        reveal_strlit("PtrMetadata");
    }
    match op {
        UnOp::Neg => text("-"),
        UnOp::Not => text("!"),
        UnOp::PtrMetadata => text("PtrMetadata"),
    }
}

pub open spec fn bool_int(b: bool) -> i128 {
    if b {
        1
    } else {
        0
    }
}

/// What an operator, named by its symbol, gives on two constants: the exact
/// result where it is defined and in range, `1` or `0` for comparisons, and
/// nothing for an operator it does not know.
pub open spec fn spec_fold(op: Seq<char>, a: i128, b: i128) -> Option<i128> {
    if op == seq!['+'] {
        a.checked_add(b)
    } else if op == seq!['-'] {
        a.checked_sub(b)
    } else if op == seq!['*'] {
        a.checked_mul(b)
    } else if op == seq!['/'] {
        a.checked_div(b)
    } else if op == seq!['%'] {
        a.checked_rem(b)
    } else if op == seq!['^'] {
        Some(a ^ b)
    } else if op == seq!['&'] {
        Some(a & b)
    } else if op == seq!['|'] {
        Some(a | b)
    } else if op == seq!['<', '<'] {
        if 0 <= b < 128 {
            Some(a.wrapping_shl(b as u32))
        } else {
            None
        }
    } else if op == seq!['>', '>'] {
        if 0 <= b < 128 {
            Some(a.wrapping_shr(b as u32))
        } else {
            None
        }
    } else if op == seq!['=', '='] {
        Some(bool_int(a == b))
    } else if op == seq!['!', '='] {
        Some(bool_int(a != b))
    } else if op == seq!['<'] {
        Some(bool_int(a < b))
    } else if op == seq!['<', '='] {
        Some(bool_int(a <= b))
    } else if op == seq!['>'] {
        Some(bool_int(a > b))
    } else if op == seq!['>', '='] {
        Some(bool_int(a >= b))
    } else {
        None
    }
}

/// Folds an operator, named by its symbol, over two constants.
pub fn fold_sym(op: &str, a: i128, b: i128) -> (r: Option<i128>)
    ensures
        r == spec_fold(op@, a, b),
{
    proof {
        reveal_strlit("+");
        reveal_strlit("-");
        reveal_strlit("*");
        reveal_strlit("/");
        reveal_strlit("%");
        reveal_strlit("^");
        reveal_strlit("&");
        reveal_strlit("|");
        reveal_strlit("<<");
        reveal_strlit(">>");
        reveal_strlit("==");
        reveal_strlit("!=");
        reveal_strlit("<");
        reveal_strlit("<=");
        reveal_strlit(">");
        reveal_strlit(">=");
        assert("+"@ =~= seq!['+']);
        assert("-"@ =~= seq!['-']);
        assert("*"@ =~= seq!['*']);
        assert("/"@ =~= seq!['/']);
        assert("%"@ =~= seq!['%']);
        assert("^"@ =~= seq!['^']);
        assert("&"@ =~= seq!['&']);
        assert("|"@ =~= seq!['|']);
        assert("<<"@ =~= seq!['<', '<']);
        assert(">>"@ =~= seq!['>', '>']);
        assert("=="@ =~= seq!['=', '=']);
        assert("!="@ =~= seq!['!', '=']);
        assert("<"@ =~= seq!['<']);
        assert("<="@ =~= seq!['<', '=']);
        assert(">"@ =~= seq!['>']);
        assert(">="@ =~= seq!['>', '=']);
    }
    if str_eq(op, "+") {
        a.checked_add(b)
    } else if str_eq(op, "-") {
        a.checked_sub(b)
    } else if str_eq(op, "*") {
        a.checked_mul(b)
    } else if str_eq(op, "/") {
        a.checked_div(b)
    } else if str_eq(op, "%") {
        a.checked_rem(b)
    } else if str_eq(op, "^") {
        Some(a ^ b)
    } else if str_eq(op, "&") {
        Some(a & b)
    } else if str_eq(op, "|") {
        Some(a | b)
    } else if str_eq(op, "<<") {
        if 0 <= b && b < 128 {
            Some(a.wrapping_shl(b as u32))
        } else {
            None
        }
    } else if str_eq(op, ">>") {
        if 0 <= b && b < 128 {
            Some(a.wrapping_shr(b as u32))
        } else {
            None
        }
    } else if str_eq(op, "==") {
        Some(if a == b { 1 } else { 0 })
    } else if str_eq(op, "!=") {
        Some(if a != b { 1 } else { 0 })
    } else if str_eq(op, "<") {
        Some(if a < b { 1 } else { 0 })
    } else if str_eq(op, "<=") {
        Some(if a <= b { 1 } else { 0 })
    } else if str_eq(op, ">") {
        Some(if a > b { 1 } else { 0 })
    } else if str_eq(op, ">=") {
        Some(if a >= b { 1 } else { 0 })
    } else {
        None
    }
}

/// `l op r`, folded to a constant when both sides are constants and the
/// operator gives a value on them.
pub open spec fn spec_mk_bin(op: Seq<char>, l: SymV, r: SymV) -> SymV {
    match (l, r) {
        (SymV::Const(a), SymV::Const(b)) => match spec_fold(op, a, b) {
            Some(v) => SymV::Const(v),
            None => SymV::Bin(op, Box::new(l), Box::new(r)),
        },
        _ => SymV::Bin(op, Box::new(l), Box::new(r)),
    }
}

/// `op v`, with the negation of a constant folded when it does not overflow.
pub open spec fn spec_mk_un(op: Seq<char>, v: SymV) -> SymV {
    match v {
        SymV::Const(a) => if op == seq!['-'] && a != i128::MIN {
            SymV::Const((-a) as i128)
        } else {
            SymV::Un(op, Box::new(v))
        },
        _ => SymV::Un(op, Box::new(v)),
    }
}

pub fn mk_bin_sym(op: String, l: Sym, r: Sym) -> (s: Sym)
    ensures
        s@ == spec_mk_bin(op@, l@, r@),
{
    if let (Sym::Const(a), Sym::Const(b)) = (&l, &r) {
        if let Some(v) = fold_sym(op.as_str(), *a, *b) {
            return Sym::Const(v);
        }
    }
    Sym::Bin(op, Box::new(l), Box::new(r))
}

pub fn mk_un_sym(op: String, v: Sym) -> (s: Sym)
    ensures
        s@ == spec_mk_un(op@, v@),
{
    proof {
        reveal_strlit("-");
        assert("-"@ =~= seq!['-']);
    }
    if str_eq(op.as_str(), "-") {
        if let Sym::Const(a) = &v {
            if *a != i128::MIN {
                return Sym::Const(-*a);
            }
        }
    }
    Sym::Un(op, Box::new(v))
}

pub fn mk_bin(op: &BinOp, l: Sym, r: Sym) -> (s: Sym)
    ensures
        s@ == spec_mk_bin(bin_op_text(*op), l@, r@),
{
    mk_bin_sym(bin_op(op), l, r)
}

pub fn mk_un(op: &UnOp, v: Sym) -> (s: Sym)
    ensures
        s@ == spec_mk_un(un_op_text(*op), v@),
{
    mk_un_sym(un_op(op), v)
}

/// `base[idx]`: the element itself when `base` is a tuple of known elements
/// and `idx` a constant in range.
pub open spec fn spec_index_into(base: SymV, idx: SymV) -> SymV {
    match (base, idx) {
        (SymV::Aggregate(es), SymV::Const(i)) if 0 <= i < es.len() => es[i as int],
        _ => match base {
            SymV::Unknown => SymV::Unknown,
            _ => SymV::Index(Box::new(base), Box::new(idx)),
        },
    }
}

pub fn index_into(base: Sym, idx: Sym) -> (s: Sym)
    ensures
        s@ == spec_index_into(base@, idx@),
{
    if let (Sym::Aggregate(es), Sym::Const(i)) = (&base, &idx) {
        proof {
            lemma_syms_view(es@);
        }
        if 0 <= *i && (*i as u128) < (es.len() as u128) {
            return es[*i as usize].copy();
        }
    }
    match base {
        Sym::Unknown => Sym::Unknown,
        base => Sym::Index(Box::new(base), Box::new(idx)),
    }
}

// ---------------------------------------------------------------------------
// Substitution.
// ---------------------------------------------------------------------------

/// The value bound to `name` among the first `k` parameter/argument pairs:
/// the last pair that names it.
pub open spec fn bound_at(params: Seq<Seq<char>>, actuals: Seq<SymV>, name: Seq<char>, k: int) -> Option<
    SymV,
>
    decreases k,
{
    if k <= 0 {
        None
    } else if params[k - 1] == name {
        Some(actuals[k - 1])
    } else {
        bound_at(params, actuals, name, k - 1)
    }
}

/// The value bound to `name` when the parameters are paired with the
/// arguments in order (the shorter list decides how many pairs there are; a
/// later pair overrides an earlier one with the same name).
pub open spec fn spec_bound(params: Seq<Seq<char>>, actuals: Seq<SymV>, name: Seq<char>) -> Option<SymV> {
    let n = if params.len() < actuals.len() {
        params.len()
    } else {
        actuals.len()
    };
    bound_at(params, actuals, name, n as int)
}

/// `s` with each input that names a parameter replaced by its argument;
/// references, which name slots of the callee, become unknown.
pub open spec fn spec_subst(s: SymV, params: Seq<Seq<char>>, actuals: Seq<SymV>) -> SymV
    decreases s,
{
    match s {
        SymV::Input(name) => match spec_bound(params, actuals, name) {
            Some(v) => v,
            None => s,
        },
        SymV::Ref { .. } => SymV::Unknown,
        SymV::Const(_) => s,
        SymV::Unknown => s,
        SymV::Bin(op, l, r) => SymV::Bin(
            op,
            Box::new(spec_subst(*l, params, actuals)),
            Box::new(spec_subst(*r, params, actuals)),
        ),
        SymV::Un(op, v) => SymV::Un(op, Box::new(spec_subst(*v, params, actuals))),
        SymV::Cond(c, t, e) => SymV::Cond(
            Box::new(spec_subst(*c, params, actuals)),
            Box::new(spec_subst(*t, params, actuals)),
            Box::new(spec_subst(*e, params, actuals)),
        ),
        SymV::Call(n, args) => SymV::Call(n, subst_all(args, params, actuals)),
        SymV::Field(b, n) => SymV::Field(Box::new(spec_subst(*b, params, actuals)), n),
        SymV::Aggregate(es) => SymV::Aggregate(subst_all(es, params, actuals)),
        SymV::Index(b, i) => SymV::Index(
            Box::new(spec_subst(*b, params, actuals)),
            Box::new(spec_subst(*i, params, actuals)),
        ),
    }
}

pub open spec fn subst_all(v: Seq<SymV>, params: Seq<Seq<char>>, actuals: Seq<SymV>) -> Seq<SymV>
    decreases v,
{
    if v.len() == 0 {
        seq![]
    } else {
        subst_all(v.subrange(0, v.len() - 1), params, actuals).push(
            spec_subst(v[v.len() - 1], params, actuals),
        )
    }
}

proof fn lemma_subst_all(v: Seq<SymV>, params: Seq<Seq<char>>, actuals: Seq<SymV>)
    ensures
        subst_all(v, params, actuals).len() == v.len(),
        forall|i: int|
            0 <= i < v.len() ==> #[trigger] subst_all(v, params, actuals)[i] == spec_subst(
                v[i],
                params,
                actuals,
            ),
    decreases v.len(),
{
    if v.len() > 0 {
        lemma_subst_all(v.subrange(0, v.len() - 1), params, actuals);
    }
}

/// The argument bound to `name`, if any.
fn bound(params: &Vec<String>, actuals: &Vec<Sym>, name: &String) -> (r: Option<Sym>)
    ensures
        match r {
            Some(v) => spec_bound(views(params@), syms_view(actuals@), name@) == Some(v@),
            None => spec_bound(views(params@), syms_view(actuals@), name@) is None,
        },
{
    proof {
        lemma_syms_view(actuals@);
    }
    let n = if params.len() < actuals.len() {
        params.len()
    } else {
        actuals.len()
    };
    let ghost ps = views(params@);
    let ghost acts = syms_view(actuals@);
    let mut k = n;
    while k > 0
        invariant
            k <= n,
            n <= params@.len(),
            n <= actuals@.len(),
            ps == views(params@),
            acts == syms_view(actuals@),
            acts.len() == actuals@.len(),
            forall|i: int| 0 <= i < actuals@.len() ==> #[trigger] acts[i] == sym_view(actuals@[i]),
            spec_bound(ps, acts, name@) == bound_at(ps, acts, name@, k as int),
        decreases k,
    {
        if params[k - 1] == *name {
            return Some(actuals[k - 1].copy());
        }
        k = k - 1;
    }
    None
}

/// `s` with each parameter replaced by the matching argument.
pub fn substitute(s: &Sym, params: &Vec<String>, actuals: &Vec<Sym>) -> (r: Sym)
    ensures
        r@ == spec_subst(s@, views(params@), syms_view(actuals@)),
    decreases s,
{
    match s {
        Sym::Input(name) => match bound(params, actuals, name) {
            Some(v) => v,
            None => s.copy(),
        },
        Sym::Ref { .. } => Sym::Unknown,
        Sym::Const(v) => Sym::Const(*v),
        Sym::Unknown => Sym::Unknown,
        Sym::Bin(op, l, r) => Sym::Bin(
            op.clone(),
            Box::new(substitute(l, params, actuals)),
            Box::new(substitute(r, params, actuals)),
        ),
        Sym::Un(op, v) => Sym::Un(op.clone(), Box::new(substitute(v, params, actuals))),
        Sym::Cond(c, t, e) => Sym::Cond(
            Box::new(substitute(c, params, actuals)),
            Box::new(substitute(t, params, actuals)),
            Box::new(substitute(e, params, actuals)),
        ),
        Sym::Call(n, args) => Sym::Call(n.clone(), substitute_all(args, params, actuals)),
        Sym::Field(b, n) => Sym::Field(Box::new(substitute(b, params, actuals)), n.clone()),
        Sym::Aggregate(es) => Sym::Aggregate(substitute_all(es, params, actuals)),
        Sym::Index(b, i) => Sym::Index(
            Box::new(substitute(b, params, actuals)),
            Box::new(substitute(i, params, actuals)),
        ),
    }
}

fn substitute_all(v: &Vec<Sym>, params: &Vec<String>, actuals: &Vec<Sym>) -> (r: Vec<Sym>)
    ensures
        syms_view(r@) == subst_all(syms_view(v@), views(params@), syms_view(actuals@)),
    decreases v,
{
    let mut out: Vec<Sym> = Vec::new();
    let mut i: usize = 0;
    while i < v.len()
        invariant
            i <= v@.len(),
            out@.len() == i,
            forall|k: int|
                0 <= k < i ==> sym_view(#[trigger] out@[k]) == spec_subst(
                    sym_view(v@[k]),
                    views(params@),
                    syms_view(actuals@),
                ),
        decreases v@.len() - i,
    {
        out.push(substitute(&v[i], params, actuals));
        i = i + 1;
    }
    proof {
        lemma_syms_view(v@);
        lemma_syms_view(out@);
        lemma_subst_all(syms_view(v@), views(params@), syms_view(actuals@));
        assert(syms_view(out@) =~= subst_all(syms_view(v@), views(params@), syms_view(actuals@)));
    }
    out
}

// ---------------------------------------------------------------------------
// Simplification.
// ---------------------------------------------------------------------------

/// `s` with constants folded bottom-up, conditionals on a constant resolved,
/// and constant indexes into known tuples taken.
pub open spec fn spec_simp(s: SymV) -> SymV
    decreases s,
{
    match s {
        SymV::Bin(op, l, r) => spec_mk_bin(op, spec_simp(*l), spec_simp(*r)),
        SymV::Un(op, v) => spec_mk_un(op, spec_simp(*v)),
        SymV::Cond(c, t, e) => match spec_simp(*c) {
            SymV::Const(k) => if k == 0 {
                spec_simp(*e)
            } else {
                spec_simp(*t)
            },
            c2 => SymV::Cond(Box::new(c2), Box::new(spec_simp(*t)), Box::new(spec_simp(*e))),
        },
        SymV::Index(b, i) => spec_index_into(spec_simp(*b), spec_simp(*i)),
        SymV::Field(b, n) => SymV::Field(Box::new(spec_simp(*b)), n),
        SymV::Aggregate(es) => SymV::Aggregate(simp_all(es)),
        SymV::Call(n, args) => SymV::Call(n, simp_all(args)),
        _ => s,
    }
}

pub open spec fn simp_all(v: Seq<SymV>) -> Seq<SymV>
    decreases v,
{
    if v.len() == 0 {
        seq![]
    } else {
        simp_all(v.subrange(0, v.len() - 1)).push(spec_simp(v[v.len() - 1]))
    }
}

proof fn lemma_simp_all(v: Seq<SymV>)
    ensures
        simp_all(v).len() == v.len(),
        forall|i: int| 0 <= i < v.len() ==> #[trigger] simp_all(v)[i] == spec_simp(v[i]),
    decreases v.len(),
{
    if v.len() > 0 {
        lemma_simp_all(v.subrange(0, v.len() - 1));
    }
}

/// Simplifying twice gives what simplifying once gives.
pub proof fn lemma_simplify_idempotent(s: SymV)
    ensures
        spec_simp(spec_simp(s)) == spec_simp(s),
    decreases s,
{
    match s {
        SymV::Bin(op, l, r) => {
            lemma_simplify_idempotent(*l);
            lemma_simplify_idempotent(*r);
        },
        SymV::Un(op, v) => {
            lemma_simplify_idempotent(*v);
        },
        SymV::Cond(c, t, e) => {
            lemma_simplify_idempotent(*c);
            lemma_simplify_idempotent(*t);
            lemma_simplify_idempotent(*e);
        },
        SymV::Index(b, i) => {
            lemma_simplify_idempotent(*b);
            lemma_simplify_idempotent(*i);
            let b2 = spec_simp(*b);
            if let SymV::Aggregate(es) = b2 {
                lemma_simp_all(es);
                assert(simp_all(es) == es);
            }
        },
        SymV::Field(b, n) => {
            lemma_simplify_idempotent(*b);
        },
        SymV::Aggregate(es) => {
            lemma_simp_all_idempotent(es);
        },
        SymV::Call(n, args) => {
            lemma_simp_all_idempotent(args);
        },
        _ => {},
    }
}

pub proof fn lemma_simp_all_idempotent(v: Seq<SymV>)
    ensures
        simp_all(simp_all(v)) == simp_all(v),
    decreases v,
{
    lemma_simp_all(v);
    lemma_simp_all(simp_all(v));
    assert forall|i: int| 0 <= i < v.len() implies #[trigger] simp_all(simp_all(v))[i] == simp_all(
        v,
    )[i] by {
        lemma_simplify_idempotent(v[i]);
    }
    assert(simp_all(simp_all(v)) =~= simp_all(v));
}

/// No step of simplification applies anywhere in `s`: no operator over
/// constants that folds, no negated constant that folds, no conditional on a
/// constant, and no index of a known aggregate by a constant in range.
pub open spec fn simplified(s: SymV) -> bool
    decreases s,
{
    match s {
        SymV::Bin(op, l, r) => simplified(*l) && simplified(*r) && !(match (*l, *r) {
            (SymV::Const(a), SymV::Const(b)) => spec_fold(op, a, b) is Some,
            _ => false,
        }),
        SymV::Un(op, v) => simplified(*v) && !(match *v {
            SymV::Const(a) => op == seq!['-'] && a != i128::MIN,
            _ => false,
        }),
        SymV::Cond(c, t, e) => !(*c is Const) && simplified(*c) && simplified(*t) && simplified(*e),
        SymV::Index(b, i) => simplified(*b) && simplified(*i) && !(*b is Unknown) && !(match (*b, *i) {
            (SymV::Aggregate(es), SymV::Const(k)) => 0 <= k < es.len(),
            _ => false,
        }),
        SymV::Field(b, _) => simplified(*b),
        SymV::Aggregate(es) => all_simplified(es),
        SymV::Call(_, args) => all_simplified(args),
        _ => true,
    }
}

pub open spec fn all_simplified(v: Seq<SymV>) -> bool
    decreases v,
{
    if v.len() == 0 {
        true
    } else {
        all_simplified(v.subrange(0, v.len() - 1)) && simplified(v[v.len() - 1])
    }
}

proof fn lemma_all_simplified_at(v: Seq<SymV>, k: int)
    requires
        all_simplified(v),
        0 <= k < v.len(),
    ensures
        simplified(v[k]),
    decreases v.len(),
{
    if k < v.len() - 1 {
        lemma_all_simplified_at(v.subrange(0, v.len() - 1), k);
    }
}

proof fn lemma_simp_all_simplified(v: Seq<SymV>)
    ensures
        all_simplified(simp_all(v)),
    decreases v,
{
    if v.len() > 0 {
        let p = v.subrange(0, v.len() - 1);
        lemma_simp_all_simplified(p);
        lemma_simplify_leaves_nothing_to_fold(v[v.len() - 1]);
        let w = simp_all(v);
        assert(w.subrange(0, w.len() - 1) =~= simp_all(p));
    }
}

/// Simplification leaves nothing to fold: no subterm of its result is an
/// operator over constants that folds, a negated constant that folds, a
/// conditional on a constant, or an index of a known aggregate by a constant
/// in range.
pub proof fn lemma_simplify_leaves_nothing_to_fold(s: SymV)
    ensures
        simplified(spec_simp(s)),
    decreases s,
{
    match s {
        SymV::Bin(op, l, r) => {
            lemma_simplify_leaves_nothing_to_fold(*l);
            lemma_simplify_leaves_nothing_to_fold(*r);
        },
        SymV::Un(op, v) => {
            lemma_simplify_leaves_nothing_to_fold(*v);
        },
        SymV::Cond(c, t, e) => {
            lemma_simplify_leaves_nothing_to_fold(*c);
            lemma_simplify_leaves_nothing_to_fold(*t);
            lemma_simplify_leaves_nothing_to_fold(*e);
        },
        SymV::Index(b, i) => {
            lemma_simplify_leaves_nothing_to_fold(*b);
            lemma_simplify_leaves_nothing_to_fold(*i);
            if let (SymV::Aggregate(es), SymV::Const(k)) = (spec_simp(*b), spec_simp(*i)) {
                if 0 <= k < es.len() {
                    lemma_all_simplified_at(es, k as int);
                }
            }
        },
        SymV::Field(b, n) => {
            lemma_simplify_leaves_nothing_to_fold(*b);
        },
        SymV::Aggregate(es) => {
            lemma_simp_all_simplified(es);
        },
        SymV::Call(n, args) => {
            lemma_simp_all_simplified(args);
        },
        _ => {},
    }
}

/// `s`, simplified.
pub fn simplify(s: &Sym) -> (r: Sym)
    ensures
        r@ == spec_simp(s@),
    decreases s,
{
    match s {
        Sym::Bin(op, l, r) => mk_bin_sym(op.clone(), simplify(l), simplify(r)),
        Sym::Un(op, v) => mk_un_sym(op.clone(), simplify(v)),
        Sym::Cond(c, t, e) => {
            let c2 = simplify(c);
            match c2 {
                Sym::Const(k) => if k == 0 {
                    simplify(e)
                } else {
                    simplify(t)
                },
                c2 => Sym::Cond(Box::new(c2), Box::new(simplify(t)), Box::new(simplify(e))),
            }
        },
        Sym::Index(b, i) => index_into(simplify(b), simplify(i)),
        Sym::Field(b, n) => Sym::Field(Box::new(simplify(b)), n.clone()),
        Sym::Aggregate(es) => Sym::Aggregate(simplify_all(es)),
        Sym::Call(n, args) => Sym::Call(n.clone(), simplify_all(args)),
        _ => s.copy(),
    }
}

fn simplify_all(v: &Vec<Sym>) -> (r: Vec<Sym>)
    ensures
        syms_view(r@) == simp_all(syms_view(v@)),
    decreases v,
{
    let mut out: Vec<Sym> = Vec::new();
    let mut i: usize = 0;
    while i < v.len()
        invariant
            i <= v@.len(),
            out@.len() == i,
            forall|k: int| 0 <= k < i ==> sym_view(#[trigger] out@[k]) == spec_simp(sym_view(v@[k])),
        decreases v@.len() - i,
    {
        out.push(simplify(&v[i]));
        i = i + 1;
    }
    proof {
        lemma_syms_view(v@);
        lemma_syms_view(out@);
        lemma_simp_all(syms_view(v@));
        assert(syms_view(out@) =~= simp_all(syms_view(v@)));
    }
    out
}

} // verus!
