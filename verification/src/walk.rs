//! Walking a body block by block, and the plain MIR listing built on it.
use vstd::prelude::*;

use crate::mir::{
    BinOp, Body, FnEntry, Operand, RvalueKind, Rvalue, Statement, StatementKind, Terminator, TerminatorKind,
    stmt_ok, term_ok,
};
use crate::text::{dec, fmt_usize, put, text, views};

verus! {

/// Something that is shown each block, statement and terminator of a body in
/// turn. `Model` is what it has gathered so far, and the `on_` functions say
/// what each visit does to it.
pub trait Visitor {
    type Model;

    spec fn model(&self) -> Self::Model;

    /// The visitor can run over `body`.
    spec fn fits(&self, body: &Body) -> bool;

    spec fn on_block(m: Self::Model, body: &Body, bb: int) -> Self::Model;

    spec fn on_statement(m: Self::Model, body: &Body, s: Statement) -> Self::Model;

    spec fn on_terminator(m: Self::Model, body: &Body, t: Terminator) -> Self::Model;

    fn block(&mut self, body: &Body, bb: usize)
        requires
            old(self).fits(body),
            body.wf(),
            bb < body.n_blocks(),
        ensures
            final(self).fits(body),
            final(self).model() == Self::on_block(old(self).model(), body, bb as int),
    ;

    fn statement(&mut self, body: &Body, stmt: &Statement)
        requires
            old(self).fits(body),
            body.wf(),
            stmt_ok(*stmt, body.n_locals()),
        ensures
            final(self).fits(body),
            final(self).model() == Self::on_statement(old(self).model(), body, *stmt),
    ;

    fn terminator(&mut self, body: &Body, term: &Terminator)
        requires
            old(self).fits(body),
            body.wf(),
            term_ok(*term, body.n_locals(), body.n_blocks()),
        ensures
            final(self).fits(body),
            final(self).model() == Self::on_terminator(old(self).model(), body, *term),
    ;
}

pub open spec fn walk_stmts<V: Visitor>(m: V::Model, body: &Body, ss: Seq<Statement>) -> V::Model
    decreases ss.len(),
{
    if ss.len() == 0 {
        m
    } else {
        V::on_statement(walk_stmts::<V>(m, body, ss.drop_last()), body, ss.last())
    }
}

/// A visit of block `bb`: the block, its statements in order, its
/// terminator.
pub open spec fn walk_block<V: Visitor>(m: V::Model, body: &Body, bb: int) -> V::Model {
    let data = body.basic_blocks@[bb];
    V::on_terminator(walk_stmts::<V>(V::on_block(m, body, bb), body, data.statements@), body, data.terminator)
}

/// The visits of the first `k` blocks, in block order.
pub open spec fn walk_blocks<V: Visitor>(m: V::Model, body: &Body, k: int) -> V::Model
    decreases k,
{
    if k <= 0 {
        m
    } else {
        walk_block::<V>(walk_blocks::<V>(m, body, k - 1), body, k - 1)
    }
}

/// Shows `v` every block of `body` in order, and within each block its
/// statements and then its terminator.
pub fn walk<V: Visitor>(body: &Body, v: &mut V)
    requires
        body.wf(),
        old(v).fits(body),
    ensures
        final(v).fits(body),
        final(v).model() == walk_blocks::<V>(old(v).model(), body, body.n_blocks() as int),
{
    let ghost m0 = v.model();
    let mut bb: usize = 0;
    while bb < body.basic_blocks.len()
        invariant
            bb <= body.n_blocks(),
            body.wf(),
            v.fits(body),
            v.model() == walk_blocks::<V>(m0, body, bb as int),
        decreases body.n_blocks() - bb,
    {
        let data = &body.basic_blocks[bb];
        assert(crate::mir::block_ok(*data, body.n_locals(), body.n_blocks()));
        v.block(body, bb);
        let ghost m1 = v.model();
        let mut k: usize = 0;
        while k < data.statements.len()
            invariant
                k <= data.statements@.len(),
                body.wf(),
                *data == body.basic_blocks@[bb as int],
                crate::mir::block_ok(*data, body.n_locals(), body.n_blocks()),
                v.fits(body),
                v.model() == walk_stmts::<V>(m1, body, data.statements@.take(k as int)),
            decreases data.statements@.len() - k,
        {
            proof {
                assert(data.statements@.take(k + 1).drop_last() =~= data.statements@.take(k as int));
            }
            v.statement(body, &data.statements[k]);
            k = k + 1;
        }
        proof {
            assert(data.statements@.take(data.statements@.len() as int) =~= data.statements@);
        }
        v.terminator(body, &data.terminator);
        bb = bb + 1;
    }
}

// ---------------------------------------------------------------------------
// The MIR listing.
// ---------------------------------------------------------------------------

/// The name of a binary operator, as the compiler's `Debug` prints it.
pub open spec fn bin_op_name(op: BinOp) -> Seq<char> {
    match op {
        BinOp::Add => "Add"@,
        BinOp::AddUnchecked => "AddUnchecked"@,
        BinOp::AddWithOverflow => "AddWithOverflow"@,
        BinOp::Sub => "Sub"@,
        BinOp::SubUnchecked => "SubUnchecked"@,
        BinOp::SubWithOverflow => "SubWithOverflow"@,
        BinOp::Mul => "Mul"@,
        BinOp::MulUnchecked => "MulUnchecked"@,
        BinOp::MulWithOverflow => "MulWithOverflow"@,
        BinOp::Div => "Div"@,
        BinOp::Rem => "Rem"@,
        BinOp::BitXor => "BitXor"@,
        BinOp::BitAnd => "BitAnd"@,
        BinOp::BitOr => "BitOr"@,
        BinOp::Shl => "Shl"@,
        BinOp::ShlUnchecked => "ShlUnchecked"@,
        BinOp::Shr => "Shr"@,
        BinOp::ShrUnchecked => "ShrUnchecked"@,
        BinOp::Eq => "Eq"@,
        BinOp::Lt => "Lt"@,
        BinOp::Le => "Le"@,
        BinOp::Ne => "Ne"@,
        BinOp::Ge => "Ge"@,
        BinOp::Gt => "Gt"@,
        BinOp::Cmp => "Cmp"@,
        BinOp::Offset => "Offset"@,
    }
}

/// Each operator is listed by the name of its own variant, as the
/// compiler's `Debug` output prints it.
pub proof fn lemma_operator_names()
    ensures
        bin_op_name(BinOp::Add) == "Add"@,
        bin_op_name(BinOp::AddUnchecked) == "AddUnchecked"@,
        bin_op_name(BinOp::AddWithOverflow) == "AddWithOverflow"@,
        bin_op_name(BinOp::Sub) == "Sub"@,
        bin_op_name(BinOp::SubUnchecked) == "SubUnchecked"@,
        bin_op_name(BinOp::SubWithOverflow) == "SubWithOverflow"@,
        bin_op_name(BinOp::Mul) == "Mul"@,
        bin_op_name(BinOp::MulUnchecked) == "MulUnchecked"@,
        bin_op_name(BinOp::MulWithOverflow) == "MulWithOverflow"@,
        bin_op_name(BinOp::Div) == "Div"@,
        bin_op_name(BinOp::Rem) == "Rem"@,
        bin_op_name(BinOp::BitXor) == "BitXor"@,
        bin_op_name(BinOp::BitAnd) == "BitAnd"@,
        bin_op_name(BinOp::BitOr) == "BitOr"@,
        bin_op_name(BinOp::Shl) == "Shl"@,
        bin_op_name(BinOp::ShlUnchecked) == "ShlUnchecked"@,
        bin_op_name(BinOp::Shr) == "Shr"@,
        bin_op_name(BinOp::ShrUnchecked) == "ShrUnchecked"@,
        bin_op_name(BinOp::Eq) == "Eq"@,
        bin_op_name(BinOp::Lt) == "Lt"@,
        bin_op_name(BinOp::Le) == "Le"@,
        bin_op_name(BinOp::Ne) == "Ne"@,
        bin_op_name(BinOp::Ge) == "Ge"@,
        bin_op_name(BinOp::Gt) == "Gt"@,
        bin_op_name(BinOp::Cmp) == "Cmp"@,
        bin_op_name(BinOp::Offset) == "Offset"@,
{
}

fn bin_op_str(op: &BinOp) -> (r: &'static str)
    ensures
        r@ == bin_op_name(*op),
{
    match op {
        BinOp::Add => "Add",
        BinOp::AddUnchecked => "AddUnchecked",
        BinOp::AddWithOverflow => "AddWithOverflow",
        BinOp::Sub => "Sub",
        BinOp::SubUnchecked => "SubUnchecked",
        BinOp::SubWithOverflow => "SubWithOverflow",
        BinOp::Mul => "Mul",
        BinOp::MulUnchecked => "MulUnchecked",
        BinOp::MulWithOverflow => "MulWithOverflow",
        BinOp::Div => "Div",
        BinOp::Rem => "Rem",
        BinOp::BitXor => "BitXor",
        BinOp::BitAnd => "BitAnd",
        BinOp::BitOr => "BitOr",
        BinOp::Shl => "Shl",
        BinOp::ShlUnchecked => "ShlUnchecked",
        BinOp::Shr => "Shr",
        BinOp::ShrUnchecked => "ShrUnchecked",
        BinOp::Eq => "Eq",
        BinOp::Lt => "Lt",
        BinOp::Le => "Le",
        BinOp::Ne => "Ne",
        BinOp::Ge => "Ge",
        BinOp::Gt => "Gt",
        BinOp::Cmp => "Cmp",
        BinOp::Offset => "Offset",
    }
}

pub open spec fn operand_lines(op: Operand) -> Seq<Seq<char>> {
    match op {
        Operand::Copy(p) => seq!["    copy "@ + p.text@],
        Operand::Move(p) => seq!["    move "@ + p.text@],
        Operand::Constant(c) => seq!["    const "@ + c.text@],
        Operand::Other(_) => seq![],
    }
}

pub open spec fn rvalue_lines(rv: Rvalue) -> Seq<Seq<char>> {
    match rv.kind {
        RvalueKind::Use(op) => operand_lines(op),
        RvalueKind::Ref { place, .. } => seq!["    &"@ + place.text@],
        RvalueKind::BinaryOp(op, a, b) => seq!["    "@ + bin_op_name(op)] + operand_lines(a) + operand_lines(b),
        _ => seq!["    "@ + rv.text@],
    }
}

pub open spec fn stmt_lines(s: Statement) -> Seq<Seq<char>> {
    match s.kind {
        StatementKind::Assign(place, rv) => seq!["  "@ + place.text@ + " ="@] + rvalue_lines(rv),
        StatementKind::StorageLive(l) => seq!["  StorageLive(_"@ + dec(l as nat) + ")"@],
        StatementKind::StorageDead(l) => seq!["  StorageDead(_"@ + dec(l as nat) + ")"@],
        StatementKind::Other => seq!["  "@ + s.text@],
    }
}

pub open spec fn term_line(t: Terminator) -> Seq<char> {
    match t.kind {
        TerminatorKind::Goto { target } => "  goto -> bb"@ + dec(target as nat),
        TerminatorKind::SwitchInt { discr_text, .. } => "  switchInt("@ + discr_text@ + ")"@,
        TerminatorKind::Call { func_text, .. } => "  call "@ + func_text@,
        TerminatorKind::Drop { place } => "  drop("@ + place.text@ + ")"@,
        TerminatorKind::Return => "  return"@,
        TerminatorKind::Other => "  "@ + t.text@,
    }
}

/// Gathers the lines of a MIR listing.
pub struct Printer {
    pub out: Vec<String>,
}

impl Printer {
    fn line(&mut self, l: String)
        ensures
            views(final(self).out@) == views(old(self).out@).push(l@),
    {
        self.out.push(l);
        proof {
            assert(views(final(self).out@) =~= views(old(self).out@).push(l@));
        }
    }

    fn operand(&mut self, op: &Operand)
        ensures
            views(final(self).out@) == views(old(self).out@) + operand_lines(*op),
    {
        match op {
            Operand::Copy(p) => {
                let mut l = text("    copy ");
                put(&mut l, p.text.as_str());
                self.line(l);
            },
            Operand::Move(p) => {
                let mut l = text("    move ");
                put(&mut l, p.text.as_str());
                self.line(l);
            },
            Operand::Constant(c) => {
                let mut l = text("    const ");
                put(&mut l, c.text.as_str());
                self.line(l);
            },
            Operand::Other(_) => {
                assert(views(self.out@) =~= views(old(self).out@) + operand_lines(*op));
            },
        }
    }

    fn rvalue(&mut self, rv: &Rvalue)
        ensures
            views(final(self).out@) == views(old(self).out@) + rvalue_lines(*rv),
    {
        match &rv.kind {
            RvalueKind::Use(op) => self.operand(op),
            RvalueKind::Ref { place, .. } => {
                let mut l = text("    &");
                put(&mut l, place.text.as_str());
                self.line(l);
            },
            RvalueKind::BinaryOp(op, a, b) => {
                let mut l = text("    ");
                put(&mut l, bin_op_str(op));
                self.line(l);
                let ghost mid = views(self.out@);
                self.operand(a);
                self.operand(b);
                assert(views(self.out@) =~= views(old(self).out@) + rvalue_lines(*rv));
            },
            _ => {
                let mut l = text("    ");
                put(&mut l, rv.text.as_str());
                self.line(l);
            },
        }
    }
}

impl Visitor for Printer {
    type Model = Seq<Seq<char>>;

    open spec fn model(&self) -> Seq<Seq<char>> {
        views(self.out@)
    }

    open spec fn fits(&self, body: &Body) -> bool {
        true
    }

    open spec fn on_block(m: Seq<Seq<char>>, body: &Body, bb: int) -> Seq<Seq<char>> {
        m.push("bb"@ + dec(bb as nat) + ":"@)
    }

    open spec fn on_statement(m: Seq<Seq<char>>, body: &Body, s: Statement) -> Seq<Seq<char>> {
        m + stmt_lines(s)
    }

    open spec fn on_terminator(m: Seq<Seq<char>>, body: &Body, t: Terminator) -> Seq<Seq<char>> {
        m.push(term_line(t))
    }

    fn block(&mut self, body: &Body, bb: usize) {
        let mut l = text("bb");
        put(&mut l, fmt_usize(bb).as_str());
        put(&mut l, ":");
        self.line(l);
    }

    fn statement(&mut self, body: &Body, stmt: &Statement) {
        match &stmt.kind {
            StatementKind::Assign(place, rv) => {
                let mut l = text("  ");
                put(&mut l, place.text.as_str());
                put(&mut l, " =");
                self.line(l);
                self.rvalue(rv);
                assert(views(self.out@) =~= views(old(self).out@) + stmt_lines(*stmt));
            },
            StatementKind::StorageLive(x) => {
                let mut l = text("  StorageLive(_");
                put(&mut l, fmt_usize(*x).as_str());
                put(&mut l, ")");
                self.line(l);
                assert(views(self.out@) =~= views(old(self).out@) + stmt_lines(*stmt));
            },
            StatementKind::StorageDead(x) => {
                let mut l = text("  StorageDead(_");
                put(&mut l, fmt_usize(*x).as_str());
                put(&mut l, ")");
                self.line(l);
                assert(views(self.out@) =~= views(old(self).out@) + stmt_lines(*stmt));
            },
            StatementKind::Other => {
                let mut l = text("  ");
                put(&mut l, stmt.text.as_str());
                self.line(l);
                assert(views(self.out@) =~= views(old(self).out@) + stmt_lines(*stmt));
            },
        }
    }

    fn terminator(&mut self, body: &Body, term: &Terminator) {
        let l = match &term.kind {
            TerminatorKind::Goto { target } => {
                let mut l = text("  goto -> bb");
                put(&mut l, fmt_usize(*target).as_str());
                l
            },
            TerminatorKind::SwitchInt { discr_text, .. } => {
                let mut l = text("  switchInt(");
                put(&mut l, discr_text.as_str());
                put(&mut l, ")");
                l
            },
            TerminatorKind::Call { func_text, .. } => {
                let mut l = text("  call ");
                put(&mut l, func_text.as_str());
                l
            },
            TerminatorKind::Drop { place } => {
                let mut l = text("  drop(");
                put(&mut l, place.text.as_str());
                put(&mut l, ")");
                l
            },
            TerminatorKind::Return => text("  return"),
            TerminatorKind::Other => {
                let mut l = text("  ");
                put(&mut l, term.text.as_str());
                l
            },
        };
        self.line(l);
    }
}

/// The declaration line of local `i`: `let [mut ]_i: <type>`.
pub open spec fn decl_line(body: &Body, i: int) -> Seq<char> {
    let d = body.local_decls@[i];
    "let "@ + (if d.mutable {
        "mut "@
    } else {
        ""@
    }) + "_"@ + dec(i as nat) + ": "@ + d.ty_text@
}

/// The MIR listing of a body: one declaration line per local, then each
/// block with its statements and terminator.
pub open spec fn listing(body: &Body) -> Seq<Seq<char>> {
    walk_blocks::<Printer>(
        Seq::new(body.n_locals(), |i: int| decl_line(body, i)),
        body,
        body.n_blocks() as int,
    )
}

pub fn body_lines(body: &Body) -> (r: Vec<String>)
    requires
        body.wf(),
    ensures
        views(r@) == listing(body),
{
    let mut p = Printer { out: Vec::new() };
    let mut i: usize = 0;
    while i < body.local_decls.len()
        invariant
            i <= body.n_locals(),
            views(p.out@) == Seq::new(i as nat, |q: int| decl_line(body, q)),
        decreases body.n_locals() - i,
    {
        let d = &body.local_decls[i];
        let mut l = text("let ");
        if d.mutable {
            put(&mut l, "mut ");
        } else {
            put(&mut l, "");
        }
        put(&mut l, "_");
        put(&mut l, fmt_usize(i).as_str());
        put(&mut l, ": ");
        put(&mut l, d.ty_text.as_str());
        p.line(l);
        proof {
            assert(views(p.out@) =~= Seq::new((i + 1) as nat, |q: int| decl_line(body, q)));
        }
        i = i + 1;
    }
    walk(body, &mut p);
    p.out
}

/// The listing of one function: its path, then each line of its body
/// indented.
pub open spec fn fn_listing(f: FnEntry) -> Seq<Seq<char>> {
    seq![""@, "fn "@ + f.path@] + Seq::new(listing(&f.body).len(), |k: int| "  "@ + listing(&f.body)[k])
}

pub fn body(f: &FnEntry) -> (r: Vec<String>)
    requires
        f.body.wf(),
    ensures
        views(r@) == fn_listing(*f),
{
    let lines = body_lines(&f.body);
    let mut out: Vec<String> = Vec::new();
    out.push(text(""));
    let mut h = text("fn ");
    put(&mut h, f.path.as_str());
    out.push(h);
    let mut k: usize = 0;
    while k < lines.len()
        invariant
            k <= lines@.len(),
            views(lines@) == listing(&f.body),
            views(out@) == seq![""@, "fn "@ + f.path@] + Seq::new(k as nat, |q: int| "  "@ + listing(&f.body)[q]),
        decreases lines@.len() - k,
    {
        let mut l = text("  ");
        put(&mut l, lines[k].as_str());
        let ghost before = views(out@);
        out.push(l);
        proof {
            assert(views(lines@)[k as int] == lines@[k as int]@);
            assert(views(out@) =~= before.push(l@));
            assert(views(out@) =~= seq![""@, "fn "@ + f.path@] + Seq::new((k + 1) as nat, |q: int| "  "@ + listing(&f.body)[q]));
        }
        k = k + 1;
    }
    out
}

} // verus!
