//! Symbolic summaries: what each function returns and writes through its
//! reference parameters, as an expression over its inputs.
use vstd::prelude::*;

use crate::heap::{body_of, find_key, lemma_body_of, lookup};
use crate::mir::{
    Body, FnEntry, funcs_wf, Operand, Place, ProjElem, Rvalue, RvalueKind, Statement, StatementKind, Terminator,
    TerminatorKind, operand_ok, place_ok, rvalue_ok, single_deref, spec_callee, spec_single_deref,
    stmt_ok, term_ok, UnOp,
};
use crate::sym::{
    Sym, SymV, bin_op_text, copy_all, index_into, lemma_syms_view, mk_bin, mk_un, simplify, spec_index_into,
    spec_mk_bin, spec_mk_un, spec_simp, spec_subst, substitute, sym_view, syms_view, un_op_text,
};
use crate::cfg::{block_order, fn_ids, has_reachable_cycle, is_topo_order, local_name};
use crate::text::{dec, escape, escaped, fmt_usize, join, joined, put, text, views};

verus! {

/// Why a summary is only an approximation.
#[derive(Clone, Copy, PartialEq, Eq)]
pub enum Note {
    /// A merge lost information, or a callee's summary was approximate.
    Approximate,
    /// The body has a loop, which is run once in block order.
    LoopsNotModelled,
}

impl Note {
    pub open spec fn text_of(self) -> Seq<char> {
        match self {
            Note::Approximate => seq!['a', 'p', 'p', 'r', 'o', 'x', 'i', 'm', 'a', 't', 'e'],
            Note::LoopsNotModelled => seq![
                'a', 'p', 'p', 'r', 'o', 'x', 'i', 'm', 'a', 't', 'e', ':', ' ', 'l', 'o', 'o', 'p', 's',
                ' ', 'n', 'o', 't', ' ', 'm', 'o', 'd', 'e', 'l', 'l', 'e', 'd',
            ],
        }
    }

    pub fn text(&self) -> (r: &'static str)
        ensures
            r@ == self.text_of(),
    {
        proof {
            reveal_strlit("approximate");
            reveal_strlit("approximate: loops not modelled");
        }
        match self {
            Note::Approximate => "approximate",
            Note::LoopsNotModelled => "approximate: loops not modelled",
        }
    }
}

/// What a function does, as seen by its callers: its parameter names, the
/// value it returns, the values it leaves behind its reference parameters
/// (by parameter position), and why the summary is approximate, if it is.
pub struct FnSummary {
    pub params: Vec<String>,
    pub ret: Sym,
    pub writes: Vec<(usize, Sym)>,
    pub note: Option<Note>,
}

pub struct FnSummaryV {
    pub params: Seq<Seq<char>>,
    pub ret: SymV,
    pub writes: Seq<(usize, SymV)>,
    pub note: Option<Note>,
}

pub open spec fn writes_view(w: Seq<(usize, Sym)>) -> Seq<(usize, SymV)> {
    w.map_values(|x: (usize, Sym)| (x.0, x.1@))
}

impl View for FnSummary {
    type V = FnSummaryV;

    open spec fn view(&self) -> FnSummaryV {
        FnSummaryV {
            params: views(self.params@),
            ret: self.ret@,
            writes: writes_view(self.writes@),
            note: self.note,
        }
    }
}

/// The summary of the function a call names, when there is one.
pub open spec fn summary_of(sums: Seq<(u64, FnSummary)>, func: Operand) -> Option<FnSummaryV> {
    match spec_callee(func) {
        Some(d) => match lookup(sums, d) {
            Some(fs) => Some(fs@),
            None => None,
        },
        None => None,
    }
}

/// The name of the function a call operand names directly.
pub open spec fn callee_name_of(func: Operand) -> Option<Seq<char>> {
    match func {
        Operand::Constant(c) => match c.fn_name {
            Some(n) => Some(n@),
            None => None,
        },
        _ => None,
    }
}

/// The state of the symbolic evaluation: the printable name of each slot, the
/// local declaration each slot takes its field names from, the value of each
/// slot, and whether a callee's summary was approximate.
pub struct SumV {
    pub names: Seq<Seq<char>>,
    pub decl: Seq<usize>,
    pub env: Seq<SymV>,
    pub approx: bool,
}

/// The evaluator over one body. Its slots are the body's locals followed by
/// one slot for the value behind each reference parameter.
pub struct Summary<'a> {
    pub body: &'a Body,
    pub summaries: &'a Vec<(u64, FnSummary)>,
    pub names: Vec<String>,
    pub decl: Vec<usize>,
    pub env: Vec<Sym>,
    pub approx_call: bool,
}

impl<'a> View for Summary<'a> {
    type V = SumV;

    open spec fn view(&self) -> SumV {
        SumV {
            names: views(self.names@),
            decl: self.decl@,
            env: syms_view(self.env@),
            approx: self.approx_call,
        }
    }
}

/// The field name of field `i` of a value whose type the declaration `d` gives.
pub open spec fn field_name_of(body: &Body, d: int, i: nat) -> Seq<char> {
    match body.local_decls@[d].field_names {
        Some(fs) => if i < fs@.len() {
            fs@[i as int]@
        } else {
            dec(i)
        },
        None => dec(i),
    }
}

impl SumV {
    /// The state fits the body: one name, declaration and value per slot, at
    /// least one slot per local, and declarations in range.
    pub open spec fn fits(self, body: &Body) -> bool {
        &&& self.names.len() == self.env.len()
        &&& self.decl.len() == self.env.len()
        &&& body.n_locals() <= self.env.len() <= 2 * crate::mir::size_bound()
        &&& forall|i: int| 0 <= i < self.decl.len() ==> #[trigger] self.decl[i] < body.n_locals()
    }

    /// The value of slot `i`; unknown outside the slots.
    pub open spec fn get(self, i: int) -> SymV {
        if 0 <= i < self.env.len() {
            self.env[i]
        } else {
            SymV::Unknown
        }
    }

    pub open spec fn set(self, i: int, v: SymV) -> SumV {
        SumV { env: self.env.update(i, v), ..self }
    }

    pub open spec fn place_value(self, body: &Body, p: Place) -> SymV {
        let l = p.local as int;
        let pr = p.projection@;
        if pr.len() == 0 {
            self.env[l]
        } else if pr.len() == 1 {
            match pr[0] {
                ProjElem::Deref => match self.env[l] {
                    SymV::Ref { target, .. } => self.get(target as int),
                    _ => SymV::Unknown,
                },
                ProjElem::Field(i) => match self.env[l] {
                    SymV::Aggregate(es) => if i < es.len() {
                        es[i as int]
                    } else {
                        SymV::Unknown
                    },
                    SymV::Unknown => SymV::Unknown,
                    base => SymV::Field(
                        Box::new(base),
                        field_name_of(body, self.decl[l] as int, i as nat),
                    ),
                },
                ProjElem::Index(li) => spec_index_into(self.env[l], self.env[li as int]),
                ProjElem::ConstantIndex { offset, from_end } => if !from_end {
                    spec_index_into(self.env[l], SymV::Const(offset as i128))
                } else {
                    SymV::Unknown
                },
                ProjElem::Other => SymV::Unknown,
            }
        } else {
            SymV::Unknown
        }
    }

    pub open spec fn operand(self, body: &Body, op: Operand) -> SymV {
        match op {
            Operand::Copy(p) => self.place_value(body, p),
            Operand::Move(p) => self.place_value(body, p),
            Operand::Constant(c) => match c.bits {
                Some(b) => SymV::Const(b),
                None => SymV::Unknown,
            },
            Operand::Other(_) => SymV::Unknown,
        }
    }

    pub open spec fn operands(self, body: &Body, ops: Seq<Operand>) -> Seq<SymV>
        decreases ops.len(),
    {
        if ops.len() == 0 {
            seq![]
        } else {
            self.operands(body, ops.drop_last()).push(self.operand(body, ops.last()))
        }
    }

    pub open spec fn make_ref(self, p: Place) -> SymV {
        if p.projection@.len() == 0 {
            SymV::Ref { target: p.local, name: self.names[p.local as int] }
        } else if spec_single_deref(p) {
            match self.env[p.local as int] {
                SymV::Ref { target, name } => SymV::Ref { target, name },
                _ => SymV::Unknown,
            }
        } else {
            SymV::Unknown
        }
    }

    pub open spec fn rvalue(self, body: &Body, rv: Rvalue) -> SymV {
        match rv.kind {
            RvalueKind::Use(op) => self.operand(body, op),
            RvalueKind::BinaryOp(op, l, r) => spec_mk_bin(
                bin_op_text(op),
                self.operand(body, l),
                self.operand(body, r),
            ),
            RvalueKind::UnaryOp(op, o) => spec_mk_un(un_op_text(op), self.operand(body, o)),
            RvalueKind::Cast(o) => self.operand(body, o),
            RvalueKind::Ref { place, .. } => self.make_ref(place),
            RvalueKind::RawPtr { place, .. } => self.make_ref(place),
            RvalueKind::Aggregate(ops) => SymV::Aggregate(self.operands(body, ops@)),
            RvalueKind::Other => SymV::Unknown,
        }
    }

    /// An assignment stores into its local, or through the reference its
    /// local holds; every other statement leaves the state as it is.
    pub open spec fn statement(self, body: &Body, st: Statement) -> SumV {
        match st.kind {
            StatementKind::Assign(place, rv) => {
                let v = self.rvalue(body, rv);
                let dest = place.local as int;
                if place.projection@.len() == 0 {
                    self.set(dest, v)
                } else if spec_single_deref(place) {
                    match self.env[dest] {
                        SymV::Ref { target, .. } => if target < self.env.len() {
                            self.set(target as int, v)
                        } else {
                            self
                        },
                        _ => self,
                    }
                } else {
                    self
                }
            },
            _ => self,
        }
    }
}

proof fn lemma_syms_view_update(v: Seq<Sym>, i: int, x: Sym)
    requires
        0 <= i < v.len(),
    ensures
        syms_view(v.update(i, x)) == syms_view(v).update(i, sym_view(x)),
{
    lemma_syms_view(v);
    lemma_syms_view(v.update(i, x));
    assert(syms_view(v.update(i, x)) =~= syms_view(v).update(i, sym_view(x)));
}

proof fn lemma_syms_view_push(v: Seq<Sym>, x: Sym)
    ensures
        syms_view(v.push(x)) == syms_view(v).push(sym_view(x)),
{
    lemma_syms_view(v);
    lemma_syms_view(v.push(x));
    assert(syms_view(v.push(x)) =~= syms_view(v).push(sym_view(x)));
}

impl<'a> Summary<'a> {
    /// The state fits the body it reads.
    pub open spec fn ready(&self) -> bool {
        &&& self.body.wf()
        &&& self@.fits(self.body)
    }

    /// The value of slot `i`.
    fn get(&self, i: usize) -> (r: Sym)
        requires
            self.ready(),
        ensures
            r@ == self@.get(i as int),
    {
        proof {
            lemma_syms_view(self.env@);
        }
        if i < self.env.len() {
            self.env[i].copy()
        } else {
            Sym::Unknown
        }
    }

    fn set(&mut self, i: usize, v: Sym)
        requires
            old(self).ready(),
            i < old(self).env@.len(),
        ensures
            final(self)@ == old(self)@.set(i as int, v@),
            final(self).ready(),
            final(self).body == old(self).body,
            final(self).summaries == old(self).summaries,
            final(self).names == old(self).names,
            final(self).decl == old(self).decl,
    {
        proof {
            lemma_syms_view_update(self.env@, i as int, v);
            lemma_syms_view(self.env@);
        }
        self.env.set(i, v);
        proof {
            lemma_syms_view(self.env@);
        }
    }

    fn field_name(&self, d: usize, i: usize) -> (r: String)
        requires
            self.ready(),
            d < self.body.n_locals(),
        ensures
            r@ == field_name_of(self.body, d as int, i as nat),
    {
        match &self.body.local_decls[d].field_names {
            Some(fs) => if i < fs.len() {
                fs[i].clone()
            } else {
                fmt_usize(i)
            },
            None => fmt_usize(i),
        }
    }

    pub fn place_value(&self, p: &Place) -> (r: Sym)
        requires
            self.ready(),
            place_ok(*p, self.body.n_locals()),
        ensures
            r@ == self@.place_value(self.body, *p),
    {
        proof {
            lemma_syms_view(self.env@);
        }
        let l = p.local;
        if p.projection.len() == 0 {
            self.env[l].copy()
        } else if p.projection.len() == 1 {
            match &p.projection[0] {
                ProjElem::Deref => match &self.env[l] {
                    Sym::Ref { target, .. } => self.get(*target),
                    _ => Sym::Unknown,
                },
                ProjElem::Field(i) => match &self.env[l] {
                    Sym::Aggregate(es) => {
                        proof {
                            lemma_syms_view(es@);
                        }
                        if *i < es.len() {
                            es[*i].copy()
                        } else {
                            Sym::Unknown
                        }
                    },
                    Sym::Unknown => Sym::Unknown,
                    base => Sym::Field(Box::new(base.copy()), self.field_name(self.decl[l], *i)),
                },
                ProjElem::Index(li) => {
                    assert(crate::mir::proj_ok(p.projection@[0], self.body.n_locals()));
                    index_into(self.env[l].copy(), self.env[*li].copy())
                },
                ProjElem::ConstantIndex { offset, from_end } => if !*from_end {
                    index_into(self.env[l].copy(), Sym::Const(*offset as i128))
                } else {
                    Sym::Unknown
                },
                ProjElem::Other => Sym::Unknown,
            }
        } else {
            Sym::Unknown
        }
    }

    pub fn operand(&self, op: &Operand) -> (r: Sym)
        requires
            self.ready(),
            operand_ok(*op, self.body.n_locals()),
        ensures
            r@ == self@.operand(self.body, *op),
    {
        match op {
            Operand::Copy(p) => self.place_value(p),
            Operand::Move(p) => self.place_value(p),
            Operand::Constant(c) => match c.bits {
                Some(b) => Sym::Const(b),
                None => Sym::Unknown,
            },
            Operand::Other(_) => Sym::Unknown,
        }
    }

    fn operands(&self, ops: &Vec<Operand>) -> (r: Vec<Sym>)
        requires
            self.ready(),
            forall|k: int| 0 <= k < ops@.len() ==> operand_ok(#[trigger] ops@[k], self.body.n_locals()),
        ensures
            syms_view(r@) == self@.operands(self.body, ops@),
    {
        let mut out: Vec<Sym> = Vec::new();
        let mut i: usize = 0;
        while i < ops.len()
            invariant
                i <= ops@.len(),
                self.ready(),
                forall|k: int| 0 <= k < ops@.len() ==> operand_ok(#[trigger] ops@[k], self.body.n_locals()),
                syms_view(out@) == self@.operands(self.body, ops@.take(i as int)),
            decreases ops@.len() - i,
        {
            let v = self.operand(&ops[i]);
            proof {
                lemma_syms_view_push(out@, v);
                assert(ops@.take(i + 1).drop_last() =~= ops@.take(i as int));
            }
            out.push(v);
            i = i + 1;
        }
        proof {
            assert(ops@.take(ops@.len() as int) =~= ops@);
        }
        out
    }

    pub fn make_ref(&self, place: &Place) -> (r: Sym)
        requires
            self.ready(),
            place_ok(*place, self.body.n_locals()),
        ensures
            r@ == self@.make_ref(*place),
    {
        proof {
            lemma_syms_view(self.env@);
        }
        if place.projection.len() == 0 {
            let t = place.local;
            Sym::Ref { target: t, name: self.names[t].clone() }
        } else if single_deref(place) {
            match &self.env[place.local] {
                Sym::Ref { target, name } => Sym::Ref { target: *target, name: name.clone() },
                _ => Sym::Unknown,
            }
        } else {
            Sym::Unknown
        }
    }

    pub fn rvalue(&self, rv: &Rvalue) -> (r: Sym)
        requires
            self.ready(),
            rvalue_ok(*rv, self.body.n_locals()),
        ensures
            r@ == self@.rvalue(self.body, *rv),
    {
        match &rv.kind {
            RvalueKind::Use(op) => self.operand(op),
            RvalueKind::BinaryOp(op, l, r) => mk_bin(op, self.operand(l), self.operand(r)),
            RvalueKind::UnaryOp(op, o) => mk_un(op, self.operand(o)),
            RvalueKind::Cast(o) => self.operand(o),
            RvalueKind::Ref { place, .. } => self.make_ref(place),
            RvalueKind::RawPtr { place, .. } => self.make_ref(place),
            RvalueKind::Aggregate(ops) => Sym::Aggregate(self.operands(ops)),
            RvalueKind::Other => Sym::Unknown,
        }
    }

    pub fn apply_statement(&mut self, stmt: &Statement)
        requires
            old(self).ready(),
            stmt_ok(*stmt, old(self).body.n_locals()),
        ensures
            final(self).ready(),
            final(self).body == old(self).body,
            final(self).summaries == old(self).summaries,
            final(self).names == old(self).names,
            final(self).decl == old(self).decl,
            final(self)@ == old(self)@.statement(old(self).body, *stmt),
    {
        proof {
            lemma_syms_view(self.env@);
        }
        if let StatementKind::Assign(place, rv) = &stmt.kind {
            let v = self.rvalue(rv);
            let dest = place.local;
            if place.projection.len() == 0 {
                self.set(dest, v);
            } else if single_deref(place) {
                let target = match &self.env[dest] {
                    Sym::Ref { target, .. } => Some(*target),
                    _ => None,
                };
                if let Some(t) = target {
                    if t < self.env.len() {
                        self.set(t, v);
                    }
                }
            }
        }
    }
}

impl SumV {
    /// The writes of a callee's summary applied to the caller: each write
    /// through a parameter whose argument is a reference stores the write's
    /// value, with the arguments put in for the parameters, into the slot the
    /// reference names.
    pub open spec fn apply_writes(
        self,
        writes: Seq<(usize, SymV)>,
        params: Seq<Seq<char>>,
        actuals: Seq<SymV>,
    ) -> SumV
        decreases writes.len(),
    {
        if writes.len() == 0 {
            self
        } else {
            let s = self.apply_writes(writes.drop_last(), params, actuals);
            let p = writes.last().0;
            let w = writes.last().1;
            if p < actuals.len() {
                match actuals[p as int] {
                    SymV::Ref { target, .. } => if target < s.env.len() {
                        s.set(target as int, spec_simp(spec_subst(w, params, actuals)))
                    } else {
                        s
                    },
                    _ => s,
                }
            } else {
                s
            }
        }
    }

    /// A call of a function with a summary applies the summary's writes and
    /// gives its return value, both with the arguments put in for the
    /// parameters; any other call gives `name(args)`, or unknown when the
    /// callee has no name.
    pub open spec fn call_value(self, func: Operand, actuals: Seq<SymV>, sums: Seq<(u64, FnSummary)>) -> (
        SumV,
        SymV,
    ) {
        match summary_of(sums, func) {
            None => (
                self,
                match callee_name_of(func) {
                    Some(n) => SymV::Call(n, actuals),
                    None => SymV::Unknown,
                },
            ),
            Some(fs) => {
                let s1 = if fs.note is Some {
                    SumV { approx: true, ..self }
                } else {
                    self
                };
                (
                    s1.apply_writes(fs.writes, fs.params, actuals),
                    spec_simp(spec_subst(fs.ret, fs.params, actuals)),
                )
            },
        }
    }

    /// A call whose destination is a plain local stores the call's value
    /// there; every other terminator leaves the state as it is.
    pub open spec fn terminator(self, body: &Body, t: Terminator, sums: Seq<(u64, FnSummary)>) -> SumV {
        match t.kind {
            TerminatorKind::Call { func, args, destination, .. } => if destination.projection@.len() == 0 {
                let actuals = self.operands(body, args@);
                let (s2, v) = self.call_value(func, actuals, sums);
                s2.set(destination.local as int, v)
            } else {
                self
            },
            _ => self,
        }
    }

    pub open spec fn run_stmts(self, body: &Body, ss: Seq<Statement>) -> SumV
        decreases ss.len(),
    {
        if ss.len() == 0 {
            self
        } else {
            self.run_stmts(body, ss.drop_last()).statement(body, ss.last())
        }
    }

    /// The statements of block `bb`, then its terminator.
    pub open spec fn run_block(self, body: &Body, bb: int, sums: Seq<(u64, FnSummary)>) -> SumV {
        let data = body.basic_blocks@[bb];
        self.run_stmts(body, data.statements@).terminator(body, data.terminator, sums)
    }
}

impl<'a> Summary<'a> {
    fn callee_name(&self, func: &Operand) -> (r: Option<String>)
        ensures
            match r {
                Some(n) => callee_name_of(*func) == Some(n@),
                None => callee_name_of(*func) is None,
            },
    {
        match func {
            Operand::Constant(c) => match &c.fn_name {
                Some(n) => Some(n.clone()),
                None => None,
            },
            _ => None,
        }
    }

    pub fn call_value(&mut self, func: &Operand, actuals: Vec<Sym>) -> (r: Sym)
        requires
            old(self).ready(),
        ensures
            final(self).ready(),
            final(self).body == old(self).body,
            final(self).summaries == old(self).summaries,
            final(self).names == old(self).names,
            final(self).decl == old(self).decl,
            (final(self)@, r@) == old(self)@.call_value(*func, syms_view(actuals@), old(self).summaries@),
    {
        let sums: &'a Vec<(u64, FnSummary)> = self.summaries;
        let found = match crate::mir::callee_def_id(func) {
            Some(d) => find_key(sums, d),
            None => None,
        };
        match found {
            None => match self.callee_name(func) {
                Some(name) => Sym::Call(name, actuals),
                None => Sym::Unknown,
            },
            Some(k) => {
                let fs = &sums[k].1;
                if fs.note.is_some() {
                    self.approx_call = true;
                }
                let ghost s1 = self@;
                let ghost acts = syms_view(actuals@);
                proof {
                    lemma_syms_view(actuals@);
                }
                let mut j: usize = 0;
                while j < fs.writes.len()
                    invariant
                        j <= fs.writes@.len(),
                        self.ready(),
                        self.body == old(self).body,
                        self.summaries == old(self).summaries,
                        self.names == old(self).names,
                        self.decl == old(self).decl,
                        acts == syms_view(actuals@),
                        acts.len() == actuals@.len(),
                        forall|i: int| 0 <= i < actuals@.len() ==> #[trigger] acts[i] == sym_view(actuals@[i]),
                        self@ == s1.apply_writes(writes_view(fs.writes@).take(j as int), fs@.params, acts),
                    decreases fs.writes@.len() - j,
                {
                    let param = fs.writes[j].0;
                    proof {
                        lemma_syms_view(self.env@);
                        assert(writes_view(fs.writes@).take(j + 1).drop_last() =~= writes_view(fs.writes@).take(
                            j as int,
                        ));
                        assert(writes_view(fs.writes@).take(j + 1).last() == (param, fs.writes@[j as int].1@));
                    }
                    if param < actuals.len() {
                        let target = match &actuals[param] {
                            Sym::Ref { target, .. } => Some(*target),
                            _ => None,
                        };
                        if let Some(t) = target {
                            if t < self.env.len() {
                                proof {
                                    lemma_syms_view(self.env@);
                                }
                                let v = simplify(&substitute(&fs.writes[j].1, &fs.params, &actuals));
                                self.set(t, v);
                            }
                        }
                    }
                    j = j + 1;
                }
                proof {
                    assert(writes_view(fs.writes@).take(fs.writes@.len() as int) =~= writes_view(fs.writes@));
                }
                simplify(&substitute(&fs.ret, &fs.params, &actuals))
            },
        }
    }

    pub fn apply_terminator(&mut self, term: &Terminator)
        requires
            old(self).ready(),
            term_ok(*term, old(self).body.n_locals(), old(self).body.n_blocks()),
        ensures
            final(self).ready(),
            final(self).body == old(self).body,
            final(self).summaries == old(self).summaries,
            final(self).names == old(self).names,
            final(self).decl == old(self).decl,
            final(self)@ == old(self)@.terminator(old(self).body, *term, old(self).summaries@),
    {
        if let TerminatorKind::Call { func, args, destination, .. } = &term.kind {
            if destination.projection.len() == 0 {
                let dest = destination.local;
                let actuals = self.operands(args);
                let v = self.call_value(func, actuals);
                proof {
                    lemma_syms_view(self.env@);
                }
                self.set(dest, v);
            }
        }
    }

    /// Runs the statements of block `bb`, then its terminator.
    pub fn run_block(&mut self, bb: usize)
        requires
            old(self).ready(),
            bb < old(self).body.n_blocks(),
        ensures
            final(self).ready(),
            final(self).body == old(self).body,
            final(self).summaries == old(self).summaries,
            final(self).names == old(self).names,
            final(self).decl == old(self).decl,
            final(self)@ == old(self)@.run_block(old(self).body, bb as int, old(self).summaries@),
    {
        let body: &'a Body = self.body;
        let data = &body.basic_blocks[bb];
        assert(crate::mir::block_ok(body.basic_blocks@[bb as int], body.n_locals(), body.n_blocks()));
        let ghost s0 = self@;
        let mut i: usize = 0;
        while i < data.statements.len()
            invariant
                i <= data.statements@.len(),
                self.ready(),
                self.body == body,
                self.summaries == old(self).summaries,
                self.names == old(self).names,
                self.decl == old(self).decl,
                *data == body.basic_blocks@[bb as int],
                crate::mir::block_ok(*data, body.n_locals(), body.n_blocks()),
                self@ == s0.run_stmts(body, data.statements@.take(i as int)),
            decreases data.statements@.len() - i,
        {
            proof {
                assert(data.statements@.take(i + 1).drop_last() =~= data.statements@.take(i as int));
            }
            self.apply_statement(&data.statements[i]);
            i = i + 1;
        }
        proof {
            assert(data.statements@.take(data.statements@.len() as int) =~= data.statements@);
        }
        self.apply_terminator(&data.terminator);
    }
}

// ---------------------------------------------------------------------------
// Merging the states that reach a block from several predecessors.
// ---------------------------------------------------------------------------

/// What the predecessor's `switchInt` says about the way into a block: that
/// the switched-on value equals an arm's value, or that it matched none.
pub enum Guard {
    Eq(Sym, i128),
    Otherwise(Sym),
}

pub enum GuardV {
    Eq(SymV, i128),
    Otherwise(SymV),
}

impl View for Guard {
    type V = GuardV;

    open spec fn view(&self) -> GuardV {
        match self {
            Guard::Eq(d, v) => GuardV::Eq(d@, *v),
            Guard::Otherwise(d) => GuardV::Otherwise(d@),
        }
    }
}

pub open spec fn opt_guard_view(g: Option<Guard>) -> Option<GuardV> {
    match g {
        Some(x) => Some(x@),
        None => None,
    }
}

impl Guard {
    pub fn copy(&self) -> (r: Guard)
        ensures
            r@ == self@,
    {
        match self {
            Guard::Eq(d, v) => Guard::Eq(d.copy(), *v),
            Guard::Otherwise(d) => Guard::Otherwise(d.copy()),
        }
    }
}

fn copy_guard(g: &Option<Guard>) -> (r: Option<Guard>)
    ensures
        opt_guard_view(r) == opt_guard_view(*g),
{
    match g {
        Some(x) => Some(x.copy()),
        None => None,
    }
}

/// `if d == val { eq_val } else { oth_val }`, written `if d { .. }` with the
/// branches swapped when `val` is zero.
pub open spec fn cond_of(d: SymV, val: i128, eq_val: SymV, oth_val: SymV) -> SymV {
    if val == 0 {
        SymV::Cond(Box::new(d), Box::new(oth_val), Box::new(eq_val))
    } else {
        SymV::Cond(
            Box::new(SymV::Bin(seq!['=', '='], Box::new(d), Box::new(SymV::Const(val)))),
            Box::new(eq_val),
            Box::new(oth_val),
        )
    }
}

/// The value of a slot after a two-way branch, when one way in is an arm of
/// a `switchInt` and the other its `otherwise` on the same value.
pub open spec fn spec_branch_value(va: SymV, ga: Option<GuardV>, vb: SymV, gb: Option<GuardV>) -> Option<
    SymV,
> {
    match (ga, gb) {
        (Some(GuardV::Eq(d1, v)), Some(GuardV::Otherwise(d2))) => if d1 == d2 {
            Some(cond_of(d1, v, va, vb))
        } else {
            None
        },
        (Some(GuardV::Otherwise(d2)), Some(GuardV::Eq(d1, v))) => if d1 == d2 {
            Some(cond_of(d1, v, vb, va))
        } else {
            None
        },
        _ => None,
    }
}

/// The value after a two-way branch does not depend on the order in which
/// the two ways in are listed.
pub proof fn lemma_branch_value_symmetric(va: SymV, ga: Option<GuardV>, vb: SymV, gb: Option<GuardV>)
    ensures
        spec_branch_value(va, ga, vb, gb) == spec_branch_value(vb, gb, va, ga),
{
}

pub fn branch_value(va: &Sym, ga: &Option<Guard>, vb: &Sym, gb: &Option<Guard>) -> (r: Option<Sym>)
    ensures
        match r {
            Some(v) => spec_branch_value(va@, opt_guard_view(*ga), vb@, opt_guard_view(*gb)) == Some(v@),
            None => spec_branch_value(va@, opt_guard_view(*ga), vb@, opt_guard_view(*gb)) is None,
        },
{
    let (d, val, swap) = match ga {
        Some(Guard::Eq(d1, v)) => match gb {
            Some(Guard::Otherwise(d2)) => {
                if !d1.same(d2) {
                    return None;
                }
                (d1, *v, false)
            },
            _ => {
                return None;
            },
        },
        Some(Guard::Otherwise(d2)) => match gb {
            Some(Guard::Eq(d1, v)) => {
                if !d1.same(d2) {
                    return None;
                }
                (d1, *v, true)
            },
            _ => {
                return None;
            },
        },
        None => {
            return None;
        },
    };
    let (eq_val, oth_val) = if swap {
        (vb, va)
    } else {
        (va, vb)
    };
    Some(cond_sym(d, val, eq_val, oth_val))
}

/// `if d == val { eq_val } else { oth_val }`, as `cond_of` writes it.
fn cond_sym(d: &Sym, val: i128, eq_val: &Sym, oth_val: &Sym) -> (r: Sym)
    ensures
        r@ == cond_of(d@, val, eq_val@, oth_val@),
{
    if val == 0 {
        Sym::Cond(Box::new(d.copy()), Box::new(oth_val.copy()), Box::new(eq_val.copy()))
    } else {
        proof {
            reveal_strlit("==");
            assert("=="@ =~= seq!['=', '=']);
        }
        let op = crate::text::text("==");
        let k = Sym::Const(val);
        assert(k@ == SymV::Const(val));
        let cond = Sym::Bin(op, Box::new(d.copy()), Box::new(k));
        assert(cond@ == SymV::Bin(seq!['=', '='], Box::new(d@), Box::new(SymV::Const(val))));
        Sym::Cond(Box::new(cond), Box::new(eq_val.copy()), Box::new(oth_val.copy()))
    }
}

pub open spec fn opt_env_view(o: Option<Vec<Sym>>) -> Option<Seq<SymV>> {
    match o {
        Some(v) => Some(syms_view(v@)),
        None => None,
    }
}

pub open spec fn exits_view(e: Seq<Option<Vec<Sym>>>) -> Seq<Option<Seq<SymV>>> {
    e.map_values(|o: Option<Vec<Sym>>| opt_env_view(o))
}

pub open spec fn guards_view(g: Seq<Option<Guard>>) -> Seq<Option<GuardV>> {
    g.map_values(|o: Option<Guard>| opt_guard_view(o))
}

/// The predecessors whose exit state is known, in order.
pub open spec fn avail(ps: Seq<usize>, exit: Seq<Option<Seq<SymV>>>) -> Seq<usize>
    decreases ps.len(),
{
    if ps.len() == 0 {
        seq![]
    } else {
        let a = avail(ps.drop_last(), exit);
        if exit[ps.last() as int] is Some {
            a.push(ps.last())
        } else {
            a
        }
    }
}

pub open spec fn exit_env(exit: Seq<Option<Seq<SymV>>>, p: usize) -> Seq<SymV> {
    exit[p as int].unwrap()
}

/// Slot `i` of the merged state: the common value when all known ways in
/// agree; else, for exactly two ways in, the value of the branch; else
/// unknown. The flag says the merge lost the slot's value.
pub open spec fn merge_one(av: Seq<usize>, exit: Seq<Option<Seq<SymV>>>, guard: Seq<Option<GuardV>>, i: int) -> (
    SymV,
    bool,
) {
    let first = exit_env(exit, av[0])[i];
    if forall|q: int| 0 <= q < av.len() ==> #[trigger] exit_env(exit, av[q])[i] == first {
        (first, false)
    } else if av.len() == 2 {
        match spec_branch_value(
            exit_env(exit, av[0])[i],
            guard[av[0] as int],
            exit_env(exit, av[1])[i],
            guard[av[1] as int],
        ) {
            Some(v) => (v, false),
            None => (SymV::Unknown, true),
        }
    } else {
        (SymV::Unknown, true)
    }
}

pub open spec fn merge_upto(av: Seq<usize>, exit: Seq<Option<Seq<SymV>>>, guard: Seq<Option<GuardV>>, n: int) -> (
    Seq<SymV>,
    bool,
)
    decreases n,
{
    if n <= 0 {
        (seq![], false)
    } else {
        let (out, imp) = merge_upto(av, exit, guard, n - 1);
        let (v, lost) = merge_one(av, exit, guard, n - 1);
        (out.push(v), imp || lost)
    }
}

/// The state on entry to a block with several predecessors, slot by slot,
/// and whether any slot lost its value.
pub open spec fn spec_merge(ps: Seq<usize>, exit: Seq<Option<Seq<SymV>>>, guard: Seq<Option<GuardV>>) -> (
    Seq<SymV>,
    bool,
) {
    let av = avail(ps, exit);
    merge_upto(av, exit, guard, exit_env(exit, av[0]).len() as int)
}

proof fn lemma_merge_upto_len(av: Seq<usize>, exit: Seq<Option<Seq<SymV>>>, guard: Seq<Option<GuardV>>, n: int)
    requires
        n >= 0,
    ensures
        merge_upto(av, exit, guard, n).0.len() == n,
    decreases n,
{
    if n > 0 {
        lemma_merge_upto_len(av, exit, guard, n - 1);
    }
}

proof fn lemma_avail(ps: Seq<usize>, exit: Seq<Option<Seq<SymV>>>)
    ensures
        forall|q: int| 0 <= q < avail(ps, exit).len() ==> ps.contains(#[trigger] avail(ps, exit)[q]),
        forall|q: int|
            0 <= q < avail(ps, exit).len() ==> exit[#[trigger] avail(ps, exit)[q] as int] is Some,
        forall|q: int| 0 <= q < ps.len() && exit[ps[q] as int] is Some ==> avail(ps, exit).contains(
            #[trigger] ps[q],
        ),
    decreases ps.len(),
{
    if ps.len() > 0 {
        lemma_avail(ps.drop_last(), exit);
        let a = avail(ps.drop_last(), exit);
        assert forall|q: int| 0 <= q < avail(ps, exit).len() implies ps.contains(
            #[trigger] avail(ps, exit)[q],
        ) by {
            if q < a.len() {
                assert(ps.drop_last().contains(a[q]));
                let w = choose|w: int| 0 <= w < ps.drop_last().len() && ps.drop_last()[w] == a[q];
                assert(ps[w] == a[q]);
            } else {
                assert(ps[ps.len() - 1] == avail(ps, exit)[q]);
            }
        }
        assert forall|q: int| 0 <= q < ps.len() && exit[ps[q] as int] is Some implies avail(
            ps,
            exit,
        ).contains(#[trigger] ps[q]) by {
            if q < ps.len() - 1 {
                assert(ps.drop_last()[q] == ps[q]);
                let w = choose|w: int| 0 <= w < a.len() && a[w] == ps[q];
                assert(avail(ps, exit)[w] == ps[q]);
            } else {
                assert(avail(ps, exit)[a.len() as int] == ps[q]);
            }
        }
    }
}

fn avail_exits(ps: &Vec<usize>, exit: &Vec<Option<Vec<Sym>>>) -> (r: Vec<usize>)
    requires
        forall|q: int| 0 <= q < ps@.len() ==> #[trigger] ps@[q] < exit@.len(),
    ensures
        r@ == avail(ps@, exits_view(exit@)),
{
    let mut out: Vec<usize> = Vec::new();
    let mut i: usize = 0;
    while i < ps.len()
        invariant
            i <= ps@.len(),
            forall|q: int| 0 <= q < ps@.len() ==> #[trigger] ps@[q] < exit@.len(),
            out@ == avail(ps@.take(i as int), exits_view(exit@)),
        decreases ps@.len() - i,
    {
        proof {
            assert(ps@.take(i + 1).drop_last() =~= ps@.take(i as int));
        }
        let p = ps[i];
        if exit[p].is_some() {
            out.push(p);
        }
        i = i + 1;
    }
    proof {
        assert(ps@.take(ps@.len() as int) =~= ps@);
    }
    out
}

/// The exits are known for the predecessors in `av`, all of length `n`.
pub open spec fn exits_ready(av: Seq<usize>, exit: Seq<Option<Vec<Sym>>>, n: nat) -> bool {
    &&& av.len() >= 1
    &&& forall|q: int| 0 <= q < av.len() ==> #[trigger] av[q] < exit.len()
    &&& forall|q: int| 0 <= q < av.len() ==> (#[trigger] exit[av[q] as int]) is Some
    &&& forall|q: int| 0 <= q < av.len() ==> (#[trigger] exit[av[q] as int]).unwrap()@.len() == n
}

fn merge_slot(
    av: &Vec<usize>,
    exit: &Vec<Option<Vec<Sym>>>,
    guard: &Vec<Option<Guard>>,
    i: usize,
    Ghost(n): Ghost<nat>,
) -> (r: (Sym, bool))
    requires
        exits_ready(av@, exit@, n),
        i < n,
        forall|q: int| 0 <= q < av@.len() ==> #[trigger] av@[q] < guard@.len(),
    ensures
        (r.0@, r.1) == merge_one(av@, exits_view(exit@), guards_view(guard@), i as int),
{
    let ghost ex = exits_view(exit@);
    let e0 = match &exit[av[0]] {
        Some(e) => e,
        None => {
            return (Sym::Unknown, true);
        },
    };
    proof {
        lemma_syms_view(e0@);
        assert(ex[av@[0] as int] == opt_env_view(exit@[av@[0] as int]));
        assert(exit_env(ex, av@[0]) == syms_view(e0@));
    }
    let first = &e0[i];
    let mut all = true;
    let mut q: usize = 1;
    while q < av.len()
        invariant
            1 <= q <= av@.len(),
            exits_ready(av@, exit@, n),
            i < n,
            ex == exits_view(exit@),
            e0@.len() == n,
            sym_view(*first) == exit_env(ex, av@[0])[i as int],
            all == forall|w: int| 0 <= w < q ==> #[trigger] exit_env(ex, av@[w])[i as int] == sym_view(*first),
        decreases av@.len() - q,
    {
        let ghost before = all;
        let eq = match &exit[av[q]] {
            Some(e) => {
                proof {
                    lemma_syms_view(e@);
                    assert(ex[av@[q as int] as int] == opt_env_view(exit@[av@[q as int] as int]));
                    assert(exit_env(ex, av@[q as int]) == syms_view(e@));
                }
                e[i].same(first)
            },
            None => false,
        };
        assert(eq == (exit_env(ex, av@[q as int])[i as int] == sym_view(*first)));
        if !eq {
            all = false;
        }
        proof {
            if all {
                assert forall|w: int| 0 <= w < q + 1 implies #[trigger] exit_env(ex, av@[w])[i as int]
                    == sym_view(*first) by {
                    if w < q {
                        assert(before);
                    }
                }
            }
        }
        q = q + 1;
    }
    if all {
        return (first.copy(), false);
    }
    if av.len() == 2 {
        let ea = match &exit[av[0]] {
            Some(e) => e,
            None => {
                return (Sym::Unknown, true);
            },
        };
        let eb = match &exit[av[1]] {
            Some(e) => e,
            None => {
                return (Sym::Unknown, true);
            },
        };
        proof {
            lemma_syms_view(ea@);
            lemma_syms_view(eb@);
            assert(ex[av@[0] as int] == opt_env_view(exit@[av@[0] as int]));
            assert(ex[av@[1] as int] == opt_env_view(exit@[av@[1] as int]));
            assert(exit_env(ex, av@[0]) == syms_view(ea@));
            assert(exit_env(ex, av@[1]) == syms_view(eb@));
            assert(guards_view(guard@)[av@[0] as int] == opt_guard_view(guard@[av@[0] as int]));
            assert(guards_view(guard@)[av@[1] as int] == opt_guard_view(guard@[av@[1] as int]));
        }
        match branch_value(&ea[i], &guard[av[0]], &eb[i], &guard[av[1]]) {
            Some(v) => (v, false),
            None => (Sym::Unknown, true),
        }
    } else {
        (Sym::Unknown, true)
    }
}

/// Merges the exit states of the predecessors `ps` of a block.
pub fn merge(ps: &Vec<usize>, exit: &Vec<Option<Vec<Sym>>>, guard: &Vec<Option<Guard>>, Ghost(n): Ghost<nat>) -> (r: (
    Vec<Sym>,
    bool,
))
    requires
        forall|q: int| 0 <= q < ps@.len() ==> #[trigger] ps@[q] < exit@.len() && ps@[q] < guard@.len(),
        exists_ready_pred(ps@, exit@),
        forall|q: int|
            0 <= q < ps@.len() && (#[trigger] exit@[ps@[q] as int]) is Some ==> exit@[ps@[q] as int].unwrap()@.len()
                == n,
    ensures
        (syms_view(r.0@), r.1) == spec_merge(ps@, exits_view(exit@), guards_view(guard@)),
        r.0@.len() == n,
{
    let ghost ex = exits_view(exit@);
    let av = avail_exits(ps, exit);
    proof {
        lemma_avail(ps@, ex);
        let w = choose|w: int| 0 <= w < ps@.len() && exit@[ps@[w] as int] is Some;
        assert(ex[ps@[w] as int] is Some);
        assert(av@.contains(ps@[w]));
        assert forall|q: int| 0 <= q < av@.len() implies (#[trigger] exit@[av@[q] as int]) is Some by {
            assert(ex[av@[q] as int] is Some);
        }
        assert forall|q: int| 0 <= q < av@.len() implies #[trigger] av@[q] < exit@.len() && av@[q] < guard@.len()
            && exit@[av@[q] as int].unwrap()@.len() == n by {
            assert(ps@.contains(av@[q]));
            let w = choose|w: int| 0 <= w < ps@.len() && ps@[w] == av@[q];
            assert(exit@[ps@[w] as int] is Some);
        }
    }
    let len = match &exit[av[0]] {
        Some(e) => e.len(),
        None => 0,
    };
    proof {
        lemma_syms_view(exit@[av@[0] as int].unwrap()@);
        assert(exit_env(ex, av@[0]).len() == len);
    }
    let mut out: Vec<Sym> = Vec::new();
    let mut imprecise = false;
    let mut i: usize = 0;
    while i < len
        invariant
            i <= len,
            len == n,
            exits_ready(av@, exit@, n),
            forall|q: int| 0 <= q < av@.len() ==> #[trigger] av@[q] < guard@.len(),
            ex == exits_view(exit@),
            (syms_view(out@), imprecise) == merge_upto(av@, ex, guards_view(guard@), i as int),
        decreases len - i,
    {
        let (v, lost) = merge_slot(&av, exit, guard, i, Ghost(n));
        proof {
            lemma_syms_view_push(out@, v);
        }
        out.push(v);
        imprecise = imprecise || lost;
        i = i + 1;
    }
    proof {
        lemma_merge_upto_len(av@, ex, guards_view(guard@), len as int);
        lemma_syms_view(out@);
    }
    (out, imprecise)
}

/// Some predecessor's exit state is known.
pub open spec fn exists_ready_pred(ps: Seq<usize>, exit: Seq<Option<Vec<Sym>>>) -> bool {
    exists|w: int| 0 <= w < ps.len() && (#[trigger] exit[ps[w] as int]) is Some
}

// ---------------------------------------------------------------------------
// Evaluating the blocks in a topological order.
// ---------------------------------------------------------------------------

/// The evaluation so far: the current state, each block's exit slots once it
/// has run, what the way into each block says, whether a merge lost a value,
/// and the slots at each `return` met.
pub struct CfgV {
    pub st: SumV,
    pub exit: Seq<Option<Seq<SymV>>>,
    pub guard: Seq<Option<GuardV>>,
    pub imprecise: bool,
    pub rets: Seq<Seq<SymV>>,
}

/// The slots on entry to `bb`: the initial ones when it has no predecessor,
/// its predecessor's exit (or the initial ones, when that has not run) when
/// it has one, else the merge of its predecessors' exits.
pub open spec fn entry_of(
    body: &Body,
    exit: Seq<Option<Seq<SymV>>>,
    guard: Seq<Option<GuardV>>,
    bb: int,
    init: Seq<SymV>,
) -> (Seq<SymV>, bool) {
    let ps = body.spec_preds(bb);
    if ps.len() == 0 {
        (init, false)
    } else if ps.len() == 1 {
        (
            match exit[ps[0] as int] {
                Some(e) => e,
                None => init,
            },
            false,
        )
    } else {
        spec_merge(ps, exit, guard)
    }
}

/// Each arm of a `switchInt` marks its target with the arm's value.
pub open spec fn eq_guards(g: Seq<Option<GuardV>>, d: SymV, targets: Seq<(i128, usize)>) -> Seq<
    Option<GuardV>,
>
    decreases targets.len(),
{
    if targets.len() == 0 {
        g
    } else {
        eq_guards(g, d, targets.drop_last()).update(
            targets.last().1 as int,
            Some(GuardV::Eq(d, targets.last().0)),
        )
    }
}

/// Each successor of `bb` with `bb` as its only predecessor inherits the way
/// into `bb`.
pub open spec fn pass_guards(body: &Body, g: Seq<Option<GuardV>>, succs: Seq<usize>, bb: int) -> Seq<
    Option<GuardV>,
>
    decreases succs.len(),
{
    if succs.len() == 0 {
        g
    } else {
        let g1 = pass_guards(body, g, succs.drop_last(), bb);
        let t = succs.last();
        if body.spec_preds(t as int).len() == 1 {
            g1.update(t as int, g1[bb])
        } else {
            g1
        }
    }
}

/// Runs block `bb` from its entry slots and records what it leaves behind.
pub open spec fn cfg_step(body: &Body, sums: Seq<(u64, FnSummary)>, init: Seq<SymV>, c: CfgV, bb: int) -> CfgV {
    let (entry, imp) = entry_of(body, c.exit, c.guard, bb, init);
    let s1 = SumV { env: entry, ..c.st }.run_block(body, bb, sums);
    let term = body.basic_blocks@[bb].terminator;
    let guard2 = match term.kind {
        TerminatorKind::SwitchInt { discr, targets, otherwise, .. } => {
            let d = s1.operand(body, discr);
            eq_guards(c.guard, d, targets@).update(otherwise as int, Some(GuardV::Otherwise(d)))
        },
        TerminatorKind::Return => c.guard,
        _ => pass_guards(body, c.guard, term.successors@, bb),
    };
    let rets2 = match term.kind {
        TerminatorKind::Return => c.rets.push(s1.env),
        _ => c.rets,
    };
    CfgV {
        st: s1,
        exit: c.exit.update(bb, Some(s1.env)),
        guard: guard2,
        imprecise: c.imprecise || imp,
        rets: rets2,
    }
}

pub open spec fn cfg_run(body: &Body, sums: Seq<(u64, FnSummary)>, init: Seq<SymV>, c0: CfgV, order: Seq<usize>) -> CfgV
    decreases order.len(),
{
    if order.len() == 0 {
        c0
    } else {
        cfg_step(body, sums, init, cfg_run(body, sums, init, c0, order.drop_last()), order.last() as int)
    }
}

pub open spec fn cfg_start(st: SumV, nb: nat) -> CfgV {
    CfgV {
        st,
        exit: Seq::new(nb, |i: int| None),
        guard: Seq::new(nb, |i: int| None),
        imprecise: false,
        rets: seq![],
    }
}

/// The slots at the `return`s when there is at least one and they agree on
/// the returned value, else all unknown and imprecise.
pub open spec fn cfg_result(c: CfgV, n: nat) -> (Seq<SymV>, bool) {
    if c.rets.len() >= 1 && forall|k: int|
        1 <= k < c.rets.len() ==> #[trigger] c.rets[k][0] == c.rets[0][0] {
        (c.rets[0], c.imprecise)
    } else {
        (Seq::new(n, |i: int| SymV::Unknown), true)
    }
}

pub open spec fn exits_at_return(r: Seq<Vec<Sym>>) -> Seq<Seq<SymV>> {
    r.map_values(|e: Vec<Sym>| syms_view(e@))
}

proof fn lemma_guards_view_update(g: Seq<Option<Guard>>, i: int, x: Option<Guard>)
    requires
        0 <= i < g.len(),
    ensures
        guards_view(g.update(i, x)) == guards_view(g).update(i, opt_guard_view(x)),
{
    assert(guards_view(g.update(i, x)) =~= guards_view(g).update(i, opt_guard_view(x)));
}

proof fn lemma_exits_view_update(e: Seq<Option<Vec<Sym>>>, i: int, x: Option<Vec<Sym>>)
    requires
        0 <= i < e.len(),
    ensures
        exits_view(e.update(i, x)) == exits_view(e).update(i, opt_env_view(x)),
{
    assert(exits_view(e.update(i, x)) =~= exits_view(e).update(i, opt_env_view(x)));
}

fn switch_guards(guard: &mut Vec<Option<Guard>>, d: &Sym, targets: &Vec<(i128, usize)>, otherwise: usize)
    requires
        forall|k: int| 0 <= k < targets@.len() ==> (#[trigger] targets@[k]).1 < old(guard)@.len(),
        otherwise < old(guard)@.len(),
    ensures
        final(guard)@.len() == old(guard)@.len(),
        guards_view(final(guard)@) == eq_guards(guards_view(old(guard)@), d@, targets@).update(
            otherwise as int,
            Some(GuardV::Otherwise(d@)),
        ),
{
    let ghost g0 = guards_view(guard@);
    let mut k: usize = 0;
    while k < targets.len()
        invariant
            k <= targets@.len(),
            guard@.len() == old(guard)@.len(),
            g0 == guards_view(old(guard)@),
            forall|j: int| 0 <= j < targets@.len() ==> (#[trigger] targets@[j]).1 < guard@.len(),
            guards_view(guard@) == eq_guards(g0, d@, targets@.take(k as int)),
        decreases targets@.len() - k,
    {
        let (v, t) = targets[k];
        proof {
            assert(targets@.take(k + 1).drop_last() =~= targets@.take(k as int));
        }
        let g = Guard::Eq(d.copy(), v);
        proof {
            lemma_guards_view_update(guard@, t as int, Some(g));
        }
        guard.set(t, Some(g));
        k = k + 1;
    }
    proof {
        assert(targets@.take(targets@.len() as int) =~= targets@);
    }
    let g = Guard::Otherwise(d.copy());
    proof {
        lemma_guards_view_update(guard@, otherwise as int, Some(g));
    }
    guard.set(otherwise, Some(g));
}

/// The predecessor lists are those of the body.
pub open spec fn preds_match(body: &Body, preds: Seq<Vec<usize>>) -> bool {
    &&& preds.len() == body.n_blocks()
    &&& forall|b: int| 0 <= b < body.n_blocks() ==> (#[trigger] preds[b])@ == body.spec_preds(b)
}

fn pass_guards_on(
    guard: &mut Vec<Option<Guard>>,
    body: &Body,
    preds: &Vec<Vec<usize>>,
    succs: &Vec<usize>,
    bb: usize,
)
    requires
        body.wf(),
        preds_match(body, preds@),
        old(guard)@.len() == body.n_blocks(),
        bb < body.n_blocks(),
        forall|k: int| 0 <= k < succs@.len() ==> #[trigger] succs@[k] < body.n_blocks(),
    ensures
        final(guard)@.len() == old(guard)@.len(),
        guards_view(final(guard)@) == pass_guards(body, guards_view(old(guard)@), succs@, bb as int),
{
    let ghost g0 = guards_view(guard@);
    let mut k: usize = 0;
    while k < succs.len()
        invariant
            k <= succs@.len(),
            body.wf(),
            preds_match(body, preds@),
            bb < body.n_blocks(),
            guard@.len() == body.n_blocks(),
            g0 == guards_view(old(guard)@),
            forall|j: int| 0 <= j < succs@.len() ==> #[trigger] succs@[j] < body.n_blocks(),
            guards_view(guard@) == pass_guards(body, g0, succs@.take(k as int), bb as int),
        decreases succs@.len() - k,
    {
        let t = succs[k];
        proof {
            assert(succs@.take(k + 1).drop_last() =~= succs@.take(k as int));
            assert(succs@.take(k + 1).last() == t);
            assert(preds@[t as int]@ == body.spec_preds(t as int));
        }
        if preds[t].len() == 1 {
            let g = copy_guard(&guard[bb]);
            proof {
                lemma_guards_view_update(guard@, t as int, g);
                assert(guards_view(guard@)[bb as int] == opt_guard_view(guard@[bb as int]));
            }
            guard.set(t, g);
        }
        k = k + 1;
    }
    proof {
        assert(succs@.take(succs@.len() as int) =~= succs@);
    }
}

/// The exit slots recorded so far all have `n` entries.
pub open spec fn exits_sized(exit: Seq<Option<Vec<Sym>>>, n: nat) -> bool {
    forall|p: int| 0 <= p < exit.len() && (#[trigger] exit[p]) is Some ==> exit[p].unwrap()@.len() == n
}

fn entry_env(
    body: &Body,
    preds: &Vec<Vec<usize>>,
    exit: &Vec<Option<Vec<Sym>>>,
    guard: &Vec<Option<Guard>>,
    bb: usize,
    init: &Vec<Sym>,
    Ghost(n): Ghost<nat>,
) -> (r: (Vec<Sym>, bool))
    requires
        body.wf(),
        preds_match(body, preds@),
        exit@.len() == body.n_blocks(),
        guard@.len() == body.n_blocks(),
        bb < body.n_blocks(),
        init@.len() == n,
        exits_sized(exit@, n),
        preds@[bb as int]@.len() >= 2 ==> exists_ready_pred(preds@[bb as int]@, exit@),
    ensures
        (syms_view(r.0@), r.1) == entry_of(
            body,
            exits_view(exit@),
            guards_view(guard@),
            bb as int,
            syms_view(init@),
        ),
        r.0@.len() == n,
{
    let ps = &preds[bb];
    proof {
        body.lemma_preds_bound(bb as int);
        lemma_syms_view(init@);
    }
    if ps.len() == 0 {
        let e = copy_all(init);
        proof {
            lemma_syms_view(e@);
        }
        (e, false)
    } else if ps.len() == 1 {
        proof {
            assert(exits_view(exit@)[ps@[0] as int] == opt_env_view(exit@[ps@[0] as int]));
        }
        match &exit[ps[0]] {
            Some(x) => {
                let e = copy_all(x);
                proof {
                    lemma_syms_view(e@);
                    lemma_syms_view(x@);
                }
                (e, false)
            },
            None => {
                let e = copy_all(init);
                proof {
                    lemma_syms_view(e@);
                }
                (e, false)
            },
        }
    } else {
        merge(ps, exit, guard, Ghost(n))
    }
}

/// The evaluation so far matches the spec's.
pub open spec fn cfg_matches(
    c: CfgV,
    st: SumV,
    exit: Seq<Option<Vec<Sym>>>,
    guard: Seq<Option<Guard>>,
    imprecise: bool,
    rets: Seq<Vec<Sym>>,
) -> bool {
    &&& st == c.st
    &&& exits_view(exit) == c.exit
    &&& guards_view(guard) == c.guard
    &&& imprecise == c.imprecise
    &&& exits_at_return(rets) == c.rets
}

fn none_exits(n: usize) -> (r: Vec<Option<Vec<Sym>>>)
    ensures
        r@.len() == n,
        forall|p: int| 0 <= p < n ==> (#[trigger] r@[p]) is None,
{
    let mut v: Vec<Option<Vec<Sym>>> = Vec::new();
    let mut i: usize = 0;
    while i < n
        invariant
            i <= n,
            v@.len() == i,
            forall|p: int| 0 <= p < i ==> (#[trigger] v@[p]) is None,
        decreases n - i,
    {
        v.push(None);
        i = i + 1;
    }
    v
}

fn none_guards(n: usize) -> (r: Vec<Option<Guard>>)
    ensures
        r@.len() == n,
        forall|p: int| 0 <= p < n ==> (#[trigger] r@[p]) is None,
{
    let mut v: Vec<Option<Guard>> = Vec::new();
    let mut i: usize = 0;
    while i < n
        invariant
            i <= n,
            v@.len() == i,
            forall|p: int| 0 <= p < i ==> (#[trigger] v@[p]) is None,
        decreases n - i,
    {
        v.push(None);
        i = i + 1;
    }
    v
}

/// `n` unknown values.
pub fn unknowns(n: usize) -> (r: Vec<Sym>)
    ensures
        syms_view(r@) == Seq::new(n as nat, |i: int| SymV::Unknown),
        r@.len() == n,
{
    let mut v: Vec<Sym> = Vec::new();
    let mut i: usize = 0;
    while i < n
        invariant
            i <= n,
            v@.len() == i,
            forall|p: int| 0 <= p < i ==> sym_view(#[trigger] v@[p]) == SymV::Unknown,
        decreases n - i,
    {
        v.push(Sym::Unknown);
        i = i + 1;
    }
    proof {
        lemma_syms_view(v@);
        assert(syms_view(v@) =~= Seq::new(n as nat, |i: int| SymV::Unknown));
    }
    v
}

/// Function entry is not the join of several edges.
pub open spec fn entry_unmerged(body: &Body) -> bool {
    body.spec_preds(0).len() < 2
}

impl<'a> Summary<'a> {
    /// Runs block `bb` from its entry slots and records its exit slots, the
    /// ways into its successors, and the slots at a `return`.
    fn step(
        &mut self,
        preds: &Vec<Vec<usize>>,
        exit: &mut Vec<Option<Vec<Sym>>>,
        guard: &mut Vec<Option<Guard>>,
        imprecise: &mut bool,
        rets: &mut Vec<Vec<Sym>>,
        init: &Vec<Sym>,
        bb: usize,
        Ghost(c): Ghost<CfgV>,
    )
        requires
            old(self).ready(),
            preds_match(old(self).body, preds@),
            bb < old(self).body.n_blocks(),
            old(exit)@.len() == old(self).body.n_blocks(),
            old(guard)@.len() == old(self).body.n_blocks(),
            init@.len() == old(self).env@.len(),
            exits_sized(old(exit)@, init@.len() as nat),
            forall|q: int| 0 <= q < old(rets)@.len() ==> (#[trigger] old(rets)@[q])@.len() == init@.len(),
            preds@[bb as int]@.len() >= 2 ==> exists_ready_pred(preds@[bb as int]@, old(exit)@),
            cfg_matches(c, old(self)@, old(exit)@, old(guard)@, *old(imprecise), old(rets)@),
        ensures
            final(self).ready(),
            final(self).body == old(self).body,
            final(self).summaries == old(self).summaries,
            final(self).names == old(self).names,
            final(self).decl == old(self).decl,
            final(self).env@.len() == init@.len(),
            final(exit)@.len() == old(exit)@.len(),
            final(guard)@.len() == old(guard)@.len(),
            exits_sized(final(exit)@, init@.len() as nat),
            forall|q: int| 0 <= q < final(rets)@.len() ==> (#[trigger] final(rets)@[q])@.len() == init@.len(),
            final(exit)@[bb as int] is Some,
            forall|p: int| 0 <= p < old(exit)@.len() && (#[trigger] old(exit)@[p]) is Some ==> final(exit)@[p] is Some,
            cfg_matches(
                cfg_step(old(self).body, old(self).summaries@, syms_view(init@), c, bb as int),
                final(self)@,
                final(exit)@,
                final(guard)@,
                *final(imprecise),
                final(rets)@,
            ),
    {
        let body: &'a Body = self.body;
        let len = init.len();
        proof {
            lemma_syms_view(self.env@);
        }
        let (entry, imp) = entry_env(body, preds, exit, guard, bb, init, Ghost(len as nat));
        *imprecise = *imprecise || imp;
        self.env = entry;
        proof {
            lemma_syms_view(self.env@);
        }
        self.run_block(bb);
        proof {
            lemma_syms_view(self.env@);
        }
        let saved = copy_all(&self.env);
        proof {
            lemma_syms_view(saved@);
            lemma_exits_view_update(exit@, bb as int, Some(saved));
        }
        exit.set(bb, Some(saved));
        let term = &body.basic_blocks[bb].terminator;
        assert(crate::mir::block_ok(body.basic_blocks@[bb as int], body.n_locals(), body.n_blocks()));
        match &term.kind {
            TerminatorKind::SwitchInt { discr, targets, otherwise, .. } => {
                let d = self.operand(discr);
                proof {
                    assert forall|j: int| 0 <= j < targets@.len() implies (#[trigger] targets@[j]).1 < guard@.len() by {
                        assert(targets@[j].1 == term.successors@[j]);
                    }
                    assert(term.successors@[targets@.len() as int] == *otherwise);
                }
                switch_guards(guard, &d, targets, *otherwise);
            },
            TerminatorKind::Return => {
                let r = copy_all(&self.env);
                proof {
                    lemma_syms_view(r@);
                    assert(exits_at_return(rets@.push(r)) =~= exits_at_return(rets@).push(syms_view(r@)));
                }
                rets.push(r);
            },
            _ => {
                pass_guards_on(guard, body, preds, &term.successors, bb);
            },
        }
    }
}

impl<'a> Summary<'a> {
    /// Runs the blocks in `order`, each from the merge of its predecessors'
    /// exit states, and gives the state at the `return`s and whether it is
    /// imprecise.
    pub fn eval_cfg(&mut self, order: &Vec<usize>, init: &Vec<Sym>) -> (r: (Vec<Sym>, bool))
        requires
            old(self).ready(),
            crate::cfg::is_topo_order(old(self).body, order@),
            entry_unmerged(old(self).body),
            init@.len() == old(self).env@.len(),
        ensures
            final(self).ready(),
            final(self).body == old(self).body,
            final(self).summaries == old(self).summaries,
            final(self).names == old(self).names,
            final(self).decl == old(self).decl,
            final(self)@ == cfg_run(
                old(self).body,
                old(self).summaries@,
                syms_view(init@),
                cfg_start(old(self)@, old(self).body.n_blocks()),
                order@,
            ).st,
            (syms_view(r.0@), r.1) == cfg_result(
                cfg_run(
                    old(self).body,
                    old(self).summaries@,
                    syms_view(init@),
                    cfg_start(old(self)@, old(self).body.n_blocks()),
                    order@,
                ),
                init@.len(),
            ),
            r.0@.len() == init@.len(),
    {
        let body: &'a Body = self.body;
        let nb = body.basic_blocks.len();
        let len = init.len();
        let ghost iv = syms_view(init@);
        let ghost c0 = cfg_start(self@, nb as nat);
        let preds = crate::mir::predecessors(body);
        let mut exit = none_exits(nb);
        let mut guard = none_guards(nb);
        let mut imprecise = false;
        let mut rets: Vec<Vec<Sym>> = Vec::new();
        proof {
            lemma_syms_view(self.env@);
            assert(exits_view(exit@) =~= c0.exit);
            assert(guards_view(guard@) =~= c0.guard);
            assert(exits_at_return(rets@) =~= c0.rets);
            assert(order@.take(0) =~= Seq::<usize>::empty());
        }
        let mut k: usize = 0;
        while k < order.len()
            invariant
                k <= order@.len(),
                self.ready(),
                self.body == body,
                self.summaries == old(self).summaries,
                self.names == old(self).names,
                self.decl == old(self).decl,
                nb == body.n_blocks(),
                crate::cfg::is_topo_order(body, order@),
                entry_unmerged(body),
                preds_match(body, preds@),
                exit@.len() == nb,
                guard@.len() == nb,
                len == init@.len(),
                iv == syms_view(init@),
                self.env@.len() == len,
                exits_sized(exit@, len as nat),
                forall|q: int| 0 <= q < rets@.len() ==> (#[trigger] rets@[q])@.len() == len,
                forall|i: int| 0 <= i < k ==> (#[trigger] exit@[order@[i] as int]) is Some,
                c0 == cfg_start(old(self)@, nb as nat),
                cfg_matches(
                    cfg_run(body, self.summaries@, iv, c0, order@.take(k as int)),
                    self@,
                    exit@,
                    guard@,
                    imprecise,
                    rets@,
                ),
            decreases order@.len() - k,
        {
            let bb = order[k];
            let ghost c = cfg_run(body, self.summaries@, iv, c0, order@.take(k as int));
            proof {
                assert(order@.take(k + 1).drop_last() =~= order@.take(k as int));
                assert(order@.take(k + 1).last() == bb);
                if preds@[bb as int]@.len() >= 2 {
                    if k == 0 {
                        assert(bb == 0);
                        assert(false);
                    } else {
                        assert(crate::cfg::entered_earlier(body, order@, k as int));
                        let i = choose|i: int| 0 <= i < k && body.succs(order@[i] as int).contains(order@[k as int]);
                        body.lemma_pred_listed(order@[i] as int, bb as int);
                        let w = choose|w: int| 0 <= w < body.spec_preds(bb as int).len() && body.spec_preds(bb as int)[w] == order@[i];
                        assert(preds@[bb as int]@[w] == order@[i]);
                        assert(exit@[preds@[bb as int]@[w] as int] is Some);
                    }
                }
            }
            let ghost ex_before = exit@;
            self.step(&preds, &mut exit, &mut guard, &mut imprecise, &mut rets, init, bb, Ghost(c));
            proof {
                assert forall|i: int| 0 <= i < k + 1 implies (#[trigger] exit@[order@[i] as int]) is Some by {
                    if i < k {
                        assert(ex_before[order@[i] as int] is Some);
                    }
                }
            }
            k = k + 1;
        }
        proof {
            assert(order@.take(order@.len() as int) =~= order@);
        }
        let ghost cf = cfg_run(body, self.summaries@, iv, c0, order@);
        if rets.len() >= 1 {
            proof {
                assert(exits_at_return(rets@)[0] == syms_view(rets@[0]@));
                lemma_syms_view(rets@[0]@);
            }
            let mut same = true;
            let mut q: usize = 1;
            while q < rets.len()
                invariant
                    1 <= q <= rets@.len(),
                    len >= 1,
                    forall|j: int| 0 <= j < rets@.len() ==> (#[trigger] rets@[j])@.len() == len,
                    exits_at_return(rets@) == cf.rets,
                    same == forall|j: int| 1 <= j < q ==> #[trigger] cf.rets[j][0] == cf.rets[0][0],
                decreases rets@.len() - q,
            {
                proof {
                    assert(exits_at_return(rets@)[q as int] == syms_view(rets@[q as int]@));
                    assert(exits_at_return(rets@)[0] == syms_view(rets@[0]@));
                    lemma_syms_view(rets@[q as int]@);
                    lemma_syms_view(rets@[0]@);
                }
                let eq = rets[q][0].same(&rets[0][0]);
                assert(cf.rets[q as int][0] == sym_view(rets@[q as int]@[0]));
                assert(cf.rets[0][0] == sym_view(rets@[0]@[0]));
                let ghost before = same;
                if !eq {
                    same = false;
                }
                proof {
                    if same {
                        assert forall|j: int| 1 <= j < q + 1 implies #[trigger] cf.rets[j][0] == cf.rets[0][0] by {
                            if j < q {
                                assert(before);
                            }
                        }
                    }
                }
                q = q + 1;
            }
            if same {
                let r = copy_all(&rets[0]);
                proof {
                    lemma_syms_view(r@);
                    lemma_syms_view(rets@[0]@);
                }
                return (r, imprecise);
            }
        }
        (unknowns(len), true)
    }
}

// ---------------------------------------------------------------------------
// Summarizing one function.
// ---------------------------------------------------------------------------

impl SumV {
    /// Runs the first `k` blocks in block order.
    pub open spec fn run_blocks(self, body: &Body, sums: Seq<(u64, FnSummary)>, k: int) -> SumV
        decreases k,
    {
        if k <= 0 {
            self
        } else {
            self.run_blocks(body, sums, k - 1).run_block(body, k - 1, sums)
        }
    }
}

pub open spec fn star(nm: Seq<char>) -> Seq<char> {
    seq!['*'] + nm
}

/// The slots before the first block: each local named and unknown, each
/// plain parameter `p` the input `p`, and each reference parameter `p` a
/// reference to a new slot, named `*p`, that holds the input `*p`.
pub struct SeedV {
    pub names: Seq<Seq<char>>,
    pub decl: Seq<usize>,
    pub init: Seq<SymV>,
    /// For each parameter position `1 ..= arg_count`, the slot behind it.
    pub pointee: Seq<Option<usize>>,
}

pub open spec fn seed_upto(body: &Body, k: int) -> SeedV
    decreases k,
{
    if k <= 0 {
        SeedV {
            names: Seq::new(body.n_locals(), |i: int| local_name(body, i)),
            decl: Seq::new(body.n_locals(), |i: int| i as usize),
            init: Seq::new(body.n_locals(), |i: int| SymV::Unknown),
            pointee: seq![None],
        }
    } else {
        let s = seed_upto(body, k - 1);
        let nm = local_name(body, k);
        if body.local_decls@[k].is_ref {
            let slot = s.init.len() as usize;
            SeedV {
                names: s.names.push(star(nm)),
                decl: s.decl.push(k as usize),
                init: s.init.push(SymV::Input(star(nm))).update(k, SymV::Ref { target: slot, name: nm }),
                pointee: s.pointee.push(Some(slot)),
            }
        } else {
            SeedV { init: s.init.update(k, SymV::Input(nm)), pointee: s.pointee.push(None), ..s }
        }
    }
}

pub open spec fn seed_of(body: &Body) -> SeedV {
    seed_upto(body, body.arg_count as int)
}

pub open spec fn start_state(body: &Body) -> SumV {
    let sd = seed_of(body);
    SumV { names: sd.names, decl: sd.decl, env: sd.init, approx: false }
}

/// The final slots of a function and its note: with a reachable cycle, every
/// block run once in block order; else the blocks run in `order` and the
/// state at the `return`s.
pub open spec fn evaluated(body: &Body, sums: Seq<(u64, FnSummary)>, order: Seq<usize>) -> (
    Seq<SymV>,
    Option<Note>,
) {
    if has_reachable_cycle(body) {
        evaluated_in_block_order(body, sums)
    } else {
        evaluated_along(body, sums, order)
    }
}

/// Every block run once in block order, from the seed.
pub open spec fn evaluated_in_block_order(body: &Body, sums: Seq<(u64, FnSummary)>) -> (
    Seq<SymV>,
    Option<Note>,
) {
    (start_state(body).run_blocks(body, sums, body.n_blocks() as int).env, Some(Note::LoopsNotModelled))
}

/// The blocks run in `order` from the seed, and the state at the `return`s.
pub open spec fn evaluated_along(body: &Body, sums: Seq<(u64, FnSummary)>, order: Seq<usize>) -> (
    Seq<SymV>,
    Option<Note>,
) {
    let st0 = start_state(body);
    let c = cfg_run(body, sums, st0.env, cfg_start(st0, body.n_blocks()), order);
    let (env, imp) = cfg_result(c, st0.env.len());
    (
        env,
        if imp || c.st.approx {
            Some(Note::Approximate)
        } else {
            None
        },
    )
}

pub open spec fn param_names(body: &Body) -> Seq<Seq<char>> {
    Seq::new(body.arg_count as nat, |i: int| local_name(body, i + 1))
}

/// The writes of a summary: for each reference parameter among the first
/// `k`, the simplified value behind it, unless that is still its input.
pub open spec fn writes_upto(body: &Body, env: Seq<SymV>, k: int) -> Seq<(usize, SymV)>
    decreases k,
{
    if k <= 0 {
        seq![]
    } else {
        let w = writes_upto(body, env, k - 1);
        match seed_of(body).pointee[k] {
            Some(slot) => {
                let v = spec_simp(env[slot as int]);
                if v != SymV::Input(star(local_name(body, k))) {
                    w.push(((k - 1) as usize, v))
                } else {
                    w
                }
            },
            None => w,
        }
    }
}

pub open spec fn summary_from(body: &Body, env: Seq<SymV>, note: Option<Note>) -> FnSummaryV {
    FnSummaryV {
        params: param_names(body),
        ret: spec_simp(env[0]),
        writes: writes_upto(body, env, body.arg_count as int),
        note,
    }
}

/// `fs` and `env` are the summary and final slots of `body` when its blocks
/// run in `order` (an order that matters only without a reachable cycle).
pub open spec fn summarized_along(
    body: &Body,
    sums: Seq<(u64, FnSummary)>,
    order: Seq<usize>,
    fs: FnSummaryV,
    env: Seq<SymV>,
) -> bool {
    &&& !has_reachable_cycle(body) ==> is_topo_order(body, order)
    &&& env == evaluated(body, sums, order).0
    &&& fs == summary_from(body, env, evaluated(body, sums, order).1)
}

/// The summary's writes name parameters.
pub open spec fn summary_ok(fs: FnSummaryV) -> bool {
    forall|k: int| 0 <= k < fs.writes.len() ==> (#[trigger] fs.writes[k]).0 < fs.params.len()
}

/// The body can be summarized: where its blocks run in a topological order,
/// the entry block is not reached by several edges (the merge there would
/// have no state to start from).
pub open spec fn summarizable(body: &Body) -> bool {
    &&& body.wf()
    &&& !has_reachable_cycle(body) ==> entry_unmerged(body)
}

proof fn lemma_seed_sizes(body: &Body, k: int)
    requires
        body.wf(),
        0 <= k <= body.arg_count,
    ensures
        seed_upto(body, k).names.len() == seed_upto(body, k).init.len(),
        seed_upto(body, k).decl.len() == seed_upto(body, k).init.len(),
        body.n_locals() <= seed_upto(body, k).init.len() <= body.n_locals() + k,
        seed_upto(body, k).pointee.len() == k + 1,
        forall|i: int| 0 <= i < seed_upto(body, k).decl.len() ==> #[trigger] seed_upto(body, k).decl[i] < body.n_locals(),
        forall|i: int|
            0 <= i <= k ==> match #[trigger] seed_upto(body, k).pointee[i] {
                Some(slot) => body.n_locals() <= slot < seed_upto(body, k).init.len(),
                None => true,
            },
    decreases k,
{
    if k > 0 {
        lemma_seed_sizes(body, k - 1);
        let s = seed_upto(body, k - 1);
        let t = seed_upto(body, k);
        assert forall|i: int| 0 <= i <= k implies match #[trigger] t.pointee[i] {
            Some(slot) => body.n_locals() <= slot < t.init.len(),
            None => true,
        } by {
            if i < k {
                assert(t.pointee[i] == s.pointee[i]);
            }
        }
    }
}

proof fn lemma_seed_pointee(body: &Body, k: int)
    requires
        body.wf(),
        0 <= k <= body.arg_count,
    ensures
        forall|i: int| 1 <= i <= k ==> (#[trigger] seed_upto(body, k).pointee[i] is Some <==> body.local_decls@[i].is_ref),
    decreases k,
{
    if k > 0 {
        lemma_seed_pointee(body, k - 1);
        lemma_seed_sizes(body, k - 1);
        let s = seed_upto(body, k - 1);
        let t = seed_upto(body, k);
        assert forall|i: int| 1 <= i <= k implies (#[trigger] t.pointee[i] is Some <==> body.local_decls@[i].is_ref) by {
            if i < k {
                assert(t.pointee[i] == s.pointee[i]);
            }
        }
    }
}

/// A summary writes only through reference parameters: each write names a
/// parameter whose type is a reference, and a function without reference
/// parameters writes nothing.
pub proof fn lemma_writes_through_references(body: &Body, env: Seq<SymV>, k: int)
    requires
        body.wf(),
        0 <= k <= body.arg_count,
    ensures
        forall|q: int|
            0 <= q < writes_upto(body, env, k).len() ==> (#[trigger] writes_upto(body, env, k)[q]).0 < k
                && body.local_decls@[writes_upto(body, env, k)[q].0 + 1].is_ref,
    decreases k,
{
    if k > 0 {
        lemma_writes_through_references(body, env, k - 1);
        lemma_seed_pointee(body, body.arg_count as int);
        lemma_seed_sizes(body, body.arg_count as int);
        assert(seed_of(body).pointee[k] is Some <==> body.local_decls@[k].is_ref);
        let w = writes_upto(body, env, k - 1);
        assert forall|q: int| 0 <= q < writes_upto(body, env, k).len() implies (#[trigger] writes_upto(
            body,
            env,
            k,
        )[q]).0 < k && body.local_decls@[writes_upto(body, env, k)[q].0 + 1].is_ref by {
            if q < w.len() {
                assert(writes_upto(body, env, k)[q] == w[q]);
            }
        }
    }
}

fn star_name(nm: &String) -> (r: String)
    ensures
        r@ == star(nm@),
{
    let r = crate::text::wrap("*", nm, "");
    proof {
        reveal_strlit("*");
        reveal_strlit("");
        assert(r@ =~= star(nm@));
    }
    r
}

/// The seed of the slots, with the names of the parameters.
fn seed(body: &Body) -> (r: (Vec<String>, Vec<usize>, Vec<Sym>, Vec<Option<usize>>, Vec<String>, Vec<String>))
    requires
        body.wf(),
    ensures
        views(r.0@) == seed_of(body).names,
        r.1@ == seed_of(body).decl,
        syms_view(r.2@) == seed_of(body).init,
        r.3@ == seed_of(body).pointee,
        r.0@.len() == r.2@.len(),
        views(r.4@) == param_names(body),
        r.4@.len() == body.arg_count,
        r.5@.len() == body.n_locals(),
        forall|i: int| 0 <= i < body.n_locals() ==> (#[trigger] r.5@[i])@ == local_name(body, i),
{
    let names0 = crate::cfg::local_names(body);
    let n = body.local_decls.len();
    let ac = body.arg_count;
    let mut names = crate::heap::clone_strings(&names0);
    let mut decl: Vec<usize> = Vec::new();
    let mut j: usize = 0;
    while j < n
        invariant
            j <= n,
            n == body.n_locals(),
            decl@.len() == j,
            forall|q: int| 0 <= q < j ==> #[trigger] decl@[q] == q,
        decreases n - j,
    {
        decl.push(j);
        j = j + 1;
    }
    let mut init = unknowns(n);
    let mut pointee: Vec<Option<usize>> = Vec::new();
    pointee.push(None);
    let mut params: Vec<String> = Vec::new();
    proof {
        assert(views(names@) =~= seed_upto(body, 0).names);
        assert(decl@ =~= seed_upto(body, 0).decl);
        assert(pointee@ =~= seed_upto(body, 0).pointee);
    }
    let mut i: usize = 1;
    while i <= ac
        invariant
            1 <= i <= ac + 1,
            ac == body.arg_count,
            body.wf(),
            n == body.n_locals(),
            names0@.len() == n,
            forall|q: int| 0 <= q < n ==> (#[trigger] names0@[q])@ == local_name(body, q),
            views(names@) == seed_upto(body, i - 1).names,
            decl@ == seed_upto(body, i - 1).decl,
            syms_view(init@) == seed_upto(body, i - 1).init,
            pointee@ == seed_upto(body, i - 1).pointee,
            params@.len() == i - 1,
            forall|k: int| 0 <= k < i - 1 ==> (#[trigger] params@[k])@ == local_name(body, k + 1),
        decreases ac + 1 - i,
    {
        proof {
            lemma_seed_sizes(body, i - 1);
            lemma_syms_view(init@);
        }
        let nm = &names0[i];
        if body.local_decls[i].is_ref {
            let slot = init.len();
            let pn = star_name(nm);
            let pn2 = star_name(nm);
            let x = Sym::Input(pn);
            proof {
                lemma_syms_view_push(init@, x);
            }
            init.push(x);
            names.push(pn2);
            decl.push(i);
            let y = Sym::Ref { target: slot, name: nm.clone() };
            proof {
                lemma_syms_view_update(init@, i as int, y);
            }
            init.set(i, y);
            pointee.push(Some(slot));
            proof {
                assert(views(names@) =~= seed_upto(body, i as int).names);
            }
        } else {
            let y = Sym::Input(nm.clone());
            proof {
                lemma_syms_view_update(init@, i as int, y);
            }
            init.set(i, y);
            pointee.push(None);
        }
        params.push(nm.clone());
        proof {
            assert(names0@[i as int]@ == local_name(body, i as int));
        }
        i = i + 1;
    }
    proof {
        assert(views(params@) =~= param_names(body));
        lemma_seed_sizes(body, ac as int);
        lemma_syms_view(init@);
    }
    (names, decl, init, pointee, params, names0)
}

impl<'a> crate::walk::Visitor for Summary<'a> {
    type Model = (SumV, Seq<(u64, FnSummary)>);

    open spec fn model(&self) -> (SumV, Seq<(u64, FnSummary)>) {
        (self@, self.summaries@)
    }

    open spec fn fits(&self, body: &Body) -> bool {
        &&& self.ready()
        &&& *self.body == *body
    }

    open spec fn on_block(m: (SumV, Seq<(u64, FnSummary)>), body: &Body, bb: int) -> (
        SumV,
        Seq<(u64, FnSummary)>,
    ) {
        m
    }

    open spec fn on_statement(m: (SumV, Seq<(u64, FnSummary)>), body: &Body, s: Statement) -> (
        SumV,
        Seq<(u64, FnSummary)>,
    ) {
        (m.0.statement(body, s), m.1)
    }

    open spec fn on_terminator(m: (SumV, Seq<(u64, FnSummary)>), body: &Body, t: Terminator) -> (
        SumV,
        Seq<(u64, FnSummary)>,
    ) {
        (m.0.terminator(body, t, m.1), m.1)
    }

    fn block(&mut self, body: &Body, bb: usize) {
    }

    fn statement(&mut self, body: &Body, stmt: &Statement) {
        self.apply_statement(stmt);
    }

    fn terminator(&mut self, body: &Body, term: &Terminator) {
        self.apply_terminator(term);
    }
}

proof fn lemma_writes_keep_names(st: SumV, writes: Seq<(usize, SymV)>, params: Seq<Seq<char>>, actuals: Seq<SymV>)
    ensures
        st.apply_writes(writes, params, actuals).names == st.names,
    decreases writes.len(),
{
    if writes.len() > 0 {
        lemma_writes_keep_names(st, writes.drop_last(), params, actuals);
    }
}

proof fn lemma_stmts_keep_names(st: SumV, body: &Body, ss: Seq<Statement>)
    ensures
        st.run_stmts(body, ss).names == st.names,
    decreases ss.len(),
{
    if ss.len() > 0 {
        lemma_stmts_keep_names(st, body, ss.drop_last());
    }
}

/// Running blocks changes the slots' values only, never their names.
proof fn lemma_blocks_keep_names(st: SumV, body: &Body, sums: Seq<(u64, FnSummary)>, k: int)
    ensures
        st.run_blocks(body, sums, k).names == st.names,
    decreases k,
{
    if k > 0 {
        lemma_blocks_keep_names(st, body, sums, k - 1);
        let s1 = st.run_blocks(body, sums, k - 1);
        let data = body.basic_blocks@[k - 1];
        lemma_stmts_keep_names(s1, body, data.statements@);
        let s2 = s1.run_stmts(body, data.statements@);
        match data.terminator.kind {
            TerminatorKind::Call { func, args, destination, .. } => {
                let actuals = s2.operands(body, args@);
                match summary_of(sums, func) {
                    Some(fs) => {
                        let s3 = if fs.note is Some {
                            SumV { approx: true, ..s2 }
                        } else {
                            s2
                        };
                        lemma_writes_keep_names(s3, fs.writes, fs.params, actuals);
                    },
                    None => {},
                }
            },
            _ => {},
        }
    }
}

proof fn lemma_walk_stmts(st: SumV, sums: Seq<(u64, FnSummary)>, body: &Body, ss: Seq<Statement>)
    ensures
        crate::walk::walk_stmts::<Summary>((st, sums), body, ss) == (st.run_stmts(body, ss), sums),
    decreases ss.len(),
{
    if ss.len() > 0 {
        lemma_walk_stmts(st, sums, body, ss.drop_last());
    }
}

/// Walking the evaluator over the blocks is running them in block order.
proof fn lemma_walk_blocks(st: SumV, sums: Seq<(u64, FnSummary)>, body: &Body, k: int)
    ensures
        crate::walk::walk_blocks::<Summary>((st, sums), body, k) == (st.run_blocks(body, sums, k), sums),
    decreases k,
{
    if k > 0 {
        lemma_walk_blocks(st, sums, body, k - 1);
        let s1 = st.run_blocks(body, sums, k - 1);
        lemma_walk_stmts(s1, sums, body, body.basic_blocks@[k - 1].statements@);
    }
}

/// The writes of the summary, from the final slots.
fn summary_writes(body: &Body, env: &Vec<Sym>, pointee: &Vec<Option<usize>>, params: &Vec<String>) -> (w: Vec<
    (usize, Sym),
>)
    requires
        body.wf(),
        pointee@ == seed_of(body).pointee,
        pointee@.len() == body.arg_count + 1,
        forall|q: int| 0 <= q <= body.arg_count ==> match #[trigger] pointee@[q] {
            Some(slot) => slot < env@.len(),
            None => true,
        },
        views(params@) == param_names(body),
        params@.len() == body.arg_count,
    ensures
        writes_view(w@) == writes_upto(body, syms_view(env@), body.arg_count as int),
        forall|k: int| 0 <= k < w@.len() ==> (#[trigger] w@[k]).0 < body.arg_count,
{
    let ac = body.arg_count;
    let ghost ev = syms_view(env@);
    proof {
        lemma_syms_view(env@);
        assert(writes_view(Seq::<(usize, Sym)>::empty()) =~= Seq::<(usize, SymV)>::empty());
    }
    let mut writes: Vec<(usize, Sym)> = Vec::new();
    let mut i: usize = 1;
    while i <= ac
        invariant
            1 <= i <= ac + 1,
            ac == body.arg_count,
            body.wf(),
            pointee@ == seed_of(body).pointee,
            pointee@.len() == ac + 1,
            forall|q: int| 0 <= q <= ac ==> match #[trigger] pointee@[q] {
                Some(slot) => slot < env@.len(),
                None => true,
            },
            ev == syms_view(env@),
            ev.len() == env@.len(),
            forall|q: int| 0 <= q < env@.len() ==> #[trigger] ev[q] == sym_view(env@[q]),
            views(params@) == param_names(body),
            params@.len() == ac,
            writes_view(writes@) == writes_upto(body, ev, i - 1),
            forall|k: int| 0 <= k < writes@.len() ==> (#[trigger] writes@[k]).0 < i - 1,
        decreases ac + 1 - i,
    {
        let ghost pt = pointee@[i as int];
        if let Some(slot) = pointee[i] {
            let v = simplify(&env[slot]);
            let pn = star_name(&params[i - 1]);
            proof {
                assert(views(params@)[i - 1] == params@[i - 1]@);
                assert(param_names(body)[i - 1] == local_name(body, i as int));
            }
            let input = Sym::Input(pn);
            if !v.same(&input) {
                let ghost before = writes@;
                let p = i - 1;
                writes.push((p, v));
                proof {
                    assert(writes_view(writes@) =~= writes_view(before).push((p, writes@.last().1@)));
                }
            }
        }
        i = i + 1;
    }
    writes
}

/// The final slots of a function run from its seed, with the note on how
/// approximate they are.
#[verifier::rlimit(40)]
fn final_slots(s: &mut Summary, init: &Vec<Sym>) -> (r: (Vec<Sym>, Option<Note>, Ghost<Seq<usize>>))
    requires
        old(s).ready(),
        summarizable(old(s).body),
        old(s)@ == start_state(old(s).body),
        syms_view(init@) == seed_of(old(s).body).init,
        init@.len() == old(s).env@.len(),
    ensures
        r.2@ == block_order(old(s).body),
        (!has_reachable_cycle(old(s).body) ==> is_topo_order(old(s).body, r.2@)),
        (syms_view(r.0@), r.1) == evaluated(old(s).body, old(s).summaries@, r.2@),
        r.0@.len() == init@.len(),
{
    let body = s.body;
    proof {
        lemma_syms_view(init@);
    }
    match crate::cfg::topo_order(body) {
        Some(order) => {
            proof {
                crate::cfg::lemma_topo_order_acyclic(body, order@);
            }
            let ghost st0 = s@;
            let (env, imprecise) = s.eval_cfg(&order, init);
            let note = if imprecise || s.approx_call {
                Some(Note::Approximate)
            } else {
                None
            };
            proof {
                assert((syms_view(env@), note) == evaluated_along(body, s.summaries@, order@));
            }
            (env, note, Ghost(order@))
        },
        None => {
            let ghost st0 = s@;
            let ghost sums0 = s.summaries@;
            crate::walk::walk(body, s);
            proof {
                lemma_walk_blocks(st0, sums0, body, body.n_blocks() as int);
                lemma_blocks_keep_names(st0, body, sums0, body.n_blocks() as int);
            }
            let env = copy_all(&s.env);
            proof {
                lemma_syms_view(env@);
                lemma_syms_view(s.env@);
                assert((syms_view(env@), Some(Note::LoopsNotModelled)) == evaluated_in_block_order(body, s.summaries@));
            }
            (env, Some(Note::LoopsNotModelled), Ghost(Seq::empty()))
        },
    }
}

/// The summary of one function given the summaries of the functions it may
/// call, and its final slots.
pub fn summarize_fn(body: &Body, summaries: &Vec<(u64, FnSummary)>) -> (r: (FnSummary, Vec<Sym>))
    requires
        summarizable(body),
    ensures
        summarized_along(body, summaries@, block_order(body), r.0@, syms_view(r.1@)),
        summary_ok(r.0@),
        r.1@.len() == seed_of(body).init.len(),
{
    let (names, decl, init, pointee, params, _names0) = seed(body);
    proof {
        lemma_seed_sizes(body, body.arg_count as int);
        lemma_syms_view(init@);
    }
    let mut s = Summary { body, summaries, names, decl, env: copy_all(&init), approx_call: false };
    proof {
        lemma_syms_view(s.env@);
        assert(s@ == start_state(body));
    }
    let (env, note, Ghost(order)) = final_slots(&mut s, &init);
    proof {
        lemma_syms_view(env@);
        assert forall|q: int| 0 <= q <= body.arg_count implies match #[trigger] pointee@[q] {
            Some(slot) => slot < env@.len(),
            None => true,
        } by {
            lemma_seed_sizes(body, body.arg_count as int);
        }
    }
    let writes = summary_writes(body, &env, &pointee, &params);
    let ret = simplify(&env[0]);
    let fs = FnSummary { params, ret, writes, note };
    proof {
        assert(summarized_along(body, summaries@, order, fs@, syms_view(env@)));
    }
    (fs, env)
}

// ---------------------------------------------------------------------------
// Summarizing the crate.
// ---------------------------------------------------------------------------

/// `fs` is what summarizing `body` with `sums` gives.
pub open spec fn summarized(body: &Body, sums: Seq<(u64, FnSummary)>, fs: FnSummaryV) -> bool {
    exists|env: Seq<SymV>| #[trigger] summarized_along(body, sums, block_order(body), fs, env)
}

/// Entry `j` names `order[j]` and is the summary of that function given the
/// entries before it.
pub open spec fn summary_entry(funcs: Seq<FnEntry>, order: Seq<u64>, sums: Seq<(u64, FnSummary)>, j: int) -> bool {
    &&& sums[j].0 == order[j]
    &&& summarized(&body_of(funcs, order[j]), sums.take(j), sums[j].1@)
    &&& summary_ok(sums[j].1@)
}

/// The summaries are built callee-first along `order`, a call order of the
/// crate that lists each function once.
pub open spec fn crate_summaries(funcs: Seq<FnEntry>, order: Seq<u64>, sums: Seq<(u64, FnSummary)>) -> bool {
    &&& order.no_duplicates()
    &&& forall|i: int| 0 <= i < funcs.len() ==> order.contains(#[trigger] funcs[i].def_id)
    &&& forall|p: int| 0 <= p < order.len() ==> fn_ids(funcs).contains(#[trigger] order[p])
    &&& sums.len() == order.len()
    &&& forall|j: int| 0 <= j < order.len() ==> #[trigger] summary_entry(funcs, order, sums, j)
}

/// Every function of the crate can be summarized.
pub open spec fn crate_summarizable(funcs: Seq<FnEntry>) -> bool {
    &&& funcs_wf(funcs)
    &&& forall|i: int| 0 <= i < funcs.len() ==> summarizable(&(#[trigger] funcs[i]).body)
}

/// A unary operator is kept in the symbolic value: `!v` is `Un("!", v)`
/// whatever `v` is, and `-v` is `Un("-", v)` unless `v` is a constant whose
/// negation fits, which folds to that negation.
pub proof fn lemma_unary_operators_are_kept(st: SumV, body: &Body, op: UnOp, o: Operand, text: String)
    ensures
        ({
            let v = st.operand(body, o);
            let r = st.rvalue(body, Rvalue { kind: RvalueKind::UnaryOp(op, o), text });
            &&& op is Not ==> r == SymV::Un(seq!['!'], Box::new(v))
            &&& (op is Neg && !(v is Const)) ==> r == SymV::Un(seq!['-'], Box::new(v))
            &&& (op is Neg && v is Const && v->Const_0 != i128::MIN) ==> r == SymV::Const((-v->Const_0) as i128)
            &&& (op is Neg && v is Const && v->Const_0 == i128::MIN) ==> r == SymV::Un(seq!['-'], Box::new(v))
        }),
{
    assert(seq!['!'][0] != seq!['-'][0]);
    assert(seq!['!'] != seq!['-']);
}

/// Whether the crate can be summarized: its bodies are well formed with
/// distinct ids, and no body without a reachable cycle has an entry block
/// joined by several edges.
pub fn is_crate_summarizable(funcs: &Vec<FnEntry>) -> (r: bool)
    ensures
        r == crate_summarizable(funcs@),
{
    if !crate::mir::funcs_ok(funcs) {
        return false;
    }
    let mut i: usize = 0;
    while i < funcs.len()
        invariant
            i <= funcs@.len(),
            funcs_wf(funcs@),
            forall|j: int| 0 <= j < i ==> summarizable(&(#[trigger] funcs@[j]).body),
        decreases funcs@.len() - i,
    {
        assert(funcs@[i as int].body.wf());
        if !crate::cfg::has_loop(&funcs[i].body) {
            let preds = crate::mir::predecessors(&funcs[i].body);
            if preds[0].len() >= 2 {
                assert(!summarizable(&funcs@[i as int].body));
                return false;
            }
        }
        i = i + 1;
    }
    true
}

/// The summary of every function of the crate, callee-first: each function is
/// summarized with the summaries of the functions before it in the call
/// order.
pub fn summarize_crate(funcs: &Vec<FnEntry>) -> (r: Vec<(u64, FnSummary)>)
    requires
        crate_summarizable(funcs@),
    ensures
        crate_summaries(funcs@, crate::cfg::crate_order(funcs@), r@),
{
    let graph = crate::cfg::call_graph(funcs);
    proof {
        crate::heap::lemma_call_graph_ok(funcs@, graph@);
        assert(crate::cfg::graph_seqs(graph@) =~= crate::cfg::crate_graph(funcs@));
    }
    let order = crate::cfg::call_order(funcs, &graph);
    let mut summaries: Vec<(u64, FnSummary)> = Vec::new();
    let mut k: usize = 0;
    while k < order.len()
        invariant
            k <= order@.len(),
            crate_summarizable(funcs@),
            forall|p: int| 0 <= p < order@.len() ==> fn_ids(funcs@).contains(#[trigger] order@[p]),
            summaries@.len() == k,
            forall|j: int| 0 <= j < k ==> #[trigger] summary_entry(funcs@, order@, summaries@, j),
        decreases order@.len() - k,
    {
        let d = order[k];
        assert(fn_ids(funcs@).contains(order@[k as int]));
        let i = crate::heap::index_of_fn(funcs, d);
        assert(summarizable(&funcs@[i as int].body));
        let (fs, _env) = summarize_fn(&funcs[i].body, &summaries);
        let ghost prev = summaries@;
        summaries.push((d, fs));
        proof {
            assert(summaries@.take(k as int) =~= prev);
            lemma_body_of(funcs@, i as int);
            assert forall|j: int| 0 <= j < k + 1 implies #[trigger] summary_entry(
                funcs@,
                order@,
                summaries@,
                j,
            ) by {
                assert(summaries@.take(j) =~= prev.take(j));
                if j < k {
                    assert(summary_entry(funcs@, order@, prev, j));
                } else {
                    assert(summarized_along(
                        &body_of(funcs@, d),
                        summaries@.take(j),
                        block_order(&body_of(funcs@, d)),
                        summaries@[j].1@,
                        syms_view(_env@),
                    ));
                }
            }
        }
        k = k + 1;
    }
    proof {
        assert(crate_summaries(funcs@, order@, summaries@));
    }
    summaries
}

/// The values of the locals of function `i`, printed: each the simplified
/// final value of the slot.
pub open spec fn values_of(funcs: Seq<FnEntry>, sums: Seq<(u64, FnSummary)>, i: int, vals: Seq<String>) -> bool {
    exists|fs: FnSummaryV, env: Seq<SymV>|
        #[trigger] summarized_along(&funcs[i].body, sums, block_order(&funcs[i].body), fs, env) && vals.len()
            == funcs[i].body.n_locals() && forall|k: int|
            0 <= k < vals.len() ==> (#[trigger] vals[k])@ == crate::sym::sym_text(spec_simp(env[k]))
}

/// For each function of the crate, the printed symbolic values of its
/// locals, evaluated with the summaries of the whole crate.
pub fn local_values(funcs: &Vec<FnEntry>) -> (r: Vec<(u64, Vec<String>)>)
    requires
        crate_summarizable(funcs@),
    ensures
        r@.len() == funcs@.len(),
        exists|sums: Seq<(u64, FnSummary)>|
            #[trigger] crate_summaries(funcs@, crate::cfg::crate_order(funcs@), sums) && forall|i: int|
                0 <= i < funcs@.len() ==> (#[trigger] r@[i]).0 == funcs@[i].def_id && values_of(
                    funcs@,
                    sums,
                    i,
                    r@[i].1@,
                ),
{
    let summaries = summarize_crate(funcs);
    let mut out: Vec<(u64, Vec<String>)> = Vec::new();
    let mut i: usize = 0;
    while i < funcs.len()
        invariant
            i <= funcs@.len(),
            crate_summarizable(funcs@),
            out@.len() == i,
            forall|j: int|
                0 <= j < i ==> (#[trigger] out@[j]).0 == funcs@[j].def_id && values_of(
                    funcs@,
                    summaries@,
                    j,
                    out@[j].1@,
                ),
        decreases funcs@.len() - i,
    {
        let body = &funcs[i].body;
        assert(summarizable(&funcs@[i as int].body));
        let (fs, env) = summarize_fn(body, &summaries);
        proof {
            lemma_seed_sizes(body, body.arg_count as int);
            lemma_syms_view(env@);
        }
        let n = body.local_decls.len();
        let mut vals: Vec<String> = Vec::new();
        let mut k: usize = 0;
        while k < n
            invariant
                k <= n,
                n <= env@.len(),
                vals@.len() == k,
                forall|q: int| 0 <= q < k ==> (#[trigger] vals@[q])@ == crate::sym::sym_text(spec_simp(sym_view(env@[q]))),
            decreases n - k,
        {
            vals.push(simplify(&env[k]).to_text());
            k = k + 1;
        }
        proof {
            assert(summarized_along(&funcs@[i as int].body, summaries@, block_order(body), fs@, syms_view(env@)));
            assert forall|q: int| 0 <= q < vals@.len() implies (#[trigger] vals@[q])@ == crate::sym::sym_text(
                spec_simp(syms_view(env@)[q]),
            ) by {}
        }
        out.push((funcs[i].def_id, vals));
        proof {
            assert forall|j: int| 0 <= j < i + 1 implies (#[trigger] out@[j]).0 == funcs@[j].def_id && values_of(
                funcs@,
                summaries@,
                j,
                out@[j].1@,
            ) by {
                if j < i {
                }
            }
        }
        i = i + 1;
    }
    out
}

// ---------------------------------------------------------------------------
// Printing summaries.
// ---------------------------------------------------------------------------

pub open spec fn write_text(params: Seq<Seq<char>>, w: (usize, SymV)) -> Seq<char> {
    "writes *"@ + params[w.0 as int] + " = "@ + crate::sym::sym_text(w.1)
}

/// The printed summary: each write, then what it returns, separated by
/// `"; "`, and the note in parentheses.
pub open spec fn summary_text(fs: FnSummaryV) -> Seq<char> {
    let parts = Seq::new(fs.writes.len(), |k: int| write_text(fs.params, fs.writes[k])).push(
        "returns "@ + crate::sym::sym_text(fs.ret),
    );
    joined(parts, "; "@) + match fs.note {
        Some(n) => "  ("@ + n.text_of() + ")"@,
        None => seq![],
    }
}

impl FnSummary {
    pub fn to_text(&self) -> (r: String)
        requires
            summary_ok(self@),
        ensures
            r@ == summary_text(self@),
    {
        let ghost v = self@;
        let mut parts: Vec<String> = Vec::new();
        let mut k: usize = 0;
        while k < self.writes.len()
            invariant
                k <= self.writes@.len(),
                v == self@,
                summary_ok(v),
                parts@.len() == k,
                forall|q: int| 0 <= q < k ==> (#[trigger] parts@[q])@ == write_text(v.params, v.writes[q]),
            decreases self.writes@.len() - k,
        {
            let p = self.writes[k].0;
            proof {
                assert(v.writes[k as int] == (p, self.writes@[k as int].1@));
                assert(v.params[p as int] == self.params@[p as int]@);
            }
            let mut t = text("writes *");
            put(&mut t, self.params[p].as_str());
            put(&mut t, " = ");
            put(&mut t, self.writes[k].1.to_text().as_str());
            parts.push(t);
            k = k + 1;
        }
        let mut t = text("returns ");
        put(&mut t, self.ret.to_text().as_str());
        parts.push(t);
        proof {
            assert(views(parts@) =~= Seq::new(v.writes.len(), |k: int| write_text(v.params, v.writes[k])).push(
                "returns "@ + crate::sym::sym_text(v.ret),
            ));
        }
        let mut out = join(&parts, "; ");
        if let Some(n) = self.note {
            put(&mut out, "  (");
            put(&mut out, n.text());
            put(&mut out, ")");
        }
        out
    }
}

/// Every function of the crate has a summary, and each summary's writes name
/// its parameters.
pub open spec fn summaries_cover(funcs: Seq<FnEntry>, sums: Seq<(u64, FnSummary)>) -> bool {
    forall|i: int|
        0 <= i < funcs.len() ==> match #[trigger] lookup(sums, funcs[i].def_id) {
            Some(fs) => summary_ok(fs@),
            None => false,
        }
}

proof fn lemma_lookup_absent<T>(s: Seq<(u64, T)>, id: u64)
    requires
        forall|k: int| 0 <= k < s.len() ==> (#[trigger] s[k]).0 != id,
    ensures
        lookup(s, id) is None,
    decreases s.len(),
{
    if s.len() > 0 {
        lemma_lookup_absent(s.drop_last(), id);
    }
}

/// Summaries built along a call order cover every function of the crate.
pub proof fn lemma_crate_summaries_cover(funcs: Seq<FnEntry>, order: Seq<u64>, sums: Seq<(u64, FnSummary)>)
    requires
        crate_summaries(funcs, order, sums),
    ensures
        summaries_cover(funcs, sums),
{
    assert forall|i: int| 0 <= i < funcs.len() implies match #[trigger] lookup(sums, funcs[i].def_id) {
        Some(fs) => summary_ok(fs@),
        None => false,
    } by {
        let id = funcs[i].def_id;
        assert(order.contains(id));
        let j = choose|j: int| 0 <= j < order.len() && order[j] == id;
        assert(summary_entry(funcs, order, sums, j));
        assert forall|k: int| 0 <= k < sums.take(j).len() implies (#[trigger] sums.take(j)[k]).0 != id by {
            assert(summary_entry(funcs, order, sums, k));
        }
        lemma_lookup_absent(sums.take(j), id);
        assert(sums.take(j + 1).drop_last() =~= sums.take(j));
        crate::heap::lemma_lookup_prefix(sums, j + 1, id);
    }
}

/// The position of the function `id` among the functions of the crate.
pub open spec fn index_in(funcs: Seq<FnEntry>, id: u64) -> int {
    choose|j: int| 0 <= j < funcs.len() && funcs[j].def_id == id
}

pub open spec fn node_line(funcs: Seq<FnEntry>, sums: Seq<(u64, FnSummary)>, i: int) -> Seq<char> {
    let fs = lookup(sums, funcs[i].def_id).unwrap()@;
    let head = escaped(funcs[i].path@ + "("@ + joined(fs.params, ", "@) + ")"@);
    let style = if fs.note is Some {
        ", style=dashed"@
    } else {
        ""@
    };
    "  n"@ + dec(i as nat) + " [label=\""@ + head + "\\n"@ + escaped(summary_text(fs)) + "\""@ + style + "];"@
}

pub open spec fn callee_lines(funcs: Seq<FnEntry>, i: int, callees: Seq<u64>) -> Seq<Seq<char>> {
    Seq::new(
        callees.len(),
        |k: int| "  n"@ + dec(i as nat) + " -> n"@ + dec(index_in(funcs, callees[k]) as nat) + ";"@,
    )
}

/// The call-graph edges of the first `k` functions.
pub open spec fn edge_lines(funcs: Seq<FnEntry>, k: int) -> Seq<Seq<char>>
    decreases k,
{
    if k <= 0 {
        seq![]
    } else {
        edge_lines(funcs, k - 1) + callee_lines(
            funcs,
            k - 1,
            crate::cfg::distinct_in(crate::cfg::named_callees(funcs[k - 1].body.basic_blocks@), fn_ids(funcs)),
        )
    }
}

/// The call graph in Graphviz form: one box per function with its summary
/// (dashed when approximate), one edge per direct callee in the crate.
pub open spec fn calls_dot(funcs: Seq<FnEntry>, sums: Seq<(u64, FnSummary)>) -> Seq<Seq<char>> {
    seq!["digraph calls {"@, "  node [shape=box, fontname=monospace];"@] + Seq::new(
        funcs.len(),
        |i: int| node_line(funcs, sums, i),
    ) + edge_lines(funcs, funcs.len() as int) + seq!["}"@]
}

fn node_text(f: &FnEntry, fs: &FnSummary, i: usize) -> (r: String)
    requires
        summary_ok(fs@),
    ensures
        r@ == "  n"@ + dec(i as nat) + " [label=\""@ + escaped(f.path@ + "("@ + joined(fs@.params, ", "@) + ")"@)
            + "\\n"@ + escaped(summary_text(fs@)) + "\""@ + (if fs@.note is Some {
            ", style=dashed"@
        } else {
            ""@
        }) + "];"@,
{
    let mut sig = f.path.clone();
    put(&mut sig, "(");
    put(&mut sig, join(&fs.params, ", ").as_str());
    put(&mut sig, ")");
    let head = escape(sig.as_str());
    let summary = escape(fs.to_text().as_str());
    let mut line = text("  n");
    put(&mut line, fmt_usize(i).as_str());
    put(&mut line, " [label=\"");
    put(&mut line, head.as_str());
    put(&mut line, "\\n");
    put(&mut line, summary.as_str());
    put(&mut line, "\"");
    if fs.note.is_some() {
        put(&mut line, ", style=dashed");
    } else {
        put(&mut line, "");
    }
    put(&mut line, "];");
    line
}

/// The call graph of the crate with each function's summary, as the lines of
/// a Graphviz file.
pub fn emit_dot(funcs: &Vec<FnEntry>, summaries: &Vec<(u64, FnSummary)>) -> (r: Vec<String>)
    requires
        funcs_wf(funcs@),
        summaries_cover(funcs@, summaries@),
    ensures
        views(r@) == calls_dot(funcs@, summaries@),
{
    let in_crate = crate::cfg::crate_ids(funcs);
    let mut lines: Vec<String> = Vec::new();
    lines.push(text("digraph calls {"));
    lines.push(text("  node [shape=box, fontname=monospace];"));
    let mut i: usize = 0;
    while i < funcs.len()
        invariant
            i <= funcs@.len(),
            funcs_wf(funcs@),
            summaries_cover(funcs@, summaries@),
            views(lines@) == seq!["digraph calls {"@, "  node [shape=box, fontname=monospace];"@] + Seq::new(
                i as nat,
                |j: int| node_line(funcs@, summaries@, j),
            ),
        decreases funcs@.len() - i,
    {
        let id = funcs[i].def_id;
        proof {
            assert(match lookup(summaries@, funcs@[i as int].def_id) {
                Some(fs) => summary_ok(fs@),
                None => false,
            });
        }
        match find_key(summaries, id) {
            Some(k) => {
                let line = node_text(&funcs[i], &summaries[k].1, i);
                let ghost before = lines@;
                lines.push(line);
                proof {
                    assert(views(lines@) =~= views(before).push(line@));
                    assert(views(lines@) =~= seq!["digraph calls {"@, "  node [shape=box, fontname=monospace];"@]
                        + Seq::new((i + 1) as nat, |j: int| node_line(funcs@, summaries@, j)));
                }
            },
            None => {},
        }
        i = i + 1;
    }
    let ghost head = views(lines@);
    let mut i: usize = 0;
    while i < funcs.len()
        invariant
            i <= funcs@.len(),
            funcs_wf(funcs@),
            in_crate@ == fn_ids(funcs@),
            views(lines@) == head + edge_lines(funcs@, i as int),
        decreases funcs@.len() - i,
    {
        let callees = crate::cfg::direct_callees(&funcs[i].body, &in_crate);
        let ghost before = views(lines@);
        let mut k: usize = 0;
        while k < callees.len()
            invariant
                k <= callees@.len(),
                i < funcs@.len(),
                funcs_wf(funcs@),
                in_crate@ == fn_ids(funcs@),
                callees@ == crate::cfg::distinct_in(crate::cfg::named_callees(funcs@[i as int].body.basic_blocks@), fn_ids(funcs@)),
                views(lines@) == before + callee_lines(funcs@, i as int, callees@).take(k as int),
            decreases callees@.len() - k,
        {
            proof {
                crate::heap::lemma_distinct_in_kept(crate::cfg::named_callees(funcs@[i as int].body.basic_blocks@), fn_ids(funcs@));
            }
            let j = crate::heap::index_of_fn(funcs, callees[k]);
            proof {
                let w = index_in(funcs@, callees@[k as int]);
                assert(funcs@[w].def_id == callees@[k as int]);
                assert(w == j);
            }
            let mut line = text("  n");
            put(&mut line, fmt_usize(i).as_str());
            put(&mut line, " -> n");
            put(&mut line, fmt_usize(j).as_str());
            put(&mut line, ";");
            let ghost prev = lines@;
            lines.push(line);
            proof {
                assert(views(lines@) =~= views(prev).push(line@));
                assert(callee_lines(funcs@, i as int, callees@).take(k + 1) =~= callee_lines(funcs@, i as int, callees@).take(k as int).push(line@));
                assert(views(lines@) =~= before + callee_lines(funcs@, i as int, callees@).take(k + 1));
            }
            k = k + 1;
        }
        proof {
            assert(callee_lines(funcs@, i as int, callees@).take(callees@.len() as int) =~= callee_lines(funcs@, i as int, callees@));
            assert(views(lines@) =~= head + edge_lines(funcs@, i + 1));
        }
        i = i + 1;
    }
    let ghost prev = lines@;
    lines.push(text("}"));
    proof {
        assert(views(lines@) =~= views(prev).push("}"@));
        assert(views(lines@) =~= calls_dot(funcs@, summaries@));
    }
    lines
}

} // verus!
