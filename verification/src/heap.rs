//! The heap/borrow model: each function's locals own cells of an abstract
//! heap, borrows put cells into shared or mutable states for the span of the
//! borrowing local's lifetime, and every access that breaks the rules is
//! recorded as undefined behaviour.
use vstd::prelude::*;

use crate::mir::{
    BasicBlockData, BinOp, Body, Constant, Operand, Place, Rvalue, RvalueKind, Statement, StatementKind,
    Terminator, TerminatorKind, UnOp, operand_locals, operand_ok, rvalue_locals, rvalue_ok, steps_upto,
    terminator_locals, callee_def_id, FnEntry, funcs_wf,
    single_deref,
};
use crate::cfg::fn_ids;
use crate::text::{dec, dec_int, fmt_i128, fmt_usize, put, text, wrap, wrap2};

verus! {

/// A span of program points `start..end` during which a local is live.
#[derive(Clone, Copy)]
pub struct Lifetime {
    pub id: usize,
    pub start: usize,
    pub end: usize,
}

impl Lifetime {
    pub open spec fn is_active(self, step: int) -> bool {
        self.start <= step < self.end
    }

    pub open spec fn spec_contains(self, inner: Lifetime) -> bool {
        self.start <= inner.start && inner.end <= self.end
    }

    /// The lifetime covers program point `step`.
    pub fn active(&self, step: usize) -> (r: bool)
        ensures
            r == self.is_active(step as int),
    {
        self.start <= step && step < self.end
    }

    /// `inner` lies within this lifetime.
    pub fn contains(&self, inner: &Lifetime) -> (r: bool)
        ensures
            r == self.spec_contains(*inner),
    {
        self.start <= inner.start && inner.end <= self.end
    }
}

/// Containment of lifetimes is reflexive and transitive, and a lifetime that
/// contains an active one is active too.
pub proof fn lemma_lifetime_contains(a: Lifetime, b: Lifetime, c: Lifetime, step: int)
    ensures
        a.spec_contains(a),
        a.spec_contains(b) && b.spec_contains(c) ==> a.spec_contains(c),
        a.spec_contains(b) && b.is_active(step) ==> a.is_active(step),
{
}

/// How a local holds its cell.
#[derive(Clone, Copy)]
pub enum Ownership {
    Owned(usize, Lifetime),
    MutOwned(usize, Lifetime),
    SharedRef(usize, Lifetime),
    MutRef(usize, Lifetime),
}

impl Ownership {
    pub open spec fn spec_addr(self) -> usize {
        match self {
            Ownership::Owned(a, _) => a,
            Ownership::MutOwned(a, _) => a,
            Ownership::SharedRef(a, _) => a,
            Ownership::MutRef(a, _) => a,
        }
    }

    pub open spec fn spec_lifetime(self) -> Lifetime {
        match self {
            Ownership::Owned(_, l) => l,
            Ownership::MutOwned(_, l) => l,
            Ownership::SharedRef(_, l) => l,
            Ownership::MutRef(_, l) => l,
        }
    }

    pub open spec fn is_reference(self) -> bool {
        self is SharedRef || self is MutRef
    }

    pub open spec fn kind_name(self) -> Seq<char> {
        match self {
            Ownership::Owned(..) => "Owned"@,
            Ownership::MutOwned(..) => "MutOwned"@,
            Ownership::SharedRef(..) => "SharedRef"@,
            Ownership::MutRef(..) => "MutRef"@,
        }
    }

    /// The cell it holds.
    pub fn addr(&self) -> (r: usize)
        ensures
            r == self.spec_addr(),
    {
        match self {
            Ownership::Owned(a, _) => *a,
            Ownership::MutOwned(a, _) => *a,
            Ownership::SharedRef(a, _) => *a,
            Ownership::MutRef(a, _) => *a,
        }
    }

    /// The lifetime of the holding local.
    pub fn lifetime(&self) -> (r: Lifetime)
        ensures
            r == self.spec_lifetime(),
    {
        match self {
            Ownership::Owned(_, l) => *l,
            Ownership::MutOwned(_, l) => *l,
            Ownership::SharedRef(_, l) => *l,
            Ownership::MutRef(_, l) => *l,
        }
    }

    /// The name of the variant.
    pub fn kind(&self) -> (r: &'static str)
        ensures
            r@ == self.kind_name(),
    {
        match self {
            Ownership::Owned(..) => "Owned",
            Ownership::MutOwned(..) => "MutOwned",
            Ownership::SharedRef(..) => "SharedRef",
            Ownership::MutRef(..) => "MutRef",
        }
    }
}

/// The borrow state of a cell: unborrowed, shared by some lifetimes, or
/// mutably borrowed by a stack of lifetimes (innermost first).
pub enum LocState {
    Owned,
    Shared(Vec<Lifetime>),
    Mut(Vec<Lifetime>),
}

pub enum LocStateV {
    Owned,
    Shared(Seq<Lifetime>),
    Mut(Seq<Lifetime>),
}

impl View for LocState {
    type V = LocStateV;

    open spec fn view(&self) -> LocStateV {
        match self {
            LocState::Owned => LocStateV::Owned,
            LocState::Shared(v) => LocStateV::Shared(v@),
            LocState::Mut(v) => LocStateV::Mut(v@),
        }
    }
}

pub open spec fn lt_ids(lts: Seq<Lifetime>) -> Seq<Seq<char>> {
    lts.map_values(|l: Lifetime| "lt"@ + dec(l.id as nat))
}

pub open spec fn label_of(st: LocStateV) -> Seq<char> {
    match st {
        LocStateV::Owned => "LocOwned"@,
        LocStateV::Shared(l) => "LocShared["@ + crate::text::joined(lt_ids(l), ", "@) + "]"@,
        LocStateV::Mut(l) => "LocMut["@ + crate::text::joined(lt_ids(l), ", "@) + "]"@,
    }
}

fn lifetime_ids(lts: &Vec<Lifetime>) -> (r: String)
    ensures
        r@ == crate::text::joined(lt_ids(lts@), ", "@),
{
    let mut parts: Vec<String> = Vec::new();
    let mut i: usize = 0;
    while i < lts.len()
        invariant
            i <= lts@.len(),
            parts@.len() == i,
            forall|k: int| 0 <= k < i ==> (#[trigger] parts@[k])@ == "lt"@ + dec(lts@[k].id as nat),
        decreases lts@.len() - i,
    {
        let id = fmt_usize(lts[i].id);
        let s = wrap("lt", &id, "");
        proof {
            reveal_strlit("");
            assert(s@ =~= "lt"@ + dec(lts@[i as int].id as nat));
        }
        parts.push(s);
        i = i + 1;
    }
    proof {
        assert(crate::text::views(parts@) =~= lt_ids(lts@));
    }
    crate::text::join(&parts, ", ")
}

impl LocState {
    /// `LocOwned`, `LocShared[lt..]` or `LocMut[lt..]`.
    pub fn label(&self) -> (r: String)
        ensures
            r@ == label_of(self@),
    {
        match self {
            LocState::Owned => text("LocOwned"),
            LocState::Shared(lts) => {
                let ids = lifetime_ids(lts);
                wrap("LocShared[", &ids, "]")
            },
            LocState::Mut(lts) => {
                let ids = lifetime_ids(lts);
                wrap("LocMut[", &ids, "]")
            },
        }
    }

    fn duplicate(&self) -> (r: LocState)
        ensures
            r@ == self@,
    {
        match self {
            LocState::Owned => LocState::Owned,
            LocState::Shared(v) => LocState::Shared(copy_lifetimes(v)),
            LocState::Mut(v) => LocState::Mut(copy_lifetimes(v)),
        }
    }
}

fn copy_lifetimes(v: &Vec<Lifetime>) -> (r: Vec<Lifetime>)
    ensures
        r@ == v@,
{
    let mut out: Vec<Lifetime> = Vec::new();
    let mut i: usize = 0;
    while i < v.len()
        invariant
            i <= v@.len(),
            out@ == v@.take(i as int),
        decreases v@.len() - i,
    {
        out.push(v[i]);
        proof {
            assert(out@ =~= v@.take(i + 1));
        }
        i = i + 1;
    }
    proof {
        assert(v@.take(v@.len() as int) =~= v@);
    }
    out
}

/// An abstract value.
#[derive(Clone, Copy)]
pub enum Val {
    Int(i128),
    Bool(bool),
    Unit,
    Unknown,
    /// The value of the `n`-th argument.
    Param(usize),
    /// The value behind the `n`-th argument, which is a reference.
    In(usize),
}

impl Val {
    pub open spec fn text_of(self) -> Seq<char> {
        match self {
            Val::Int(v) => dec_int(v as int),
            Val::Bool(b) => if b {
                "true"@
            } else {
                "false"@
            },
            Val::Unit => "()"@,
            Val::Unknown => "?"@,
            Val::Param(n) => "arg"@ + dec(n as nat),
            Val::In(n) => "*arg"@ + dec(n as nat),
        }
    }

    /// The value as it is printed.
    pub fn to_text(&self) -> (r: String)
        ensures
            r@ == self.text_of(),
    {
        match self {
            Val::Int(v) => fmt_i128(*v),
            Val::Bool(b) => if *b {
                text("true")
            } else {
                text("false")
            },
            Val::Unit => text("()"),
            Val::Unknown => text("?"),
            Val::Param(n) => {
                let d = fmt_usize(*n);
                let r = wrap("arg", &d, "");
                proof {
                    reveal_strlit("");
                    assert(r@ =~= "arg"@ + dec(*n as nat));
                }
                r
            },
            Val::In(n) => {
                let d = fmt_usize(*n);
                let r = wrap("*arg", &d, "");
                proof {
                    reveal_strlit("");
                    assert(r@ =~= "*arg"@ + dec(*n as nat));
                }
                r
            },
        }
    }
}

/// A heap cell: its value, its borrow state and the lifetime of its owner.
pub struct Cell {
    pub value: Val,
    pub state: LocState,
    pub owner: Lifetime,
}

pub struct CellV {
    pub value: Val,
    pub state: LocStateV,
    pub owner: Lifetime,
}

impl View for Cell {
    type V = CellV;

    open spec fn view(&self) -> CellV {
        CellV { value: self.value, state: self.state@, owner: self.owner }
    }
}

} // verus!

verus! {

/// The lifetimes of `lts` that cover `step`, in order.
pub open spec fn keep_active(lts: Seq<Lifetime>, step: int) -> Seq<Lifetime>
    decreases lts.len(),
{
    if lts.len() == 0 {
        seq![]
    } else {
        let p = keep_active(lts.drop_last(), step);
        if lts.last().is_active(step) {
            p.push(lts.last())
        } else {
            p
        }
    }
}

/// A borrow state once the borrows that ended before `step` are dropped; a
/// cell whose borrows all ended is unborrowed again.
pub open spec fn expired(st: LocStateV, step: int) -> LocStateV {
    match st {
        LocStateV::Owned => LocStateV::Owned,
        LocStateV::Shared(l) => if keep_active(l, step).len() == 0 {
            LocStateV::Owned
        } else {
            LocStateV::Shared(keep_active(l, step))
        },
        LocStateV::Mut(l) => if keep_active(l, step).len() == 0 {
            LocStateV::Owned
        } else {
            LocStateV::Mut(keep_active(l, step))
        },
    }
}

proof fn lemma_keep_active(lts: Seq<Lifetime>, step: int)
    ensures
        keep_active(keep_active(lts, step), step) == keep_active(lts, step),
        forall|k: int| 0 <= k < keep_active(lts, step).len() ==> (#[trigger] keep_active(lts, step)[k]).is_active(step),
    decreases lts.len(),
{
    if lts.len() > 0 {
        let p = lts.drop_last();
        lemma_keep_active(p, step);
        let q = keep_active(p, step);
        if lts.last().is_active(step) {
            let r = q.push(lts.last());
            assert(r.drop_last() =~= q);
        }
    }
}

/// Dropping the borrows that ended is done once for all at a given point:
/// dropping them again changes nothing, and every borrow left is active.
pub proof fn lemma_expired_idempotent(st: LocStateV, step: int)
    ensures
        expired(expired(st, step), step) == expired(st, step),
        match expired(st, step) {
            LocStateV::Owned => true,
            LocStateV::Shared(l) => l.len() > 0 && forall|k: int| 0 <= k < l.len() ==> (#[trigger] l[k]).is_active(step),
            LocStateV::Mut(l) => l.len() > 0 && forall|k: int| 0 <= k < l.len() ==> (#[trigger] l[k]).is_active(step),
        },
{
    match st {
        LocStateV::Shared(l) => lemma_keep_active(l, step),
        LocStateV::Mut(l) => lemma_keep_active(l, step),
        LocStateV::Owned => {},
    }
}

fn keep(lts: &Vec<Lifetime>, step: usize) -> (r: Vec<Lifetime>)
    ensures
        r@ == keep_active(lts@, step as int),
{
    let mut out: Vec<Lifetime> = Vec::new();
    let mut i: usize = 0;
    while i < lts.len()
        invariant
            i <= lts@.len(),
            out@ == keep_active(lts@.take(i as int), step as int),
        decreases lts@.len() - i,
    {
        proof {
            assert(lts@.take(i + 1).drop_last() =~= lts@.take(i as int));
        }
        if lts[i].active(step) {
            out.push(lts[i]);
        }
        i = i + 1;
    }
    proof {
        assert(lts@.take(lts@.len() as int) =~= lts@);
    }
    out
}

/// The abstract state of the model.
pub struct StateV {
    pub names: Seq<Seq<char>>,
    pub muts: Seq<bool>,
    pub refs: Seq<bool>,
    pub arg_count: usize,
    pub lifetimes: Seq<Lifetime>,
    pub block_step: Seq<usize>,
    pub heap: Seq<CellV>,
    pub vars: Seq<Option<Ownership>>,
    pub step: usize,
    pub ub: Seq<Seq<char>>,
}

/// The state of the model while it runs over one function.
pub struct State {
    /// Printable name of each local.
    pub names: Vec<String>,
    /// Whether each local is declared `mut`.
    pub muts: Vec<bool>,
    /// Whether each local is a reference or raw pointer.
    pub refs: Vec<bool>,
    pub arg_count: usize,
    /// The lifetime of each local.
    pub lifetimes: Vec<Lifetime>,
    /// The program point at which each block starts.
    pub block_step: Vec<usize>,
    pub heap: Vec<Cell>,
    /// How each local holds its cell, once it holds one.
    pub vars: Vec<Option<Ownership>>,
    /// The current program point.
    pub step: usize,
    /// The undefined behaviour found so far.
    pub ub: Vec<String>,
}

impl View for State {
    type V = StateV;

    open spec fn view(&self) -> StateV {
        StateV {
            names: crate::text::views(self.names@),
            muts: self.muts@,
            refs: self.refs@,
            arg_count: self.arg_count,
            lifetimes: self.lifetimes@,
            block_step: self.block_step@,
            heap: self.heap@.map_values(|c: Cell| c@),
            vars: self.vars@,
            step: self.step,
            ub: crate::text::views(self.ub@),
        }
    }
}

pub open spec fn imm_label(name: Seq<char>) -> Seq<char> {
    "write to immutable "@ + name
}

pub open spec fn shared_ref_label(name: Seq<char>) -> Seq<char> {
    "write through shared reference "@ + name
}

impl StateV {
    /// Every local's table has an entry, and every held cell exists.
    pub open spec fn wf(self) -> bool {
        let n = self.vars.len();
        &&& self.names.len() == n
        &&& self.muts.len() == n
        &&& self.refs.len() == n
        &&& self.lifetimes.len() == n
        &&& self.arg_count < n
        &&& n <= crate::mir::size_bound()
        &&& forall|i: int|
            0 <= i < n && (#[trigger] self.vars[i]) is Some ==> self.vars[i].unwrap().spec_addr()
                < self.heap.len()
    }

    pub open spec fn flag(self, m: Seq<char>) -> StateV {
        StateV { ub: self.ub.push(m), ..self }
    }

    pub open spec fn with_cell(self, a: int, c: CellV) -> StateV {
        if 0 <= a < self.heap.len() {
            StateV { heap: self.heap.update(a, c), ..self }
        } else {
            self
        }
    }

    pub open spec fn with_value(self, a: int, v: Val) -> StateV {
        self.with_cell(a, CellV { value: v, ..self.heap[a] })
    }

    pub open spec fn with_state(self, a: int, st: LocStateV) -> StateV {
        self.with_cell(a, CellV { state: st, ..self.heap[a] })
    }

    pub open spec fn with_var(self, d: int, o: Ownership) -> StateV {
        if 0 <= d < self.vars.len() {
            StateV { vars: self.vars.update(d, Some(o)), ..self }
        } else {
            self
        }
    }

    pub open spec fn with_new_cell(self, c: CellV) -> StateV {
        StateV { heap: self.heap.push(c), ..self }
    }

    /// Drops the borrows of cell `a` that ended before the current point.
    pub open spec fn expire(self, a: int) -> StateV {
        self.with_state(a, expired(self.heap[a].state, self.step as int))
    }

    /// Assigns a plain value to local `d`.
    pub open spec fn assign_owned(self, d: int, val: Val) -> StateV {
        match self.vars[d] {
            Some(own) => {
                let a = own.spec_addr() as int;
                let s1 = self.expire(a);
                if !own.spec_lifetime().is_active(self.step as int) {
                    s1.flag("write to "@ + self.names[d] + " after its lifetime ended"@)
                } else if !self.muts[d] {
                    s1.flag(imm_label(self.names[d]))
                } else if s1.heap[a].state is Owned {
                    s1.with_value(a, val)
                } else {
                    s1.flag("write to "@ + self.names[d] + " while it is borrowed"@)
                }
            },
            None => {
                let a = self.heap.len() as usize;
                let lt = self.lifetimes[d];
                self.with_new_cell(CellV { value: val, state: LocStateV::Owned, owner: lt }).with_var(
                    d,
                    if self.muts[d] {
                        Ownership::MutOwned(a, lt)
                    } else {
                        Ownership::Owned(a, lt)
                    },
                )
            },
        }
    }

    /// Local `d` reborrows, through reference `p`, the cell `p` points to.
    pub open spec fn reborrow(self, d: int, p: int, mutable: bool) -> StateV {
        match self.vars[p] {
            None => self,
            Some(own) => {
                let a = own.spec_addr() as int;
                let lt = self.lifetimes[d];
                let s1 = self.expire(a);
                if mutable {
                    let s2 = match s1.heap[a].state {
                        LocStateV::Mut(stack) => s1.with_state(a, LocStateV::Mut(seq![lt] + stack)),
                        LocStateV::Owned => s1.with_state(a, LocStateV::Mut(seq![lt])),
                        LocStateV::Shared(_) => s1.flag(
                            "mutable reborrow through "@ + self.names[p] + " while shared-borrowed"@,
                        ),
                    };
                    s2.with_var(d, Ownership::MutRef(a as usize, lt))
                } else {
                    let s2 = match s1.heap[a].state {
                        LocStateV::Shared(lts) => s1.with_state(a, LocStateV::Shared(lts.push(lt))),
                        LocStateV::Owned => s1.with_state(a, LocStateV::Shared(seq![lt])),
                        LocStateV::Mut(stack) => s1.with_state(a, LocStateV::Mut(seq![lt] + stack)),
                    };
                    s2.with_var(d, Ownership::SharedRef(a as usize, lt))
                }
            },
        }
    }

    /// Local `d` becomes a copy of reference `src`.
    pub open spec fn alias_ref(self, d: int, src: int) -> StateV {
        match self.vars[src] {
            None => self,
            Some(own) => {
                let a = own.spec_addr();
                let lt = self.lifetimes[d];
                self.with_var(
                    d,
                    match own {
                        Ownership::MutRef(..) => Ownership::MutRef(a, lt),
                        _ => Ownership::SharedRef(a, lt),
                    },
                )
            },
        }
    }

    /// Local `d` borrows local `t`.
    pub open spec fn create_ref(self, d: int, t: int, mutable: bool) -> StateV {
        match self.vars[t] {
            None => self.flag("borrow of "@ + self.names[t] + ", which owns nothing"@),
            Some(owner) => {
                let a = owner.spec_addr() as int;
                let blt = self.lifetimes[d];
                if !owner.spec_lifetime().spec_contains(blt) {
                    self.flag(
                        self.names[d] + " borrows "@ + self.names[t] + " for longer than it lives"@,
                    )
                } else {
                    let s1 = self.expire(a);
                    if mutable {
                        match s1.heap[a].state {
                            LocStateV::Owned => s1.with_state(a, LocStateV::Mut(seq![blt])).with_var(
                                d,
                                Ownership::MutRef(a as usize, blt),
                            ),
                            _ => s1.flag(
                                "mutable borrow of "@ + self.names[t]
                                    + " while it is already borrowed"@,
                            ),
                        }
                    } else {
                        match s1.heap[a].state {
                            LocStateV::Owned => s1.with_state(
                                a,
                                LocStateV::Shared(seq![blt]),
                            ).with_var(d, Ownership::SharedRef(a as usize, blt)),
                            LocStateV::Shared(lts) => s1.with_state(
                                a,
                                LocStateV::Shared(lts.push(blt)),
                            ).with_var(d, Ownership::SharedRef(a as usize, blt)),
                            LocStateV::Mut(_) => s1.flag(
                                "shared borrow of "@ + self.names[t] + " while mutably borrowed"@,
                            ),
                        }
                    }
                }
            },
        }
    }

    /// Writes `val` through reference `p`.
    pub open spec fn write_through(self, p: int, val: Val) -> StateV {
        match self.vars[p] {
            None => self,
            Some(own) => {
                let a = own.spec_addr() as int;
                let s1 = self.expire(a);
                if !s1.heap[a].owner.is_active(self.step as int) {
                    s1.flag(
                        "write through "@ + self.names[p] + ", whose pointee has gone out of scope"@,
                    )
                } else {
                    match own {
                        Ownership::MutRef(_, lt) => if lt.is_active(self.step as int) {
                            match s1.heap[a].state {
                                LocStateV::Mut(stack) => if stack.len() > 0 && stack[0].id == lt.id {
                                    s1.with_value(a, val)
                                } else {
                                    s1.flag(
                                        "write through "@ + self.names[p]
                                            + ", which no longer holds the mutable borrow"@,
                                    )
                                },
                                _ => s1.flag(
                                    "write through "@ + self.names[p]
                                        + ", which no longer holds the mutable borrow"@,
                                ),
                            }
                        } else {
                            s1.flag("write through "@ + self.names[p] + " after its lifetime ended"@)
                        },
                        Ownership::SharedRef(..) => s1.flag(shared_ref_label(self.names[p])),
                        _ => s1.flag("write through "@ + self.names[p] + " after its lifetime ended"@),
                    }
                }
            },
        }
    }

    /// Reads local `l`.
    pub open spec fn read(self, l: int) -> (StateV, Val) {
        match self.vars[l] {
            None => (self, Val::Unknown),
            Some(own) => {
                let a = own.spec_addr() as int;
                let s1 = self.expire(a);
                if !own.spec_lifetime().is_active(self.step as int) {
                    (s1.flag("use of "@ + self.names[l] + " after its lifetime ended"@), Val::Unknown)
                } else {
                    match s1.heap[a].state {
                        LocStateV::Mut(_) => (
                            s1.flag("read of "@ + self.names[l] + " while it is mutably borrowed"@),
                            Val::Unknown,
                        ),
                        _ => (s1, s1.heap[a].value),
                    }
                }
            },
        }
    }

    /// Reads through reference `p`.
    pub open spec fn read_through(self, p: int) -> (StateV, Val) {
        match self.vars[p] {
            None => (self, Val::Unknown),
            Some(own) => {
                let a = own.spec_addr() as int;
                let s1 = self.expire(a);
                if !own.spec_lifetime().is_active(self.step as int) {
                    (s1.flag("use of "@ + self.names[p] + " after its lifetime ended"@), Val::Unknown)
                } else if !s1.heap[a].owner.is_active(self.step as int) {
                    (
                        s1.flag(
                            "dereference of "@ + self.names[p]
                                + ", whose pointee has gone out of scope"@,
                        ),
                        Val::Unknown,
                    )
                } else {
                    (s1, s1.heap[a].value)
                }
            },
        }
    }
}

} // verus!

verus! {

impl State {
    proof fn lemma_view_heap_set(old_heap: Seq<Cell>, a: int, c: Cell)
        requires
            0 <= a < old_heap.len(),
        ensures
            old_heap.update(a, c).map_values(|x: Cell| x@) == old_heap.map_values(|x: Cell| x@).update(
                a,
                c@,
            ),
    {
        assert(old_heap.update(a, c).map_values(|x: Cell| x@) =~= old_heap.map_values(
            |x: Cell| x@,
        ).update(a, c@));
    }

    fn set_cell(&mut self, a: usize, c: Cell)
        requires
            old(self)@.wf(),
            a < old(self)@.heap.len(),
        ensures
            final(self)@ == old(self)@.with_cell(a as int, c@),
            final(self)@.wf(),
            frame_kept(old(self)@, final(self)@),
    {
        let ghost old_heap = self.heap@;
        let ghost cv = c@;
        self.heap.set(a, c);
        proof {
            State::lemma_view_heap_set(old_heap, a as int, c);
            assert(self@.heap == old(self)@.heap.update(a as int, cv));
            assert(self@ =~= old(self)@.with_cell(a as int, cv));
        }
    }

    fn push_cell(&mut self, c: Cell)
        requires
            old(self)@.wf(),
        ensures
            final(self)@ == old(self)@.with_new_cell(c@),
            final(self)@.wf(),
            frame_kept(old(self)@, final(self)@),
    {
        let ghost cv = c@;
        self.heap.push(c);
        proof {
            assert(self@.heap =~= old(self)@.heap.push(cv));
            assert(self@ =~= old(self)@.with_new_cell(cv));
        }
    }

    fn set_var(&mut self, d: usize, o: Ownership)
        requires
            old(self)@.wf(),
            d < old(self)@.vars.len(),
            o.spec_addr() < old(self)@.heap.len(),
        ensures
            final(self)@ == old(self)@.with_var(d as int, o),
            final(self)@.wf(),
            frame_kept(old(self)@, final(self)@),
    {
        self.vars.set(d, Some(o));
        proof {
            assert(self@ =~= old(self)@.with_var(d as int, o));
        }
    }

    /// Records one finding of undefined behaviour.
    fn flag(&mut self, msg: String)
        requires
            old(self)@.wf(),
        ensures
            final(self)@ == old(self)@.flag(msg@),
            final(self)@.wf(),
            frame_kept(old(self)@, final(self)@),
    {
        let ghost m = msg@;
        self.ub.push(msg);
        proof {
            assert(self@.ub =~= old(self)@.ub.push(m));
            assert(self@ =~= old(self)@.flag(m));
        }
    }

    fn copy_state(&self, a: usize) -> (r: LocState)
        requires
            a < self@.heap.len(),
        ensures
            r@ == self@.heap[a as int].state,
    {
        self.heap[a].state.duplicate()
    }

    fn set_state(&mut self, a: usize, st: LocState)
        requires
            old(self)@.wf(),
            a < old(self)@.heap.len(),
        ensures
            final(self)@ == old(self)@.with_state(a as int, st@),
            final(self)@.wf(),
            frame_kept(old(self)@, final(self)@),
    {
        let c = Cell { value: self.heap[a].value, state: st, owner: self.heap[a].owner };
        self.set_cell(a, c);
    }

    fn set_value(&mut self, a: usize, v: Val)
        requires
            old(self)@.wf(),
            a < old(self)@.heap.len(),
        ensures
            final(self)@ == old(self)@.with_value(a as int, v),
            final(self)@.wf(),
            frame_kept(old(self)@, final(self)@),
    {
        let st = self.copy_state(a);
        let c = Cell { value: v, state: st, owner: self.heap[a].owner };
        self.set_cell(a, c);
    }

    /// Drops the borrows of cell `a` that ended before the current point.
    pub fn expire(&mut self, a: usize)
        requires
            old(self)@.wf(),
            a < old(self)@.heap.len(),
        ensures
            final(self)@ == old(self)@.expire(a as int),
            final(self)@.wf(),
            frame_kept(old(self)@, final(self)@),
    {
        let step = self.step;
        let st = match &self.heap[a].state {
            LocState::Owned => LocState::Owned,
            LocState::Shared(lts) => {
                let live = keep(lts, step);
                if live.len() == 0 {
                    LocState::Owned
                } else {
                    LocState::Shared(live)
                }
            },
            LocState::Mut(lts) => {
                let live = keep(lts, step);
                if live.len() == 0 {
                    LocState::Owned
                } else {
                    LocState::Mut(live)
                }
            },
        };
        proof {
            assert(st@ == expired(self@.heap[a as int].state, step as int));
        }
        self.set_state(a, st);
    }

    /// Assigns a plain value to local `d`.
    fn assign_owned(&mut self, d: usize, val: Val)
        requires
            old(self)@.wf(),
            d < old(self)@.vars.len(),
        ensures
            final(self)@ == old(self)@.assign_owned(d as int, val),
            final(self)@.wf(),
            frame_kept(old(self)@, final(self)@),
    {
        if let Some(own) = self.vars[d] {
            let a = own.addr();
            self.expire(a);
            if !own.lifetime().active(self.step) {
                let m = wrap("write to ", &self.names[d], " after its lifetime ended");
                self.flag(m);
                return;
            }
            if !self.muts[d] {
                let m = prefixed("write to immutable ", &self.names[d]);
                self.flag(m);
                return;
            }
            match self.heap[a].state {
                LocState::Owned => self.set_value(a, val),
                _ => {
                    let m = wrap("write to ", &self.names[d], " while it is borrowed");
                    self.flag(m);
                },
            }
        } else {
            let a = self.heap.len();
            let lt = self.lifetimes[d];
            self.push_cell(Cell { value: val, state: LocState::Owned, owner: lt });
            let o = if self.muts[d] {
                Ownership::MutOwned(a, lt)
            } else {
                Ownership::Owned(a, lt)
            };
            self.set_var(d, o);
        }
    }

    /// Local `d` reborrows, through reference `p`, the cell `p` points to.
    fn reborrow(&mut self, d: usize, p: usize, mutable: bool)
        requires
            old(self)@.wf(),
            d < old(self)@.vars.len(),
            p < old(self)@.vars.len(),
        ensures
            final(self)@ == old(self)@.reborrow(d as int, p as int, mutable),
            final(self)@.wf(),
            frame_kept(old(self)@, final(self)@),
    {
        let own = match self.vars[p] {
            Some(o) => o,
            None => return ,
        };
        let a = own.addr();
        let lt = self.lifetimes[d];
        self.expire(a);
        if mutable {
            match &self.heap[a].state {
                LocState::Mut(stack) => {
                    let mut v = copy_lifetimes(stack);
                    v.insert(0, lt);
                    proof {
                        assert(v@ =~= seq![lt] + stack@);
                    }
                    self.set_state(a, LocState::Mut(v));
                },
                LocState::Owned => {
                    let mut v: Vec<Lifetime> = Vec::new();
                    v.push(lt);
                    proof {
                        assert(v@ =~= seq![lt]);
                    }
                    self.set_state(a, LocState::Mut(v));
                },
                LocState::Shared(_) => {
                    let m = wrap("mutable reborrow through ", &self.names[p], " while shared-borrowed");
                    self.flag(m);
                },
            }
            self.set_var(d, Ownership::MutRef(a, lt));
        } else {
            match &self.heap[a].state {
                LocState::Shared(lts) => {
                    let mut v = copy_lifetimes(lts);
                    v.push(lt);
                    self.set_state(a, LocState::Shared(v));
                },
                LocState::Owned => {
                    let mut v: Vec<Lifetime> = Vec::new();
                    v.push(lt);
                    proof {
                        assert(v@ =~= seq![lt]);
                    }
                    self.set_state(a, LocState::Shared(v));
                },
                LocState::Mut(stack) => {
                    let mut v = copy_lifetimes(stack);
                    v.insert(0, lt);
                    proof {
                        assert(v@ =~= seq![lt] + stack@);
                    }
                    self.set_state(a, LocState::Mut(v));
                },
            }
            self.set_var(d, Ownership::SharedRef(a, lt));
        }
    }

    /// Local `d` becomes a copy of reference `src`.
    fn alias_ref(&mut self, d: usize, src: usize)
        requires
            old(self)@.wf(),
            d < old(self)@.vars.len(),
            src < old(self)@.vars.len(),
        ensures
            final(self)@ == old(self)@.alias_ref(d as int, src as int),
            final(self)@.wf(),
            frame_kept(old(self)@, final(self)@),
    {
        if let Some(own) = self.vars[src] {
            let a = own.addr();
            let lt = self.lifetimes[d];
            let o = match own {
                Ownership::MutRef(..) => Ownership::MutRef(a, lt),
                _ => Ownership::SharedRef(a, lt),
            };
            self.set_var(d, o);
        }
    }

    /// Local `d` borrows local `t`.
    fn create_ref(&mut self, d: usize, t: usize, mutable: bool)
        requires
            old(self)@.wf(),
            d < old(self)@.vars.len(),
            t < old(self)@.vars.len(),
        ensures
            final(self)@ == old(self)@.create_ref(d as int, t as int, mutable),
            final(self)@.wf(),
            frame_kept(old(self)@, final(self)@),
    {
        let owner = match self.vars[t] {
            Some(o) => o,
            None => {
                let m = wrap("borrow of ", &self.names[t], ", which owns nothing");
                self.flag(m);
                return ;
            },
        };
        let a = owner.addr();
        let borrow_lt = self.lifetimes[d];
        if !owner.lifetime().contains(&borrow_lt) {
            let m = wrap2("", &self.names[d], " borrows ", &self.names[t], " for longer than it lives");
            proof {
                reveal_strlit("");
                assert(m@ =~= self@.names[d as int] + " borrows "@ + self@.names[t as int]
                    + " for longer than it lives"@);
            }
            self.flag(m);
            return ;
        }
        self.expire(a);
        if mutable {
            match &self.heap[a].state {
                LocState::Owned => {
                    let mut v: Vec<Lifetime> = Vec::new();
                    v.push(borrow_lt);
                    proof {
                        assert(v@ =~= seq![borrow_lt]);
                    }
                    self.set_state(a, LocState::Mut(v));
                    self.set_var(d, Ownership::MutRef(a, borrow_lt));
                },
                _ => {
                    let m = wrap("mutable borrow of ", &self.names[t], " while it is already borrowed");
                    self.flag(m);
                },
            }
        } else {
            match &self.heap[a].state {
                LocState::Owned => {
                    let mut v: Vec<Lifetime> = Vec::new();
                    v.push(borrow_lt);
                    proof {
                        assert(v@ =~= seq![borrow_lt]);
                    }
                    self.set_state(a, LocState::Shared(v));
                    self.set_var(d, Ownership::SharedRef(a, borrow_lt));
                },
                LocState::Shared(lts) => {
                    let mut v = copy_lifetimes(lts);
                    v.push(borrow_lt);
                    self.set_state(a, LocState::Shared(v));
                    self.set_var(d, Ownership::SharedRef(a, borrow_lt));
                },
                LocState::Mut(_) => {
                    let m = wrap("shared borrow of ", &self.names[t], " while mutably borrowed");
                    self.flag(m);
                },
            }
        }
    }

    /// Writes `val` through reference `p`.
    fn write_through(&mut self, p: usize, val: Val)
        requires
            old(self)@.wf(),
            p < old(self)@.vars.len(),
        ensures
            final(self)@ == old(self)@.write_through(p as int, val),
            final(self)@.wf(),
            frame_kept(old(self)@, final(self)@),
    {
        let own = match self.vars[p] {
            Some(o) => o,
            None => return ,
        };
        let a = own.addr();
        self.expire(a);
        if !self.heap[a].owner.active(self.step) {
            let m = wrap("write through ", &self.names[p], ", whose pointee has gone out of scope");
            self.flag(m);
            return ;
        }
        match own {
            Ownership::MutRef(_, lt) => {
                if lt.active(self.step) {
                    let holds = match &self.heap[a].state {
                        LocState::Mut(stack) => stack.len() > 0 && stack[0].id == lt.id,
                        _ => false,
                    };
                    if holds {
                        self.set_value(a, val);
                    } else {
                        let m = wrap(
                            "write through ",
                            &self.names[p],
                            ", which no longer holds the mutable borrow",
                        );
                        self.flag(m);
                    }
                } else {
                    let m = wrap("write through ", &self.names[p], " after its lifetime ended");
                    self.flag(m);
                }
            },
            Ownership::SharedRef(..) => {
                let m = prefixed("write through shared reference ", &self.names[p]);
                self.flag(m);
            },
            _ => {
                let m = wrap("write through ", &self.names[p], " after its lifetime ended");
                self.flag(m);
            },
        }
    }

    /// Reads local `local`.
    fn read(&mut self, local: usize) -> (r: Val)
        requires
            old(self)@.wf(),
            local < old(self)@.vars.len(),
        ensures
            (final(self)@, r) == old(self)@.read(local as int),
            final(self)@.wf(),
            frame_kept(old(self)@, final(self)@),
    {
        let own = match self.vars[local] {
            Some(o) => o,
            None => return Val::Unknown,
        };
        let a = own.addr();
        self.expire(a);
        if !own.lifetime().active(self.step) {
            let m = wrap("use of ", &self.names[local], " after its lifetime ended");
            self.flag(m);
            return Val::Unknown;
        }
        match &self.heap[a].state {
            LocState::Mut(_) => {
                let m = wrap("read of ", &self.names[local], " while it is mutably borrowed");
                self.flag(m);
                Val::Unknown
            },
            _ => self.heap[a].value,
        }
    }

    /// Reads through reference `p`.
    fn read_through(&mut self, p: usize) -> (r: Val)
        requires
            old(self)@.wf(),
            p < old(self)@.vars.len(),
        ensures
            (final(self)@, r) == old(self)@.read_through(p as int),
            final(self)@.wf(),
            frame_kept(old(self)@, final(self)@),
    {
        let own = match self.vars[p] {
            Some(o) => o,
            None => return Val::Unknown,
        };
        let a = own.addr();
        self.expire(a);
        if !own.lifetime().active(self.step) {
            let m = wrap("use of ", &self.names[p], " after its lifetime ended");
            self.flag(m);
            return Val::Unknown;
        }
        if !self.heap[a].owner.active(self.step) {
            let m = wrap("dereference of ", &self.names[p], ", whose pointee has gone out of scope");
            self.flag(m);
            return Val::Unknown;
        }
        self.heap[a].value
    }
}

/// `a` followed by `x`.
fn prefixed(a: &str, x: &String) -> (r: String)
    ensures
        r@ == a@ + x@,
{
    let mut s = text(a);
    put(&mut s, x.as_str());
    s
}

} // verus!

verus! {

/// What a binary operator gives on two integers: the exact result where the
/// operator is arithmetic and does not overflow, a boolean for comparisons,
/// and nothing known otherwise.
pub open spec fn fold_val(op: BinOp, a: i128, b: i128) -> Val {
    match op {
        BinOp::Add | BinOp::AddUnchecked => int_or_unknown(a.checked_add(b)),
        BinOp::Sub | BinOp::SubUnchecked => int_or_unknown(a.checked_sub(b)),
        BinOp::Mul | BinOp::MulUnchecked => int_or_unknown(a.checked_mul(b)),
        BinOp::Div => int_or_unknown(a.checked_div(b)),
        BinOp::Rem => int_or_unknown(a.checked_rem(b)),
        BinOp::BitXor => Val::Int(a ^ b),
        BinOp::BitAnd => Val::Int(a & b),
        BinOp::BitOr => Val::Int(a | b),
        BinOp::Eq => Val::Bool(a == b),
        BinOp::Ne => Val::Bool(a != b),
        BinOp::Lt => Val::Bool(a < b),
        BinOp::Le => Val::Bool(a <= b),
        BinOp::Gt => Val::Bool(a > b),
        BinOp::Ge => Val::Bool(a >= b),
        _ => Val::Unknown,
    }
}

pub open spec fn int_or_unknown(o: Option<i128>) -> Val {
    match o {
        Some(v) => Val::Int(v),
        None => Val::Unknown,
    }
}

/// Folds a binary operator over two known integers.
pub fn fold(op: &BinOp, a: i128, b: i128) -> (r: Val)
    ensures
        r == fold_val(*op, a, b),
{
    match op {
        BinOp::Add | BinOp::AddUnchecked => int_opt(a.checked_add(b)),
        BinOp::Sub | BinOp::SubUnchecked => int_opt(a.checked_sub(b)),
        BinOp::Mul | BinOp::MulUnchecked => int_opt(a.checked_mul(b)),
        BinOp::Div => int_opt(a.checked_div(b)),
        BinOp::Rem => int_opt(a.checked_rem(b)),
        BinOp::BitXor => Val::Int(a ^ b),
        BinOp::BitAnd => Val::Int(a & b),
        BinOp::BitOr => Val::Int(a | b),
        BinOp::Eq => Val::Bool(a == b),
        BinOp::Ne => Val::Bool(a != b),
        BinOp::Lt => Val::Bool(a < b),
        BinOp::Le => Val::Bool(a <= b),
        BinOp::Gt => Val::Bool(a > b),
        BinOp::Ge => Val::Bool(a >= b),
        _ => Val::Unknown,
    }
}

fn int_opt(o: Option<i128>) -> (r: Val)
    ensures
        r == int_or_unknown(o),
{
    match o {
        Some(v) => Val::Int(v),
        None => Val::Unknown,
    }
}

/// The value of a constant operand.
pub open spec fn const_val(c: Constant) -> Val {
    match c.bits {
        Some(b) => if c.is_bool {
            Val::Bool(b != 0)
        } else {
            Val::Int(b)
        },
        None => if c.is_unit {
            Val::Unit
        } else {
            Val::Unknown
        },
    }
}

/// The negation of an integer, when it does not overflow.
pub open spec fn neg_val(a: i128) -> Val {
    if a == i128::MIN {
        Val::Unknown
    } else {
        Val::Int((-a) as i128)
    }
}

/// What a summary says a function returns.
#[derive(Clone, Copy)]
pub enum Ret {
    Val(Val),
    /// The reference passed as the `n`-th argument.
    Ref(usize),
}

/// What a call does to its caller's heap: the values it writes through its
/// reference arguments, and what it returns.
pub struct HeapSummary {
    pub writes: Vec<(usize, Val)>,
    pub ret: Ret,
}

/// Each argument of a call: its value, and the caller's local when the
/// argument is a reference held in a local.
pub open spec fn actuals_ok(actuals: Seq<(Val, Option<usize>)>, n: nat) -> bool {
    forall|k: int|
        0 <= k < actuals.len() ==> match (#[trigger] actuals[k]).1 {
            Some(l) => l < n,
            None => true,
        }
}

pub open spec fn actual_ref(actuals: Seq<(Val, Option<usize>)>, i: int) -> Option<usize> {
    if 0 <= i < actuals.len() {
        actuals[i].1
    } else {
        None
    }
}

impl StateV {
    /// Reads a place: a local, or the target of a reference local.
    pub open spec fn read_place(self, p: Place) -> (StateV, Val) {
        if p.projection@.len() == 0 {
            self.read(p.local as int)
        } else if crate::mir::spec_single_deref(p) {
            self.read_through(p.local as int)
        } else {
            (self, Val::Unknown)
        }
    }

    pub open spec fn operand(self, op: Operand) -> (StateV, Val) {
        match op {
            Operand::Copy(p) => self.read_place(p),
            Operand::Move(p) => self.read_place(p),
            Operand::Constant(c) => (self, const_val(c)),
            Operand::Other(_) => (self, Val::Unknown),
        }
    }

    /// Evaluates an rvalue, reading its operands left to right.
    pub open spec fn eval(self, rv: Rvalue) -> (StateV, Val) {
        match rv.kind {
            RvalueKind::Use(op) => self.operand(op),
            RvalueKind::Cast(op) => self.operand(op),
            RvalueKind::UnaryOp(u, x) => {
                let (s1, v) = self.operand(x);
                (
                    s1,
                    match (u, v) {
                        (UnOp::Neg, Val::Int(a)) => neg_val(a),
                        (UnOp::Not, Val::Bool(b)) => Val::Bool(!b),
                        _ => Val::Unknown,
                    },
                )
            },
            RvalueKind::BinaryOp(op, l, r) => {
                let (s1, a) = self.operand(l);
                let (s2, b) = s1.operand(r);
                (
                    s2,
                    match (a, b) {
                        (Val::Int(x), Val::Int(y)) => fold_val(op, x, y),
                        _ => Val::Unknown,
                    },
                )
            },
            _ => (self, Val::Unknown),
        }
    }

    /// The reference local an operand passes on, when it reads one.
    pub open spec fn ref_source(self, op: Operand) -> Option<usize> {
        match crate::mir::spec_operand_local(op) {
            Some(src) => match self.vars[src as int] {
                Some(o) => if o.is_reference() {
                    Some(src)
                } else {
                    None
                },
                None => None,
            },
            None => None,
        }
    }

    /// The reference local an argument passes, when it is a bare local.
    pub open spec fn ref_arg(self, op: Operand) -> Option<usize> {
        match op {
            Operand::Copy(p) => self.ref_local(p),
            Operand::Move(p) => self.ref_local(p),
            _ => None,
        }
    }

    pub open spec fn ref_local(self, p: Place) -> Option<usize> {
        if p.projection@.len() == 0 {
            match self.vars[p.local as int] {
                Some(o) => if o.is_reference() {
                    Some(p.local)
                } else {
                    None
                },
                None => None,
            }
        } else {
            None
        }
    }

    /// A summary's value in terms of the caller's arguments.
    pub open spec fn subst(self, v: Val, actuals: Seq<(Val, Option<usize>)>) -> (StateV, Val) {
        match v {
            Val::Param(i) => (self, if i < actuals.len() {
                actuals[i as int].0
            } else {
                Val::Unknown
            }),
            Val::In(i) => match actual_ref(actuals, i as int) {
                Some(rl) => self.read_through(rl as int),
                None => (self, Val::Unknown),
            },
            _ => (self, v),
        }
    }

    /// Applies the first `k` writes of a summary.
    pub open spec fn apply_writes(
        self,
        writes: Seq<(usize, Val)>,
        actuals: Seq<(Val, Option<usize>)>,
    ) -> StateV
        decreases writes.len(),
    {
        if writes.len() == 0 {
            self
        } else {
            let s1 = self.apply_writes(writes.drop_last(), actuals);
            let (param, wv) = writes.last();
            match actual_ref(actuals, param as int) {
                Some(rl) => {
                    let (s2, v) = s1.subst(wv, actuals);
                    s2.write_through(rl as int, v)
                },
                None => s1,
            }
        }
    }

    /// Applies a callee's summary at a call whose result goes to `dest`.
    pub open spec fn instantiate(
        self,
        writes: Seq<(usize, Val)>,
        ret: Ret,
        actuals: Seq<(Val, Option<usize>)>,
        dest: int,
    ) -> StateV {
        let s1 = self.apply_writes(writes, actuals);
        match ret {
            Ret::Val(v) => {
                let (s2, v2) = s1.subst(v, actuals);
                s2.assign_owned(dest, v2)
            },
            Ret::Ref(i) => match actual_ref(actuals, i as int) {
                Some(rl) => s1.alias_ref(dest, rl as int),
                None => s1.assign_owned(dest, Val::Unknown),
            },
        }
    }

    /// The effect of `d = rv`.
    pub open spec fn step_assign(self, d: int, rv: Rvalue) -> StateV {
        match rv.kind {
            RvalueKind::Ref { mutable, place } => if place.projection@.len() == 0 {
                self.create_ref(d, place.local as int, mutable)
            } else if crate::mir::spec_single_deref(place) {
                self.reborrow(d, place.local as int, mutable)
            } else {
                self.eval(rv).0.assign_owned(d, self.eval(rv).1)
            },
            RvalueKind::RawPtr { mutable, place } => if place.projection@.len() == 0 {
                self.create_ref(d, place.local as int, mutable)
            } else if crate::mir::spec_single_deref(place) {
                self.reborrow(d, place.local as int, mutable)
            } else {
                self.eval(rv).0.assign_owned(d, self.eval(rv).1)
            },
            RvalueKind::Use(op) => self.assign_use(d, op, rv),
            RvalueKind::Cast(op) => self.assign_use(d, op, rv),
            _ => self.eval(rv).0.assign_owned(d, self.eval(rv).1),
        }
    }

    pub open spec fn assign_use(self, d: int, op: Operand, rv: Rvalue) -> StateV {
        if self.refs[d] {
            match self.ref_source(op) {
                Some(src) => self.alias_ref(d, src as int),
                None => self.eval(rv).0.assign_owned(d, self.eval(rv).1),
            }
        } else {
            self.eval(rv).0.assign_owned(d, self.eval(rv).1)
        }
    }
}

impl State {
    fn read_place(&mut self, place: &Place) -> (r: Val)
        requires
            old(self)@.wf(),
            place.local < old(self)@.vars.len(),
        ensures
            (final(self)@, r) == old(self)@.read_place(*place),
            final(self)@.wf(),
            frame_kept(old(self)@, final(self)@),
    {
        let local = place.local;
        if place.projection.len() == 0 {
            self.read(local)
        } else if single_deref(place) {
            self.read_through(local)
        } else {
            Val::Unknown
        }
    }

    fn operand(&mut self, op: &Operand) -> (r: Val)
        requires
            old(self)@.wf(),
            operand_ok(*op, old(self)@.vars.len()),
        ensures
            (final(self)@, r) == old(self)@.operand(*op),
            final(self)@.wf(),
            frame_kept(old(self)@, final(self)@),
    {
        match op {
            Operand::Copy(p) => self.read_place(p),
            Operand::Move(p) => self.read_place(p),
            Operand::Constant(c) => match c.bits {
                Some(bits) => if c.is_bool {
                    Val::Bool(bits != 0)
                } else {
                    Val::Int(bits)
                },
                None => if c.is_unit {
                    Val::Unit
                } else {
                    Val::Unknown
                },
            },
            Operand::Other(_) => Val::Unknown,
        }
    }

    fn eval(&mut self, rv: &Rvalue) -> (r: Val)
        requires
            old(self)@.wf(),
            rvalue_ok(*rv, old(self)@.vars.len()),
        ensures
            (final(self)@, r) == old(self)@.eval(*rv),
            final(self)@.wf(),
            frame_kept(old(self)@, final(self)@),
    {
        match &rv.kind {
            RvalueKind::Use(op) => self.operand(op),
            RvalueKind::Cast(op) => self.operand(op),
            RvalueKind::UnaryOp(u, x) => {
                let v = self.operand(x);
                match (u, v) {
                    (UnOp::Neg, Val::Int(a)) => if a == i128::MIN {
                        Val::Unknown
                    } else {
                        Val::Int(-a)
                    },
                    (UnOp::Not, Val::Bool(b)) => Val::Bool(!b),
                    _ => Val::Unknown,
                }
            },
            RvalueKind::BinaryOp(op, l, r) => {
                let a = self.operand(l);
                let b = self.operand(r);
                match (a, b) {
                    (Val::Int(x), Val::Int(y)) => fold(op, x, y),
                    _ => Val::Unknown,
                }
            },
            _ => Val::Unknown,
        }
    }

    fn ref_source(&self, op: &Operand) -> (r: Option<usize>)
        requires
            self@.wf(),
            operand_ok(*op, self@.vars.len()),
        ensures
            r == self@.ref_source(*op),
    {
        let src = match operand_locals(op) {
            Some(s) => s,
            None => return None,
        };
        match self.vars[src] {
            Some(Ownership::SharedRef(..)) | Some(Ownership::MutRef(..)) => Some(src),
            _ => None,
        }
    }

    fn ref_arg(&self, op: &Operand) -> (r: Option<usize>)
        requires
            self@.wf(),
            operand_ok(*op, self@.vars.len()),
        ensures
            r == self@.ref_arg(*op),
            r matches Some(l) ==> l < self@.vars.len(),
    {
        match op {
            Operand::Copy(p) | Operand::Move(p) => {
                if p.projection.len() == 0 {
                    let l = p.local;
                    match self.vars[l] {
                        Some(Ownership::SharedRef(..)) | Some(Ownership::MutRef(..)) => Some(l),
                        _ => None,
                    }
                } else {
                    None
                }
            },
            _ => None,
        }
    }

    fn subst(&mut self, v: &Val, actuals: &Vec<(Val, Option<usize>)>) -> (r: Val)
        requires
            old(self)@.wf(),
            actuals_ok(actuals@, old(self)@.vars.len()),
        ensures
            (final(self)@, r) == old(self)@.subst(*v, actuals@),
            final(self)@.wf(),
            frame_kept(old(self)@, final(self)@),
    {
        match v {
            Val::Param(i) => if *i < actuals.len() {
                actuals[*i].0
            } else {
                Val::Unknown
            },
            Val::In(i) => {
                let rl = if *i < actuals.len() {
                    actuals[*i].1
                } else {
                    None
                };
                match rl {
                    Some(rl) => {
                        proof {
                            assert(actuals@[*i as int].1 == Some(rl));
                        }
                        self.read_through(rl)
                    },
                    None => Val::Unknown,
                }
            },
            other => *other,
        }
    }

    /// Applies a callee's summary at a call: its writes through the reference
    /// arguments, then its result into `dest`.
    pub fn instantiate(&mut self, summary: &HeapSummary, actuals: &Vec<(Val, Option<usize>)>, dest: usize)
        requires
            old(self)@.wf(),
            actuals_ok(actuals@, old(self)@.vars.len()),
            dest < old(self)@.vars.len(),
        ensures
            final(self)@ == old(self)@.instantiate(summary.writes@, summary.ret, actuals@, dest as int),
            final(self)@.wf(),
            frame_kept(old(self)@, final(self)@),
    {
        let writes = &summary.writes;
        let mut k: usize = 0;
        while k < writes.len()
            invariant
                k <= writes@.len(),
                self@.wf(),
                self@.vars.len() == old(self)@.vars.len(),
                frame_kept(old(self)@, self@),
                actuals_ok(actuals@, self@.vars.len()),
                self@ == old(self)@.apply_writes(writes@.take(k as int), actuals@),
            decreases writes@.len() - k,
        {
            proof {
                assert(writes@.take(k + 1).drop_last() =~= writes@.take(k as int));
            }
            let (param, wv) = writes[k];
            let rl = if param < actuals.len() {
                actuals[param].1
            } else {
                None
            };
            if let Some(rl) = rl {
                proof {
                    assert(actuals@[param as int].1 == Some(rl));
                }
                let v = self.subst(&wv, actuals);
                self.write_through(rl, v);
            }
            k = k + 1;
        }
        proof {
            assert(writes@.take(writes@.len() as int) =~= writes@);
        }
        match &summary.ret {
            Ret::Val(v) => {
                let v2 = self.subst(v, actuals);
                self.assign_owned(dest, v2);
            },
            Ret::Ref(i) => {
                let rl = if *i < actuals.len() {
                    actuals[*i].1
                } else {
                    None
                };
                match rl {
                    Some(rl) => {
                        proof {
                            assert(actuals@[*i as int].1 == Some(rl));
                        }
                        self.alias_ref(dest, rl)
                    },
                    None => self.assign_owned(dest, Val::Unknown),
                }
            },
        }
    }

    fn assign_use(&mut self, d: usize, op: &Operand, rv: &Rvalue)
        requires
            old(self)@.wf(),
            d < old(self)@.vars.len(),
            old(self)@.refs[d as int],
            operand_ok(*op, old(self)@.vars.len()),
            rvalue_ok(*rv, old(self)@.vars.len()),
        ensures
            final(self)@ == old(self)@.assign_use(d as int, *op, *rv),
            final(self)@.wf(),
            frame_kept(old(self)@, final(self)@),
    {
        match self.ref_source(op) {
            Some(src) => self.alias_ref(d, src),
            None => {
                let v = self.eval(rv);
                self.assign_owned(d, v);
            },
        }
    }

    /// The effect of `d = rv`.
    pub fn step_assign(&mut self, d: usize, rv: &Rvalue)
        requires
            old(self)@.wf(),
            d < old(self)@.vars.len(),
            rvalue_ok(*rv, old(self)@.vars.len()),
        ensures
            final(self)@ == old(self)@.step_assign(d as int, *rv),
            final(self)@.wf(),
            frame_kept(old(self)@, final(self)@),
    {
        match &rv.kind {
            RvalueKind::Ref { mutable, place } if place.projection.len() == 0 => {
                self.create_ref(d, place.local, *mutable);
            },
            RvalueKind::RawPtr { mutable, place } if place.projection.len() == 0 => {
                self.create_ref(d, place.local, *mutable);
            },
            RvalueKind::Ref { mutable, place } if single_deref(place) => {
                self.reborrow(d, place.local, *mutable);
            },
            RvalueKind::RawPtr { mutable, place } if single_deref(place) => {
                self.reborrow(d, place.local, *mutable);
            },
            RvalueKind::Use(op) if self.refs[d] => {
                self.assign_use(d, op, rv);
            },
            RvalueKind::Cast(op) if self.refs[d] => {
                self.assign_use(d, op, rv);
            },
            _ => {
                let v = self.eval(rv);
                self.assign_owned(d, v);
            },
        }
    }
}

} // verus!

verus! {

// ---------------------------------------------------------------------------
// Lifetimes of locals.
// ---------------------------------------------------------------------------

pub open spec fn at_step(ls: Seq<usize>, step: int) -> Seq<(usize, int)> {
    ls.map_values(|l: usize| (l, step))
}

/// The locals a statement mentions, each at the statement's program point.
pub open spec fn stmt_marks(s: Statement, step: int) -> Seq<(usize, int)> {
    match s.kind {
        StatementKind::Assign(p, rv) => seq![(p.local, step)] + at_step(
            crate::mir::spec_rvalue_locals(rv),
            step,
        ),
        _ => seq![],
    }
}

pub open spec fn stmts_marks(ss: Seq<Statement>, base: int) -> Seq<(usize, int)>
    decreases ss.len(),
{
    if ss.len() == 0 {
        seq![]
    } else {
        stmts_marks(ss.drop_last(), base) + stmt_marks(ss.last(), base + ss.len() - 1)
    }
}

pub open spec fn block_marks(b: BasicBlockData, base: int) -> Seq<(usize, int)> {
    stmts_marks(b.statements@, base) + at_step(
        crate::mir::spec_terminator_locals(b.terminator),
        base + b.statements@.len(),
    )
}

/// Every mention of a local in the first `k` blocks, with its program point,
/// in program order.
pub open spec fn body_marks(blocks: Seq<BasicBlockData>, k: int) -> Seq<(usize, int)>
    decreases k,
{
    if k <= 0 {
        seq![]
    } else {
        body_marks(blocks, k - 1) + block_marks(blocks[k - 1], steps_upto(blocks, k - 1) as int)
    }
}

pub open spec fn stmt_deaths(s: Statement, step: int) -> Seq<(usize, int)> {
    match s.kind {
        StatementKind::StorageDead(l) => seq![(l, step)],
        _ => seq![],
    }
}

pub open spec fn stmts_deaths(ss: Seq<Statement>, base: int) -> Seq<(usize, int)>
    decreases ss.len(),
{
    if ss.len() == 0 {
        seq![]
    } else {
        stmts_deaths(ss.drop_last(), base) + stmt_deaths(ss.last(), base + ss.len() - 1)
    }
}

/// Every `StorageDead` of the first `k` blocks, with its program point.
pub open spec fn body_deaths(blocks: Seq<BasicBlockData>, k: int) -> Seq<(usize, int)>
    decreases k,
{
    if k <= 0 {
        seq![]
    } else {
        body_deaths(blocks, k - 1) + stmts_deaths(
            blocks[k - 1].statements@,
            steps_upto(blocks, k - 1) as int,
        )
    }
}

/// The first program point at which `l` is mentioned (`usize::MAX` if never).
pub open spec fn first_step(ms: Seq<(usize, int)>, l: usize) -> int
    decreases ms.len(),
{
    if ms.len() == 0 {
        usize::MAX as int
    } else {
        let p = first_step(ms.drop_last(), l);
        if ms.last().0 == l && ms.last().1 < p {
            ms.last().1
        } else {
            p
        }
    }
}

/// The last program point at which `l` is mentioned (`0` if never).
pub open spec fn last_step(ms: Seq<(usize, int)>, l: usize) -> int
    decreases ms.len(),
{
    if ms.len() == 0 {
        0
    } else {
        let p = last_step(ms.drop_last(), l);
        if ms.last().0 == l && ms.last().1 > p {
            ms.last().1
        } else {
            p
        }
    }
}

/// The program point of the last `StorageDead(l)`.
pub open spec fn dead_step(ds: Seq<(usize, int)>, l: usize) -> Option<int>
    decreases ds.len(),
{
    if ds.len() == 0 {
        None
    } else if ds.last().0 == l {
        Some(ds.last().1)
    } else {
        dead_step(ds.drop_last(), l)
    }
}

/// The lifetime of local `i`: from its first mention to just after its last
/// mention, or, for a non-reference with a `StorageDead`, to just after that.
pub open spec fn lifetime_of(body: &Body, i: int) -> Lifetime {
    let ms = body_marks(body.basic_blocks@, body.n_blocks() as int);
    let ds = body_deaths(body.basic_blocks@, body.n_blocks() as int);
    let first = first_step(ms, i as usize);
    let last = last_step(ms, i as usize);
    Lifetime {
        id: i as usize,
        start: if first == usize::MAX {
            0
        } else {
            first as usize
        },
        end: if body.local_decls@[i].is_ref {
            (last + 1) as usize
        } else {
            match dead_step(ds, i as usize) {
                Some(d) => (d + 1) as usize,
                None => (last + 1) as usize,
            }
        },
    }
}

proof fn lemma_marks_bounded(blocks: Seq<BasicBlockData>, k: int, bound: int)
    requires
        0 <= k <= blocks.len(),
        steps_upto(blocks, k) <= bound,
    ensures
        forall|j: int|
            0 <= j < body_marks(blocks, k).len() ==> 0 <= (#[trigger] body_marks(blocks, k)[j]).1 < bound,
        forall|j: int|
            0 <= j < body_deaths(blocks, k).len() ==> 0 <= (#[trigger] body_deaths(blocks, k)[j]).1 < bound,
    decreases k,
{
    if k > 0 {
        lemma_steps_mono(blocks, k - 1, k);
        lemma_marks_bounded(blocks, k - 1, bound);
        let base = steps_upto(blocks, k - 1) as int;
        let b = blocks[k - 1];
        lemma_stmts_marks_bounded(b.statements@, base, b.statements@.len() as int);
        let tm = at_step(crate::mir::spec_terminator_locals(b.terminator), base + b.statements@.len());
        let bm = block_marks(b, base);
        assert forall|j: int| 0 <= j < bm.len() implies base <= (#[trigger] bm[j]).1 < bound by {
            if j >= stmts_marks(b.statements@, base).len() {
                assert(bm[j] == tm[j - stmts_marks(b.statements@, base).len()]);
            } else {
                assert(bm[j] == stmts_marks(b.statements@, base)[j]);
            }
        }
        let m = body_marks(blocks, k);
        assert forall|j: int| 0 <= j < m.len() implies 0 <= (#[trigger] m[j]).1 < bound by {
            if j < body_marks(blocks, k - 1).len() {
                assert(m[j] == body_marks(blocks, k - 1)[j]);
            } else {
                assert(m[j] == bm[j - body_marks(blocks, k - 1).len()]);
            }
        }
        lemma_stmts_deaths_bounded(b.statements@, base, b.statements@.len() as int);
        let d = body_deaths(blocks, k);
        assert forall|j: int| 0 <= j < d.len() implies 0 <= (#[trigger] d[j]).1 < bound by {
            if j < body_deaths(blocks, k - 1).len() {
                assert(d[j] == body_deaths(blocks, k - 1)[j]);
            } else {
                assert(d[j] == stmts_deaths(b.statements@, base)[j - body_deaths(blocks, k - 1).len()]);
            }
        }
    }
}

proof fn lemma_stmts_marks_bounded(ss: Seq<Statement>, base: int, total: int)
    requires
        ss.len() <= total,
    ensures
        forall|j: int|
            0 <= j < stmts_marks(ss, base).len() ==> base <= (#[trigger] stmts_marks(ss, base)[j]).1
                < base + total,
    decreases ss.len(),
{
    if ss.len() > 0 {
        lemma_stmts_marks_bounded(ss.drop_last(), base, total);
        let m = stmts_marks(ss, base);
        let p = stmts_marks(ss.drop_last(), base);
        let sm = stmt_marks(ss.last(), base + ss.len() - 1);
        assert forall|j: int| 0 <= j < m.len() implies base <= (#[trigger] m[j]).1 < base + total by {
            if j < p.len() {
                assert(m[j] == p[j]);
            } else {
                assert(m[j] == sm[j - p.len()]);
                match ss.last().kind {
                    StatementKind::Assign(pl, rv) => {
                        let rl = at_step(crate::mir::spec_rvalue_locals(rv), base + ss.len() - 1);
                        if j - p.len() > 0 {
                            assert(sm[j - p.len()] == rl[j - p.len() - 1]);
                        }
                    },
                    _ => {},
                }
            }
        }
    }
}

proof fn lemma_stmts_deaths_bounded(ss: Seq<Statement>, base: int, total: int)
    requires
        ss.len() <= total,
    ensures
        forall|j: int|
            0 <= j < stmts_deaths(ss, base).len() ==> base <= (#[trigger] stmts_deaths(ss, base)[j]).1
                < base + total,
    decreases ss.len(),
{
    if ss.len() > 0 {
        lemma_stmts_deaths_bounded(ss.drop_last(), base, total);
        let m = stmts_deaths(ss, base);
        let p = stmts_deaths(ss.drop_last(), base);
        assert forall|j: int| 0 <= j < m.len() implies base <= (#[trigger] m[j]).1 < base + total by {
            if j < p.len() {
                assert(m[j] == p[j]);
            }
        }
    }
}

proof fn lemma_steps_mono(blocks: Seq<BasicBlockData>, a: int, b: int)
    requires
        0 <= a <= b,
    ensures
        steps_upto(blocks, a) <= steps_upto(blocks, b),
    decreases b - a,
{
    if a < b {
        lemma_steps_mono(blocks, a, b - 1);
    }
}

/// Records a mention of each of `ls` at `step`.
fn mark_all(first: &mut Vec<usize>, last: &mut Vec<usize>, ls: &Vec<usize>, step: usize, Ghost(ms): Ghost<Seq<(usize, int)>>)
    requires
        old(first)@.len() == old(last)@.len(),
        old(first)@.len() <= crate::mir::size_bound(),
        forall|k: int| 0 <= k < ls@.len() ==> ls@[k] < old(first)@.len(),
        forall|l: int| 0 <= l < old(first)@.len() ==> old(first)@[l] == first_step(ms, l as usize),
        forall|l: int| 0 <= l < old(last)@.len() ==> old(last)@[l] == last_step(ms, l as usize),
    ensures
        final(first)@.len() == old(first)@.len(),
        final(last)@.len() == old(last)@.len(),
        forall|l: int| 0 <= l < final(first)@.len() ==> final(first)@[l] == first_step(ms + at_step(ls@, step as int), l as usize),
        forall|l: int| 0 <= l < final(last)@.len() ==> final(last)@[l] == last_step(ms + at_step(ls@, step as int), l as usize),
{
    let mut k: usize = 0;
    while k < ls.len()
        invariant
            k <= ls@.len(),
            first@.len() == old(first)@.len(),
            last@.len() == old(last)@.len(),
            first@.len() == last@.len(),
            first@.len() <= crate::mir::size_bound(),
            forall|j: int| 0 <= j < ls@.len() ==> ls@[j] < first@.len(),
            forall|l: int| 0 <= l < first@.len() ==> first@[l] == first_step(ms + at_step(ls@.take(k as int), step as int), l as usize),
            forall|l: int| 0 <= l < last@.len() ==> last@[l] == last_step(ms + at_step(ls@.take(k as int), step as int), l as usize),
        decreases ls@.len() - k,
    {
        let l = ls[k];
        let ghost prev = ms + at_step(ls@.take(k as int), step as int);
        let ghost next = ms + at_step(ls@.take(k + 1), step as int);
        proof {
            assert(next =~= prev.push((l, step as int)));
            assert(next.drop_last() =~= prev);
        }
        let ghost f0 = first@;
        let ghost l0 = last@;
        if step < first[l] {
            first.set(l, step);
        }
        if step > last[l] {
            last.set(l, step);
        }
        proof {
            assert(next.last() == (l, step as int));
            assert forall|x: int| 0 <= x < first@.len() implies first@[x] == first_step(next, x as usize) by {
                assert(f0[x] == first_step(prev, x as usize));
                assert(first_step(next, x as usize) == if next.last().0 == x as usize && next.last().1
                    < first_step(next.drop_last(), x as usize) {
                    next.last().1
                } else {
                    first_step(next.drop_last(), x as usize)
                });
            }
            assert forall|x: int| 0 <= x < last@.len() implies last@[x] == last_step(next, x as usize) by {
                assert(l0[x] == last_step(prev, x as usize));
                assert(last_step(next, x as usize) == if next.last().0 == x as usize && next.last().1
                    > last_step(next.drop_last(), x as usize) {
                    next.last().1
                } else {
                    last_step(next.drop_last(), x as usize)
                });
            }
        }
        k = k + 1;
    }
    proof {
        assert(ls@.take(ls@.len() as int) =~= ls@);
    }
}

/// The lifetime of every local.
pub fn lifetimes(body: &Body) -> (r: Vec<Lifetime>)
    requires
        body.wf(),
    ensures
        r@.len() == body.n_locals(),
        forall|i: int| 0 <= i < body.n_locals() ==> #[trigger] r@[i] == lifetime_of(body, i),
{
    let n = body.local_decls.len();
    let mut first: Vec<usize> = Vec::new();
    let mut last: Vec<usize> = Vec::new();
    let mut dead: Vec<Option<usize>> = Vec::new();
    let mut z: usize = 0;
    while z < n
        invariant
            z <= n,
            first@.len() == z,
            last@.len() == z,
            dead@.len() == z,
            forall|l: int| 0 <= l < z ==> first@[l] == usize::MAX,
            forall|l: int| 0 <= l < z ==> last@[l] == 0,
            forall|l: int| 0 <= l < z ==> dead@[l] is None,
        decreases n - z,
    {
        first.push(usize::MAX);
        last.push(0);
        dead.push(None);
        z = z + 1;
    }
    let ghost blocks = body.basic_blocks@;
    let nb = body.basic_blocks.len();
    let mut step: usize = 0;
    let mut b: usize = 0;
    proof {
        lemma_marks_bounded(blocks, nb as int, crate::mir::size_bound() as int);
    }
    while b < nb
        invariant
            b <= nb,
            nb == blocks.len(),
            blocks == body.basic_blocks@,
            body.wf(),
            n == body.n_locals(),
            step as int == steps_upto(blocks, b as int),
            first@.len() == n,
            last@.len() == n,
            dead@.len() == n,
            forall|l: int| 0 <= l < n ==> first@[l] == first_step(body_marks(blocks, b as int), l as usize),
            forall|l: int| 0 <= l < n ==> last@[l] == last_step(body_marks(blocks, b as int), l as usize),
            forall|l: int| 0 <= l < n ==> dead@[l] == match dead_step(body_deaths(blocks, b as int), l as usize) {
                Some(d) => Some(d as usize),
                None => None,
            },
        decreases nb - b,
    {
        let data = &body.basic_blocks[b];
        proof {
            lemma_steps_mono(blocks, b + 1, nb as int);
            assert(crate::mir::block_ok(blocks[b as int], n as nat, nb as nat));
        }
        let ghost base = step as int;
        let ghost ms0 = body_marks(blocks, b as int);
        let ghost ds0 = body_deaths(blocks, b as int);
        let mut k: usize = 0;
        while k < data.statements.len()
            invariant
                k <= data.statements@.len(),
                *data == blocks[b as int],
                b < nb,
                nb == blocks.len(),
                body.wf(),
                n == body.n_locals(),
                crate::mir::block_ok(blocks[b as int], n as nat, nb as nat),
                steps_upto(blocks, b + 1) <= crate::mir::size_bound(),
                step as int == base + k,
                base == steps_upto(blocks, b as int),
                first@.len() == n,
                last@.len() == n,
                dead@.len() == n,
                forall|l: int| 0 <= l < n ==> first@[l] == first_step(ms0 + stmts_marks(data.statements@.take(k as int), base), l as usize),
                forall|l: int| 0 <= l < n ==> last@[l] == last_step(ms0 + stmts_marks(data.statements@.take(k as int), base), l as usize),
                forall|l: int| 0 <= l < n ==> dead@[l] == match dead_step(ds0 + stmts_deaths(data.statements@.take(k as int), base), l as usize) {
                    Some(d) => Some(d as usize),
                    None => None,
                },
            decreases data.statements@.len() - k,
        {
            let ghost ss1 = data.statements@.take(k + 1);
            assert(ss1.drop_last() =~= data.statements@.take(k as int));
            let ghost msk = ms0 + stmts_marks(data.statements@.take(k as int), base);
            assert(crate::mir::stmt_ok(data.statements@[k as int], n as nat));
            match &data.statements[k].kind {
                StatementKind::Assign(place, rv) => {
                    let mut ls: Vec<usize> = Vec::new();
                    ls.push(place.local);
                    let rl = rvalue_locals(rv);
                    let mut j: usize = 0;
                    while j < rl.len()
                        invariant
                            j <= rl@.len(),
                            ls@ == seq![place.local] + rl@.take(j as int),
                        decreases rl@.len() - j,
                    {
                        ls.push(rl[j]);
                        proof {
                            assert(ls@ =~= seq![place.local] + rl@.take(j + 1));
                        }
                        j = j + 1;
                    }
                    proof {
                        assert(rl@.take(rl@.len() as int) =~= rl@);
                        assert(crate::mir::rvalue_ok(*rv, n as nat));
                        assert forall|q: int| 0 <= q < ls@.len() implies ls@[q] < first@.len() by {
                            if q > 0 {
                                assert(ls@[q] == rl@[q - 1]);
                                lemma_rvalue_locals_ok(*rv, n as nat);
                            }
                        }
                    }
                    mark_all(&mut first, &mut last, &ls, step, Ghost(msk));
                    proof {
                        assert(at_step(ls@, step as int) =~= stmt_marks(data.statements@[k as int], step as int));
                        assert(msk + at_step(ls@, step as int) =~= ms0 + stmts_marks(ss1, base));
                        assert(stmts_deaths(ss1, base) =~= stmts_deaths(data.statements@.take(k as int), base));
                    }
                },
                StatementKind::StorageDead(l) => {
                    dead.set(*l, Some(step));
                    proof {
                        assert(stmts_marks(ss1, base) =~= stmts_marks(data.statements@.take(k as int), base));
                        let d1 = ds0 + stmts_deaths(ss1, base);
                        assert(d1 =~= (ds0 + stmts_deaths(data.statements@.take(k as int), base)).push((*l, step as int)));
                        assert(d1.drop_last() =~= ds0 + stmts_deaths(data.statements@.take(k as int), base));
                    }
                },
                _ => {
                    proof {
                        assert(stmts_marks(ss1, base) =~= stmts_marks(data.statements@.take(k as int), base));
                        assert(stmts_deaths(ss1, base) =~= stmts_deaths(data.statements@.take(k as int), base));
                    }
                },
            }
            step = step + 1;
            k = k + 1;
        }
        proof {
            assert(data.statements@.take(data.statements@.len() as int) =~= data.statements@);
        }
        let tl = terminator_locals(&data.terminator);
        proof {
            lemma_terminator_locals_ok(data.terminator, n as nat, nb as nat);
        }
        mark_all(&mut first, &mut last, &tl, step, Ghost(ms0 + stmts_marks(data.statements@, base)));
        proof {
            assert(ms0 + stmts_marks(data.statements@, base) + at_step(tl@, step as int) =~= body_marks(blocks, b + 1));
            assert(ds0 + stmts_deaths(data.statements@, base) =~= body_deaths(blocks, b + 1));
        }
        step = step + 1;
        b = b + 1;
    }
    let mut out: Vec<Lifetime> = Vec::new();
    let mut i: usize = 0;
    while i < n
        invariant
            i <= n,
            n == body.n_locals(),
            nb == body.n_blocks(),
            blocks == body.basic_blocks@,
            body.wf(),
            first@.len() == n,
            last@.len() == n,
            dead@.len() == n,
            forall|l: int| 0 <= l < n ==> first@[l] == first_step(body_marks(blocks, nb as int), l as usize),
            forall|l: int| 0 <= l < n ==> last@[l] == last_step(body_marks(blocks, nb as int), l as usize),
            forall|l: int| 0 <= l < n ==> dead@[l] == match dead_step(body_deaths(blocks, nb as int), l as usize) {
                Some(d) => Some(d as usize),
                None => None,
            },
            forall|j: int|
                0 <= j < body_marks(blocks, nb as int).len() ==> 0 <= (#[trigger] body_marks(blocks, nb as int)[j]).1 < crate::mir::size_bound(),
            forall|j: int|
                0 <= j < body_deaths(blocks, nb as int).len() ==> 0 <= (#[trigger] body_deaths(blocks, nb as int)[j]).1 < crate::mir::size_bound(),
            out@.len() == i,
            forall|j: int| 0 <= j < i ==> #[trigger] out@[j] == lifetime_of(body, j),
        decreases n - i,
    {
        proof {
            lemma_last_bounded(body_marks(blocks, nb as int), i);
            lemma_dead_bounded(body_deaths(blocks, nb as int), i);
        }
        let start = if first[i] == usize::MAX {
            0
        } else {
            first[i]
        };
        let end = if body.local_decls[i].is_ref {
            last[i] + 1
        } else {
            match dead[i] {
                Some(d) => d + 1,
                None => last[i] + 1,
            }
        };
        out.push(Lifetime { id: i, start, end });
        i = i + 1;
    }
    out
}

proof fn lemma_last_bounded(ms: Seq<(usize, int)>, l: usize)
    requires
        forall|j: int| 0 <= j < ms.len() ==> 0 <= (#[trigger] ms[j]).1 < crate::mir::size_bound(),
    ensures
        0 <= last_step(ms, l) < crate::mir::size_bound(),
    decreases ms.len(),
{
    if ms.len() > 0 {
        let d = ms.drop_last();
        assert forall|j: int| 0 <= j < d.len() implies 0 <= (#[trigger] d[j]).1 < crate::mir::size_bound() by {
            assert(d[j] == ms[j]);
        }
        lemma_last_bounded(d, l);
    }
}

proof fn lemma_dead_bounded(ds: Seq<(usize, int)>, l: usize)
    requires
        forall|j: int| 0 <= j < ds.len() ==> 0 <= (#[trigger] ds[j]).1 < crate::mir::size_bound(),
    ensures
        dead_step(ds, l) matches Some(d) ==> 0 <= d < crate::mir::size_bound(),
    decreases ds.len(),
{
    if ds.len() > 0 {
        let d = ds.drop_last();
        assert forall|j: int| 0 <= j < d.len() implies 0 <= (#[trigger] d[j]).1 < crate::mir::size_bound() by {
            assert(d[j] == ds[j]);
        }
        lemma_dead_bounded(d, l);
    }
}

proof fn lemma_rvalue_locals_ok(rv: Rvalue, n: nat)
    requires
        rvalue_ok(rv, n),
    ensures
        forall|k: int| 0 <= k < crate::mir::spec_rvalue_locals(rv).len() ==> #[trigger] crate::mir::spec_rvalue_locals(rv)[k] < n,
{
    let s = crate::mir::spec_rvalue_locals(rv);
    match rv.kind {
        RvalueKind::BinaryOp(_, a, b) => {
            let sa = crate::mir::opt_seq(crate::mir::spec_operand_local(a));
            assert forall|k: int| 0 <= k < s.len() implies #[trigger] s[k] < n by {
                if k < sa.len() {
                    assert(s[k] == sa[k]);
                } else {
                    assert(s[k] == crate::mir::opt_seq(crate::mir::spec_operand_local(b))[k - sa.len()]);
                }
            }
        },
        _ => {},
    }
}

proof fn lemma_terminator_locals_ok(t: Terminator, n: nat, nb: nat)
    requires
        crate::mir::term_ok(t, n, nb),
        n >= 1,
    ensures
        forall|k: int| 0 <= k < crate::mir::spec_terminator_locals(t).len() ==> #[trigger] crate::mir::spec_terminator_locals(t)[k] < n,
{
    let s = crate::mir::spec_terminator_locals(t);
    match t.kind {
        TerminatorKind::Call { func, args, destination, .. } => {
            let sf = crate::mir::opt_seq(crate::mir::spec_operand_local(func));
            let sa = crate::mir::args_locals(args@);
            lemma_args_locals_ok(args@, n);
            assert forall|k: int| 0 <= k < s.len() implies #[trigger] s[k] < n by {
                if k < sf.len() {
                    assert(s[k] == sf[k]);
                } else if k < sf.len() + sa.len() {
                    assert(s[k] == sa[k - sf.len()]);
                } else {
                    assert(s[k] == destination.local);
                }
            }
        },
        _ => {},
    }
}

proof fn lemma_args_locals_ok(args: Seq<Operand>, n: nat)
    requires
        forall|k: int| 0 <= k < args.len() ==> operand_ok(#[trigger] args[k], n),
    ensures
        forall|k: int| 0 <= k < crate::mir::args_locals(args).len() ==> #[trigger] crate::mir::args_locals(args)[k] < n,
    decreases args.len(),
{
    if args.len() > 0 {
        let d = args.drop_last();
        assert forall|k: int| 0 <= k < d.len() implies operand_ok(#[trigger] d[k], n) by {
            assert(d[k] == args[k]);
        }
        lemma_args_locals_ok(d, n);
        assert(operand_ok(args.last(), n));
        let s = crate::mir::args_locals(args);
        let p = crate::mir::args_locals(d);
        assert forall|k: int| 0 <= k < s.len() implies #[trigger] s[k] < n by {
            if k < p.len() {
                assert(s[k] == p[k]);
            }
        }
    }
}

/// The program point at which each block starts.
pub fn block_steps(body: &Body) -> (r: Vec<usize>)
    requires
        body.wf(),
    ensures
        r@.len() == body.n_blocks(),
        forall|b: int| 0 <= b < body.n_blocks() ==> #[trigger] r@[b] as int == steps_upto(body.basic_blocks@, b),
{
    let nb = body.basic_blocks.len();
    let mut base: Vec<usize> = Vec::new();
    let mut step: usize = 0;
    let mut b: usize = 0;
    while b < nb
        invariant
            b <= nb,
            nb == body.n_blocks(),
            body.wf(),
            step as int == steps_upto(body.basic_blocks@, b as int),
            base@.len() == b,
            forall|j: int| 0 <= j < b ==> #[trigger] base@[j] as int == steps_upto(body.basic_blocks@, j),
        decreases nb - b,
    {
        proof {
            lemma_steps_mono(body.basic_blocks@, b + 1, nb as int);
        }
        base.push(step);
        step = step + body.basic_blocks[b].statements.len() + 1;
        b = b + 1;
    }
    base
}

} // verus!

verus! {

// ---------------------------------------------------------------------------
// The initial state of a function.
// ---------------------------------------------------------------------------

/// The cell and binding of argument `i` (1-based) when its cell is at `a`.
pub open spec fn seed_one(s: StateV, body: &Body, i: int) -> StateV {
    let lt = s.lifetimes[i];
    let a = s.heap.len() as usize;
    if s.refs[i] {
        let mutbl = body.local_decls@[i].ref_mut;
        let owner = Lifetime { id: (1000 + i) as usize, start: 0, end: usize::MAX };
        let st = if mutbl {
            LocStateV::Mut(seq![lt])
        } else {
            LocStateV::Shared(seq![lt])
        };
        s.with_new_cell(CellV { value: Val::In((i - 1) as usize), state: st, owner }).with_var(
            i,
            if mutbl {
                Ownership::MutRef(a, lt)
            } else {
                Ownership::SharedRef(a, lt)
            },
        )
    } else {
        s.with_new_cell(
            CellV { value: Val::Param((i - 1) as usize), state: LocStateV::Owned, owner: lt },
        ).with_var(
            i,
            if s.muts[i] {
                Ownership::MutOwned(a, lt)
            } else {
                Ownership::Owned(a, lt)
            },
        )
    }
}

/// Arguments `1..=k` seeded in order.
pub open spec fn seed_upto(s: StateV, body: &Body, k: int) -> StateV
    decreases k,
{
    if k <= 0 {
        s
    } else {
        seed_one(seed_upto(s, body, k - 1), body, k)
    }
}

/// The state before the first statement: no local holds a cell but the
/// arguments, each of which owns (or, for a reference, points to) a fresh
/// cell holding its symbolic value.
pub open spec fn initial_state(body: &Body) -> StateV {
    let n = body.n_locals();
    let blank = StateV {
        names: Seq::new(n, |i: int| crate::cfg::local_name(body, i)),
        muts: Seq::new(n, |i: int| body.local_decls@[i].mutable),
        refs: Seq::new(n, |i: int| body.local_decls@[i].is_ref),
        arg_count: body.arg_count,
        lifetimes: Seq::new(n, |i: int| lifetime_of(body, i)),
        block_step: Seq::new(body.n_blocks(), |b: int| steps_upto(body.basic_blocks@, b) as usize),
        heap: seq![],
        vars: Seq::new(n, |i: int| None),
        step: 0,
        ub: seq![],
    };
    seed_upto(blank, body, body.arg_count as int)
}

/// The state agrees with the body it runs over.
pub open spec fn fits(s: StateV, body: &Body) -> bool {
    &&& s.wf()
    &&& s.vars.len() == body.n_locals()
    &&& s.block_step.len() == body.n_blocks()
    &&& forall|b: int|
        0 <= b < body.n_blocks() ==> #[trigger] s.block_step[b] as int == steps_upto(
            body.basic_blocks@,
            b,
        )
}

impl State {
    fn seed_params(&mut self, body: &Body)
        requires
            old(self)@.wf(),
            body.wf(),
            old(self)@.vars.len() == body.n_locals(),
            old(self)@.arg_count == body.arg_count,
        ensures
            final(self)@ == seed_upto(old(self)@, body, body.arg_count as int),
            final(self)@.wf(),
            frame_kept(old(self)@, final(self)@),
    {
        let mut i: usize = 1;
        while i <= self.arg_count
            invariant
                1 <= i <= self.arg_count + 1,
                self@.wf(),
                body.wf(),
                self@.vars.len() == body.n_locals(),
                self@.arg_count == body.arg_count,
                self@.arg_count == old(self)@.arg_count,
                frame_kept(old(self)@, self@),
                self@ == seed_upto(old(self)@, body, i - 1),
            decreases self.arg_count + 1 - i,
        {
            let lt = self.lifetimes[i];
            let a = self.heap.len();
            if self.refs[i] {
                let mutbl = body.local_decls[i].ref_mut;
                let owner = Lifetime { id: 1000 + i, start: 0, end: usize::MAX };
                let mut v: Vec<Lifetime> = Vec::new();
                v.push(lt);
                let st = if mutbl {
                    LocState::Mut(v)
                } else {
                    LocState::Shared(v)
                };
                proof {
                    assert(v@ =~= seq![lt]);
                }
                self.push_cell(Cell { value: Val::In(i - 1), state: st, owner });
                let o = if mutbl {
                    Ownership::MutRef(a, lt)
                } else {
                    Ownership::SharedRef(a, lt)
                };
                self.set_var(i, o);
            } else {
                self.push_cell(Cell { value: Val::Param(i - 1), state: LocState::Owned, owner: lt });
                let o = if self.muts[i] {
                    Ownership::MutOwned(a, lt)
                } else {
                    Ownership::Owned(a, lt)
                };
                self.set_var(i, o);
            }
            i = i + 1;
        }
    }

    /// A copy of the state.
    pub fn duplicate(&self) -> (r: State)
        ensures
            r@ == self@,
    {
        let mut heap: Vec<Cell> = Vec::new();
        let mut i: usize = 0;
        while i < self.heap.len()
            invariant
                i <= self.heap@.len(),
                heap@.len() == i,
                forall|j: int| 0 <= j < i ==> (#[trigger] heap@[j])@ == self.heap@[j]@,
            decreases self.heap@.len() - i,
        {
            let c = &self.heap[i];
            heap.push(Cell { value: c.value, state: c.state.duplicate(), owner: c.owner });
            i = i + 1;
        }
        let r = State {
            names: clone_strings(&self.names),
            muts: self.muts.clone(),
            refs: self.refs.clone(),
            arg_count: self.arg_count,
            lifetimes: copy_lifetimes(&self.lifetimes),
            block_step: self.block_step.clone(),
            heap,
            vars: self.vars.clone(),
            step: self.step,
            ub: clone_strings(&self.ub),
        };
        proof {
            assert(r@.heap =~= self@.heap);
            assert(r.muts@ =~= self.muts@);
            assert(r.refs@ =~= self.refs@);
            assert(r.block_step@ =~= self.block_step@);
            assert(r.vars@ =~= self.vars@);
            assert(r@ =~= self@);
        }
        r
    }
}

/// Copies of the strings.
pub fn clone_strings(v: &Vec<String>) -> (r: Vec<String>)
    ensures
        crate::text::views(r@) == crate::text::views(v@),
        r@.len() == v@.len(),
{
    let mut out: Vec<String> = Vec::new();
    let mut i: usize = 0;
    while i < v.len()
        invariant
            i <= v@.len(),
            out@.len() == i,
            forall|j: int| 0 <= j < i ==> (#[trigger] out@[j])@ == v@[j]@,
        decreases v@.len() - i,
    {
        out.push(v[i].clone());
        i = i + 1;
    }
    proof {
        assert(crate::text::views(out@) =~= crate::text::views(v@));
    }
    out
}

/// The state before the first statement of `body`.
pub fn new_state(body: &Body) -> (r: State)
    requires
        body.wf(),
    ensures
        r@ == initial_state(body),
        fits(r@, body),
{
    let n = body.local_decls.len();
    let names = crate::cfg::local_names(body);
    let mut muts: Vec<bool> = Vec::new();
    let mut refs: Vec<bool> = Vec::new();
    let mut vars: Vec<Option<Ownership>> = Vec::new();
    let mut i: usize = 0;
    while i < n
        invariant
            i <= n,
            n == body.n_locals(),
            muts@.len() == i,
            refs@.len() == i,
            vars@.len() == i,
            forall|j: int| 0 <= j < i ==> #[trigger] muts@[j] == body.local_decls@[j].mutable,
            forall|j: int| 0 <= j < i ==> #[trigger] refs@[j] == body.local_decls@[j].is_ref,
            forall|j: int| 0 <= j < i ==> #[trigger] vars@[j] is None,
        decreases n - i,
    {
        muts.push(body.local_decls[i].mutable);
        refs.push(body.local_decls[i].is_ref);
        vars.push(None);
        i = i + 1;
    }
    let mut s = State {
        names,
        muts,
        refs,
        arg_count: body.arg_count,
        lifetimes: lifetimes(body),
        block_step: block_steps(body),
        heap: Vec::new(),
        vars,
        step: 0,
        ub: Vec::new(),
    };
    let ghost blank = StateV {
        names: Seq::new(n as nat, |i: int| crate::cfg::local_name(body, i)),
        muts: Seq::new(n as nat, |i: int| body.local_decls@[i].mutable),
        refs: Seq::new(n as nat, |i: int| body.local_decls@[i].is_ref),
        arg_count: body.arg_count,
        lifetimes: Seq::new(n as nat, |i: int| lifetime_of(body, i)),
        block_step: Seq::new(body.n_blocks(), |b: int| steps_upto(body.basic_blocks@, b) as usize),
        heap: seq![],
        vars: Seq::new(n as nat, |i: int| None),
        step: 0,
        ub: seq![],
    };
    proof {
        assert(s@.names =~= blank.names);
        assert(s@.muts =~= blank.muts);
        assert(s@.refs =~= blank.refs);
        assert(s@.lifetimes =~= blank.lifetimes);
        assert(s@.block_step =~= blank.block_step);
        assert(s@.heap =~= blank.heap);
        assert(s@.vars =~= blank.vars);
        assert(s@.ub =~= blank.ub);
        assert(s@ =~= blank);
    }
    s.seed_params(body);
    proof {
        lemma_seed_keeps(blank, body, body.arg_count as int);
    }
    s
}

proof fn lemma_seed_keeps(s: StateV, body: &Body, k: int)
    requires
        0 <= k <= s.arg_count,
        s.wf(),
    ensures
        seed_upto(s, body, k).vars.len() == s.vars.len(),
        seed_upto(s, body, k).block_step == s.block_step,
    decreases k,
{
    if k > 0 {
        lemma_seed_keeps(s, body, k - 1);
    }
}

} // verus!

verus! {

// ---------------------------------------------------------------------------
// Running blocks.
// ---------------------------------------------------------------------------

/// The first entry of `s` whose key is `id`.
pub open spec fn lookup<T>(s: Seq<(u64, T)>, id: u64) -> Option<T>
    decreases s.len(),
{
    if s.len() == 0 {
        None
    } else {
        match lookup(s.drop_last(), id) {
            Some(v) => Some(v),
            None => if s.last().0 == id {
                Some(s.last().1)
            } else {
                None
            },
        }
    }
}

/// The position of the first entry of `s` whose key is `id`.
pub fn find_key<T>(s: &Vec<(u64, T)>, id: u64) -> (r: Option<usize>)
    ensures
        match r {
            Some(k) => k < s@.len() && s@[k as int].0 == id && lookup(s@, id) == Some(s@[k as int].1),
            None => lookup(s@, id) is None,
        },
{
    let mut i: usize = 0;
    while i < s.len()
        invariant
            i <= s@.len(),
            lookup(s@.take(i as int), id) is None,
        decreases s@.len() - i,
    {
        proof {
            assert(s@.take(i + 1).drop_last() =~= s@.take(i as int));
        }
        if s[i].0 == id {
            proof {
                lemma_lookup_prefix(s@, i + 1, id);
            }
            return Some(i);
        }
        i = i + 1;
    }
    proof {
        assert(s@.take(s@.len() as int) =~= s@);
    }
    None
}

/// Once a key is found in a prefix, the lookup of the whole sequence finds it
/// there.
pub proof fn lemma_lookup_prefix<T>(s: Seq<(u64, T)>, k: int, id: u64)
    requires
        0 <= k <= s.len(),
        lookup(s.take(k), id) is Some,
    ensures
        lookup(s, id) == lookup(s.take(k), id),
    decreases s.len() - k,
{
    if k < s.len() {
        assert(s.take(k + 1).drop_last() =~= s.take(k));
        lemma_lookup_prefix(s, k + 1, id);
    } else {
        assert(s.take(k) =~= s);
    }
}

/// The summary of the function a call names, when there is one.
pub open spec fn callee_summary(sums: Seq<(u64, HeapSummary)>, func: Operand) -> Option<HeapSummary> {
    match crate::mir::spec_callee(func) {
        Some(d) => lookup(sums, d),
        None => None,
    }
}

impl StateV {
    pub open spec fn with_step(self, step: int) -> StateV {
        StateV { step: step as usize, ..self }
    }

    /// The effect of one statement.
    pub open spec fn stmt_effect(self, st: Statement) -> StateV {
        match st.kind {
            StatementKind::Assign(place, rv) => if place.projection@.len() == 0 {
                self.step_assign(place.local as int, rv)
            } else if crate::mir::spec_single_deref(place) {
                let (s1, v) = self.eval(rv);
                s1.write_through(place.local as int, v)
            } else {
                self
            },
            _ => self,
        }
    }

    /// The statements run in order, each at its own program point.
    pub open spec fn run_stmts(self, ss: Seq<Statement>) -> StateV
        decreases ss.len(),
    {
        if ss.len() == 0 {
            self
        } else {
            let s1 = self.run_stmts(ss.drop_last()).stmt_effect(ss.last());
            s1.with_step(s1.step + 1)
        }
    }

    /// The arguments of a call, read left to right: a reference held in a
    /// local is passed as that local, anything else as its value.
    pub open spec fn eval_args(self, args: Seq<Operand>) -> (StateV, Seq<(Val, Option<usize>)>)
        decreases args.len(),
    {
        if args.len() == 0 {
            (self, seq![])
        } else {
            let (s1, acts) = self.eval_args(args.drop_last());
            let a = args.last();
            match s1.ref_arg(a) {
                Some(rl) => (s1, acts.push((Val::Unknown, Some(rl)))),
                None => {
                    let (s2, v) = s1.operand(a);
                    (s2, acts.push((v, None)))
                },
            }
        }
    }

    /// The effect of a terminator, and the returned value for `return`.
    pub open spec fn term_effect(self, t: Terminator, sums: Seq<(u64, HeapSummary)>) -> (
        StateV,
        Option<Val>,
    ) {
        match t.kind {
            TerminatorKind::Call { func, args, destination, .. } => if destination.projection@.len()
                == 0 {
                let dest = destination.local as int;
                match callee_summary(sums, func) {
                    Some(sum) => {
                        let (s1, acts) = self.eval_args(args@);
                        (s1.instantiate(sum.writes@, sum.ret, acts, dest), None)
                    },
                    None => (self.assign_owned(dest, Val::Unknown), None),
                }
            } else {
                (self, None)
            },
            TerminatorKind::Return => {
                let (s1, v) = self.read(0);
                (s1, Some(v))
            },
            _ => (self, None),
        }
    }

    /// Runs block `bb` from its first program point.
    pub open spec fn run_block(self, body: &Body, bb: int, sums: Seq<(u64, HeapSummary)>) -> (
        StateV,
        Option<Val>,
    ) {
        let s0 = self.with_step(self.block_step[bb] as int);
        let s1 = s0.run_stmts(body.basic_blocks@[bb].statements@);
        let (s2, r) = s1.term_effect(body.basic_blocks@[bb].terminator, sums);
        (s2.with_step(s2.step + 1), r)
    }

    /// Runs blocks `0..k` in order; the value is the last one returned, or
    /// `()` when no block returned.
    pub open spec fn run_blocks(self, body: &Body, sums: Seq<(u64, HeapSummary)>, k: int) -> (
        StateV,
        Val,
    )
        decreases k,
    {
        if k <= 0 {
            (self, Val::Unit)
        } else {
            let (s1, ret) = self.run_blocks(body, sums, k - 1);
            let (s2, r) = s1.run_block(body, k - 1, sums);
            (
                s2,
                match r {
                    Some(v) => v,
                    None => ret,
                },
            )
        }
    }
}

/// Expiring the borrows of cell `a` changes only that cell's borrow state,
/// to its borrows still active at the current point; expiring it again at
/// the same point changes nothing.
pub proof fn lemma_expire_once(s: StateV, a: int)
    requires
        0 <= a < s.heap.len(),
    ensures
        s.expire(a).expire(a) == s.expire(a),
        s.expire(a).heap.len() == s.heap.len(),
        s.expire(a).heap[a] == (CellV { state: expired(s.heap[a].state, s.step as int), ..s.heap[a] }),
        forall|b: int| 0 <= b < s.heap.len() && b != a ==> #[trigger] s.expire(a).heap[b] == s.heap[b],
        s.expire(a).vars == s.vars,
        s.expire(a).ub == s.ub,
        s.expire(a).step == s.step,
{
    let s1 = s.expire(a);
    lemma_expired_idempotent(s.heap[a].state, s.step as int);
    assert(s1.expire(a).heap =~= s1.heap);
}

/// Some borrow of the state is still live at `step`.
pub open spec fn has_live_borrow(st: LocStateV, step: int) -> bool {
    match st {
        LocStateV::Owned => false,
        LocStateV::Shared(l) => exists|k: int| 0 <= k < l.len() && (#[trigger] l[k]).is_active(step),
        LocStateV::Mut(l) => exists|k: int| 0 <= k < l.len() && (#[trigger] l[k]).is_active(step),
    }
}

proof fn lemma_keep_active_live(lts: Seq<Lifetime>, step: int)
    ensures
        keep_active(lts, step).len() > 0 <==> exists|k: int| 0 <= k < lts.len() && (#[trigger] lts[k]).is_active(step),
    decreases lts.len(),
{
    if lts.len() > 0 {
        let p = lts.drop_last();
        lemma_keep_active_live(p, step);
        if exists|k: int| 0 <= k < p.len() && (#[trigger] p[k]).is_active(step) {
            let k = choose|k: int| 0 <= k < p.len() && (#[trigger] p[k]).is_active(step);
            assert(lts[k] == p[k]);
        }
        if exists|k: int| 0 <= k < lts.len() && (#[trigger] lts[k]).is_active(step) {
            let k = choose|k: int| 0 <= k < lts.len() && (#[trigger] lts[k]).is_active(step);
            if k < lts.len() - 1 {
                assert(p[k] == lts[k]);
            }
        }
    }
}

proof fn lemma_expired_live(st: LocStateV, step: int)
    ensures
        (expired(st, step) is Owned) <==> !has_live_borrow(st, step),
{
    match st {
        LocStateV::Shared(l) => lemma_keep_active_live(l, step),
        LocStateV::Mut(l) => lemma_keep_active_live(l, step),
        LocStateV::Owned => {},
    }
}

/// Borrowing is exclusive. A mutable borrow of local `t` by `d`, within
/// `t`'s lifetime, is granted exactly when no borrow of `t`'s cell is still
/// live: then the cell is mutably borrowed by `d` alone, `d` holds it, and
/// nothing is reported. While some borrow is live, the borrow is refused:
/// the finding "mutable borrow of t while it is already borrowed" is added,
/// no local changes, and the cell keeps its live borrows. A shared borrow is
/// refused in the same way while a mutable borrow is live.
pub proof fn lemma_borrows_are_exclusive(s: StateV, d: int, t: int)
    requires
        s.wf(),
        0 <= d < s.vars.len(),
        0 <= t < s.vars.len(),
        s.vars[t] is Some,
        s.vars[t].unwrap().spec_lifetime().spec_contains(s.lifetimes[d]),
    ensures
        ({
            let a = s.vars[t].unwrap().spec_addr() as int;
            let blt = s.lifetimes[d];
            let st = s.heap[a].state;
            let m = s.create_ref(d, t, true);
            &&& has_live_borrow(st, s.step as int) ==> {
                &&& m.ub == s.ub.push("mutable borrow of "@ + s.names[t] + " while it is already borrowed"@)
                &&& m.vars == s.vars
                &&& m.heap.len() == s.heap.len()
                &&& m.heap[a].state == expired(st, s.step as int)
                &&& m.heap[a].value == s.heap[a].value
            }
            &&& !has_live_borrow(st, s.step as int) ==> {
                &&& m.ub == s.ub
                &&& m.vars == s.vars.update(d, Some(Ownership::MutRef(a as usize, blt)))
                &&& m.heap.len() == s.heap.len()
                &&& m.heap[a].state == LocStateV::Mut(seq![blt])
                &&& m.heap[a].value == s.heap[a].value
            }
            &&& (st matches LocStateV::Mut(_) && has_live_borrow(st, s.step as int)) ==> {
                let r = s.create_ref(d, t, false);
                &&& r.ub == s.ub.push("shared borrow of "@ + s.names[t] + " while mutably borrowed"@)
                &&& r.vars == s.vars
            }
        }),
{
    let a = s.vars[t].unwrap().spec_addr() as int;
    lemma_expired_live(s.heap[a].state, s.step as int);
    lemma_expire_once(s, a);
}

/// The arithmetic meaning of each operator on two known integers, the left
/// operand first: comparisons give the comparison of `a` with `b`,
/// arithmetic gives the exact result when it fits in `i128`, and a result
/// that overflows is unknown.
pub proof fn lemma_fold_meaning(op: BinOp, a: i128, b: i128)
    ensures
        op is Lt ==> fold_val(op, a, b) == Val::Bool(a < b),
        op is Le ==> fold_val(op, a, b) == Val::Bool(a <= b),
        op is Gt ==> fold_val(op, a, b) == Val::Bool(a > b),
        op is Ge ==> fold_val(op, a, b) == Val::Bool(a >= b),
        op is Eq ==> fold_val(op, a, b) == Val::Bool(a == b),
        op is Ne ==> fold_val(op, a, b) == Val::Bool(a != b),
        (op is Add || op is AddUnchecked) ==> fold_val(op, a, b) == (if i128::MIN <= a + b <= i128::MAX {
            Val::Int((a + b) as i128)
        } else {
            Val::Unknown
        }),
        (op is Sub || op is SubUnchecked) ==> fold_val(op, a, b) == (if i128::MIN <= a - b <= i128::MAX {
            Val::Int((a - b) as i128)
        } else {
            Val::Unknown
        }),
        (op is Mul || op is MulUnchecked) ==> fold_val(op, a, b) == (if i128::MIN <= a * b <= i128::MAX {
            Val::Int((a * b) as i128)
        } else {
            Val::Unknown
        }),
        (op is Div && a >= 0 && b > 0) ==> fold_val(op, a, b) == Val::Int((a / b) as i128),
        (op is Rem && a >= 0 && b > 0) ==> fold_val(op, a, b) == Val::Int((a % b) as i128),
        (op is Div || op is Rem) && b == 0 ==> fold_val(op, a, b) == Val::Unknown,
        op is BitAnd ==> fold_val(op, a, b) == Val::Int(a & b),
        op is BitOr ==> fold_val(op, a, b) == Val::Int(a | b),
        op is BitXor ==> fold_val(op, a, b) == Val::Int(a ^ b),
{
    if a >= 0 && b > 0 {
        let (x, d) = (a as int, b as int);
        assert(0 <= x % d < d) by (nonlinear_arith)
            requires
                d > 0,
        ;
        if x == 0 {
            assert(x % d == 0) by (nonlinear_arith)
                requires
                    x == 0,
                    d > 0,
            ;
        }
    }
}

/// Evaluating an operator applies it to its operands in order: when the left
/// operand reads as the integer `x` and then the right one as `y`, a binary
/// operator gives its meaning on `(x, y)`; negation of a known integer gives
/// its negation, and `!` of a known boolean its negation.
pub proof fn lemma_eval_applies_operators(s: StateV, op: BinOp, l: Operand, r: Operand, text: String, x: i128, y: i128)
    requires
        s.operand(l).1 == Val::Int(x),
        s.operand(l).0.operand(r).1 == Val::Int(y),
    ensures
        s.eval(Rvalue { kind: RvalueKind::BinaryOp(op, l, r), text }).1 == fold_val(op, x, y),
        op is Lt ==> s.eval(Rvalue { kind: RvalueKind::BinaryOp(op, l, r), text }).1 == Val::Bool(x < y),
        op is Gt ==> s.eval(Rvalue { kind: RvalueKind::BinaryOp(op, l, r), text }).1 == Val::Bool(x > y),
        op is Sub && i128::MIN <= x - y <= i128::MAX ==> s.eval(
            Rvalue { kind: RvalueKind::BinaryOp(op, l, r), text },
        ).1 == Val::Int((x - y) as i128),
        x != i128::MIN ==> s.eval(Rvalue { kind: RvalueKind::UnaryOp(UnOp::Neg, l), text }).1 == Val::Int(
            (-x) as i128,
        ),
        (match s.operand(r).1 {
            Val::Bool(b) => s.eval(Rvalue { kind: RvalueKind::UnaryOp(UnOp::Not, r), text }).1 == Val::Bool(!b),
            _ => true,
        }),
{
    lemma_fold_meaning(op, x, y);
}

/// Every finding of `a` is still recorded, in its place, in `b`.
pub open spec fn findings_kept(a: StateV, b: StateV) -> bool {
    &&& a.ub.len() <= b.ub.len()
    &&& forall|i: int| 0 <= i < a.ub.len() ==> #[trigger] b.ub[i] == a.ub[i]
}

/// The tables of `a` are those of `b`: names, mutability, which locals are
/// references, the argument count, the lifetimes and the block starts; `b`
/// has as many locals, and every cell of `a` is still there with its owner.
pub open spec fn tables_kept(a: StateV, b: StateV) -> bool {
    &&& b.names == a.names
    &&& b.muts == a.muts
    &&& b.refs == a.refs
    &&& b.arg_count == a.arg_count
    &&& b.lifetimes == a.lifetimes
    &&& b.block_step == a.block_step
    &&& b.vars.len() == a.vars.len()
    &&& a.heap.len() <= b.heap.len()
    &&& forall|i: int| 0 <= i < a.heap.len() ==> #[trigger] b.heap[i].owner == a.heap[i].owner
}

/// Both findings and tables of `a` survive in `b`.
pub open spec fn run_kept(a: StateV, b: StateV) -> bool {
    findings_kept(a, b) && tables_kept(a, b)
}

proof fn lemma_kept_trans(a: StateV, b: StateV, c: StateV)
    requires
        run_kept(a, b),
        run_kept(b, c),
    ensures
        run_kept(a, c),
{
    assert forall|i: int| 0 <= i < a.ub.len() implies #[trigger] c.ub[i] == a.ub[i] by {
        assert(b.ub[i] == a.ub[i]);
    }
    assert forall|i: int| 0 <= i < a.heap.len() implies #[trigger] c.heap[i].owner == a.heap[i].owner by {
        assert(b.heap[i].owner == a.heap[i].owner);
    }
}

proof fn lemma_kept_effects(s: StateV, d: int, p: int, val: Val, mutable: bool)
    ensures
        run_kept(s, s.assign_owned(d, val)),
        run_kept(s, s.reborrow(d, p, mutable)),
        run_kept(s, s.alias_ref(d, p)),
        run_kept(s, s.create_ref(d, p, mutable)),
        run_kept(s, s.write_through(p, val)),
        run_kept(s, s.read(p).0),
        run_kept(s, s.read_through(p).0),
{
}

proof fn lemma_kept_operand(s: StateV)
    ensures
        forall|op: Operand| #[trigger] run_kept(s, s.operand(op).0),
{
    assert forall|op: Operand| #[trigger] run_kept(s, s.operand(op).0) by {
        match op {
            Operand::Copy(p) => lemma_kept_effects(s, 0, p.local as int, Val::Unknown, false),
            Operand::Move(p) => lemma_kept_effects(s, 0, p.local as int, Val::Unknown, false),
            _ => {},
        }
    }
}

proof fn lemma_kept_eval(s: StateV, rv: Rvalue)
    ensures
        run_kept(s, s.eval(rv).0),
{
    lemma_kept_operand(s);
    match rv.kind {
        RvalueKind::BinaryOp(_, l, r) => {
            let s1 = s.operand(l).0;
            lemma_kept_operand(s1);
            lemma_kept_trans(s, s1, s1.operand(r).0);
        },
        _ => {},
    }
}

proof fn lemma_kept_assign(s: StateV, d: int, rv: Rvalue)
    ensures
        run_kept(s, s.step_assign(d, rv)),
{
    lemma_kept_eval(s, rv);
    let s1 = s.eval(rv).0;
    lemma_kept_effects(s1, d, 0, s.eval(rv).1, false);
    lemma_kept_trans(s, s1, s1.assign_owned(d, s.eval(rv).1));
    match rv.kind {
        RvalueKind::Ref { mutable, place } => lemma_kept_effects(s, d, place.local as int, Val::Unknown, mutable),
        RvalueKind::RawPtr { mutable, place } => lemma_kept_effects(s, d, place.local as int, Val::Unknown, mutable),
        RvalueKind::Use(op) => match s.ref_source(op) {
            Some(src) => lemma_kept_effects(s, d, src as int, Val::Unknown, false),
            None => {},
        },
        RvalueKind::Cast(op) => match s.ref_source(op) {
            Some(src) => lemma_kept_effects(s, d, src as int, Val::Unknown, false),
            None => {},
        },
        _ => {},
    }
}

proof fn lemma_kept_stmts(s: StateV, ss: Seq<Statement>)
    ensures
        run_kept(s, s.run_stmts(ss)),
    decreases ss.len(),
{
    if ss.len() > 0 {
        lemma_kept_stmts(s, ss.drop_last());
        let s1 = s.run_stmts(ss.drop_last());
        match ss.last().kind {
            StatementKind::Assign(place, rv) => {
                if place.projection@.len() == 0 {
                    lemma_kept_assign(s1, place.local as int, rv);
                } else {
                    lemma_kept_eval(s1, rv);
                    let s2 = s1.eval(rv).0;
                    lemma_kept_effects(s2, 0, place.local as int, s1.eval(rv).1, false);
                    lemma_kept_trans(s1, s2, s2.write_through(place.local as int, s1.eval(rv).1));
                }
            },
            _ => {},
        }
        lemma_kept_trans(s, s1, s1.stmt_effect(ss.last()));
    }
}

proof fn lemma_kept_writes(s: StateV, writes: Seq<(usize, Val)>, actuals: Seq<(Val, Option<usize>)>)
    ensures
        run_kept(s, s.apply_writes(writes, actuals)),
    decreases writes.len(),
{
    if writes.len() > 0 {
        lemma_kept_writes(s, writes.drop_last(), actuals);
        let s1 = s.apply_writes(writes.drop_last(), actuals);
        let (param, wv) = writes.last();
        match actual_ref(actuals, param as int) {
            Some(rl) => {
                let (s2, v) = s1.subst(wv, actuals);
                match wv {
                    Val::In(i) => match actual_ref(actuals, i as int) {
                        Some(r2) => lemma_kept_effects(s1, 0, r2 as int, Val::Unknown, false),
                        None => {},
                    },
                    _ => {},
                }
                lemma_kept_effects(s2, 0, rl as int, v, false);
                lemma_kept_trans(s1, s2, s2.write_through(rl as int, v));
                lemma_kept_trans(s, s1, s2.write_through(rl as int, v));
            },
            None => {},
        }
    }
}

proof fn lemma_kept_args(s: StateV, args: Seq<Operand>)
    ensures
        run_kept(s, s.eval_args(args).0),
    decreases args.len(),
{
    if args.len() > 0 {
        lemma_kept_args(s, args.drop_last());
        let s1 = s.eval_args(args.drop_last()).0;
        lemma_kept_operand(s1);
        lemma_kept_trans(s, s1, s1.operand(args.last()).0);
    }
}

proof fn lemma_kept_term(s: StateV, t: Terminator, sums: Seq<(u64, HeapSummary)>)
    ensures
        run_kept(s, s.term_effect(t, sums).0),
{
    match t.kind {
        TerminatorKind::Call { func, args, destination, .. } => {
            let dest = destination.local as int;
            lemma_kept_effects(s, dest, 0, Val::Unknown, false);
            match callee_summary(sums, func) {
                Some(sum) => {
                    let (s1, acts) = s.eval_args(args@);
                    lemma_kept_args(s, args@);
                    lemma_kept_writes(s1, sum.writes@, acts);
                    let s2 = s1.apply_writes(sum.writes@, acts);
                    lemma_kept_trans(s, s1, s2);
                    match sum.ret {
                        Ret::Val(v) => {
                            let (s3, v2) = s2.subst(v, acts);
                            match v {
                                Val::In(i) => match actual_ref(acts, i as int) {
                                    Some(r2) => lemma_kept_effects(s2, 0, r2 as int, Val::Unknown, false),
                                    None => {},
                                },
                                _ => {},
                            }
                            lemma_kept_effects(s3, dest, 0, v2, false);
                            lemma_kept_trans(s2, s3, s3.assign_owned(dest, v2));
                            lemma_kept_trans(s, s2, s3.assign_owned(dest, v2));
                        },
                        Ret::Ref(i) => match actual_ref(acts, i as int) {
                            Some(rl) => {
                                lemma_kept_effects(s2, dest, rl as int, Val::Unknown, false);
                                lemma_kept_trans(s, s2, s2.alias_ref(dest, rl as int));
                            },
                            None => {
                                lemma_kept_effects(s2, dest, 0, Val::Unknown, false);
                                lemma_kept_trans(s, s2, s2.assign_owned(dest, Val::Unknown));
                            },
                        },
                    }
                },
                None => {},
            }
        },
        TerminatorKind::Return => lemma_kept_effects(s, 0, 0, Val::Unknown, false),
        _ => {},
    }
}

/// Undefined behaviour once found stays found: running a block only adds
/// findings after those already recorded. It also keeps the tables of
/// names, mutability, references, lifetimes and block starts, the number of
/// locals, and every cell with its owner.
pub proof fn lemma_block_keeps_findings(s: StateV, body: &Body, bb: int, sums: Seq<(u64, HeapSummary)>)
    ensures
        findings_kept(s, s.run_block(body, bb, sums).0),
        tables_kept(s, s.run_block(body, bb, sums).0),
{
    let s0 = s.with_step(s.block_step[bb] as int);
    lemma_kept_stmts(s0, body.basic_blocks@[bb].statements@);
    let s1 = s0.run_stmts(body.basic_blocks@[bb].statements@);
    lemma_kept_term(s1, body.basic_blocks@[bb].terminator, sums);
    lemma_kept_trans(s0, s1, s1.term_effect(body.basic_blocks@[bb].terminator, sums).0);
}

/// Running blocks in order only adds findings after those already recorded,
/// and keeps the tables, the number of locals and every cell's owner.
pub proof fn lemma_blocks_keep_findings(s: StateV, body: &Body, sums: Seq<(u64, HeapSummary)>, k: int)
    ensures
        findings_kept(s, s.run_blocks(body, sums, k).0),
        tables_kept(s, s.run_blocks(body, sums, k).0),
    decreases k,
{
    if k > 0 {
        lemma_blocks_keep_findings(s, body, sums, k - 1);
        let s1 = s.run_blocks(body, sums, k - 1).0;
        lemma_block_keeps_findings(s1, body, k - 1, sums);
        lemma_kept_trans(s, s1, s1.run_block(body, k - 1, sums).0);
    }
}

/// `b` keeps the frame of `a`: it is well formed, has as many locals, the same
/// block starts and the same program point.
pub open spec fn frame_kept(a: StateV, b: StateV) -> bool {
    &&& b.wf()
    &&& b.vars.len() == a.vars.len()
    &&& b.block_step == a.block_step
    &&& b.step == a.step
}

impl State {
    fn eval_args(&mut self, args: &Vec<Operand>) -> (r: Vec<(Val, Option<usize>)>)
        requires
            old(self)@.wf(),
            forall|k: int| 0 <= k < args@.len() ==> operand_ok(#[trigger] args@[k], old(self)@.vars.len()),
        ensures
            (final(self)@, r@) == old(self)@.eval_args(args@),
            final(self)@.wf(),
            frame_kept(old(self)@, final(self)@),
            final(self)@.vars.len() == old(self)@.vars.len(),
            final(self)@.block_step == old(self)@.block_step,
            actuals_ok(r@, old(self)@.vars.len()),
    {
        let mut acts: Vec<(Val, Option<usize>)> = Vec::new();
        let mut k: usize = 0;
        while k < args.len()
            invariant
                k <= args@.len(),
                self@.wf(),
                self@.vars.len() == old(self)@.vars.len(),
                self@.block_step == old(self)@.block_step,
                frame_kept(old(self)@, self@),
                forall|j: int| 0 <= j < args@.len() ==> operand_ok(#[trigger] args@[j], old(self)@.vars.len()),
                (self@, acts@) == old(self)@.eval_args(args@.take(k as int)),
                actuals_ok(acts@, old(self)@.vars.len()),
            decreases args@.len() - k,
        {
            proof {
                assert(args@.take(k + 1).drop_last() =~= args@.take(k as int));
            }
            let a = &args[k];
            let rl = self.ref_arg(a);
            match rl {
                Some(l) => acts.push((Val::Unknown, Some(l))),
                None => {
                    let v = self.operand(a);
                    acts.push((v, None));
                },
            }
            k = k + 1;
        }
        proof {
            assert(args@.take(args@.len() as int) =~= args@);
        }
        acts
    }

    /// Runs block `bb` from its first program point; gives the value
    /// returned when the block returns.
    #[verifier::rlimit(40)]
    #[verifier::spinoff_prover]
    pub fn run_block_body(&mut self, body: &Body, bb: usize, summaries: &Vec<(u64, HeapSummary)>) -> (r:
        Option<Val>)
        requires
            body.wf(),
            fits(old(self)@, body),
            bb < body.n_blocks(),
        ensures
            (final(self)@, r) == old(self)@.run_block(body, bb as int, summaries@),
            fits(final(self)@, body),
    {
        let data = &body.basic_blocks[bb];
        proof {
            assert(crate::mir::block_ok(body.basic_blocks@[bb as int], body.n_locals(), body.n_blocks()));
            lemma_steps_mono(body.basic_blocks@, bb + 1, body.n_blocks() as int);
        }
        self.step = self.block_step[bb];
        let ghost s0 = self@;
        assert(s0 == old(self)@.with_step(old(self)@.block_step[bb as int] as int));
        let n = self.vars.len();
        let mut k: usize = 0;
        while k < data.statements.len()
            invariant
                k <= data.statements@.len(),
                *data == body.basic_blocks@[bb as int],
                body.wf(),
                bb < body.n_blocks(),
                n == body.n_locals(),
                crate::mir::block_ok(*data, body.n_locals(), body.n_blocks()),
                steps_upto(body.basic_blocks@, bb + 1) <= crate::mir::size_bound(),
                fits(self@, body),
                self@.step == s0.step + k,
                s0.step as int == steps_upto(body.basic_blocks@, bb as int),
                self@ == s0.run_stmts(data.statements@.take(k as int)),
            decreases data.statements@.len() - k,
        {
            proof {
                assert(data.statements@.take(k + 1).drop_last() =~= data.statements@.take(k as int));
                assert(crate::mir::stmt_ok(data.statements@[k as int], body.n_locals()));
            }
            let ghost before = self@;
            match &data.statements[k].kind {
                StatementKind::Assign(place, rv) => {
                    if place.projection.len() == 0 {
                        self.step_assign(place.local, rv);
                    } else if single_deref(place) {
                        let v = self.eval(rv);
                        self.write_through(place.local, v);
                    }
                },
                _ => {},
            }
            proof {
                assert(self@ == before.stmt_effect(data.statements@[k as int]));
            }
            self.step = self.step + 1;
            proof {
                assert(self@ == before.stmt_effect(data.statements@[k as int]).with_step(self@.step as int));
            }
            k = k + 1;
        }
        proof {
            assert(data.statements@.take(data.statements@.len() as int) =~= data.statements@);
        }
        let ghost s1 = self@;
        let ret = match &data.terminator.kind {
            TerminatorKind::Call { func, args, destination, .. } if destination.projection.len() == 0 => {
                let dest = destination.local;
                let found = match callee_def_id(func) {
                    Some(d) => find_key(summaries, d),
                    None => None,
                };
                match found {
                    Some(j) => {
                        let sum = &summaries[j].1;
                        let actuals = self.eval_args(args);
                        self.instantiate(sum, &actuals, dest);
                    },
                    None => self.assign_owned(dest, Val::Unknown),
                }
                None
            },
            TerminatorKind::Return => Some(self.read(0)),
            _ => None,
        };
        proof {
            assert((self@, ret) == s1.term_effect(data.terminator, summaries@));
        }
        self.step = self.step + 1;
        ret
    }
}

} // verus!

verus! {

// ---------------------------------------------------------------------------
// Whole functions, summaries, and paths.
// ---------------------------------------------------------------------------

/// Argument `i` (1-based) is a reference whose cell ends up holding something
/// other than what it held on entry.
pub open spec fn written_arg(s: StateV, i: int) -> bool {
    &&& s.refs[i]
    &&& s.vars[i] is Some
    &&& s.heap[s.vars[i].unwrap().spec_addr() as int].value != Val::In((i - 1) as usize)
}

/// The writes through the reference arguments `1..=k`, in order.
pub open spec fn summary_writes(s: StateV, k: int) -> Seq<(usize, Val)>
    decreases k,
{
    if k <= 0 {
        seq![]
    } else {
        let p = summary_writes(s, k - 1);
        if written_arg(s, k) {
            p.push(((k - 1) as usize, s.heap[s.vars[k].unwrap().spec_addr() as int].value))
        } else {
            p
        }
    }
}

/// The return place is a reference to the same cell as reference argument `i`.
pub open spec fn returns_arg(s: StateV, i: int) -> bool {
    &&& s.vars[0] is Some
    &&& s.vars[i] is Some
    &&& s.refs[i]
    &&& s.vars[0].unwrap().is_reference()
    &&& s.vars[0].unwrap().spec_addr() == s.vars[i].unwrap().spec_addr()
}

/// The first of the arguments `1..=k` that the function returns a reference to.
pub open spec fn first_returned_arg(s: StateV, k: int) -> Option<int>
    decreases k,
{
    if k <= 0 {
        None
    } else {
        match first_returned_arg(s, k - 1) {
            Some(i) => Some(i),
            None => if returns_arg(s, k) {
                Some(k)
            } else {
                None
            },
        }
    }
}

proof fn lemma_first_returned_range(s: StateV, k: int)
    ensures
        first_returned_arg(s, k) matches Some(i) ==> 1 <= i <= k,
    decreases k,
{
    if k > 0 {
        lemma_first_returned_range(s, k - 1);
    }
}

pub open spec fn summary_ret(s: StateV, ret: Val) -> Ret {
    match first_returned_arg(s, s.arg_count as int) {
        Some(i) => Ret::Ref((i - 1) as usize),
        None => Ret::Val(ret),
    }
}

/// The summary of a function from its final state and returned value.
pub fn extract_summary(s: &State, ret: Val) -> (r: HeapSummary)
    requires
        s@.wf(),
    ensures
        r.writes@ == summary_writes(s@, s@.arg_count as int),
        r.ret == summary_ret(s@, ret),
{
    let mut writes: Vec<(usize, Val)> = Vec::new();
    let mut i: usize = 1;
    while i <= s.arg_count
        invariant
            1 <= i <= s@.arg_count + 1,
            s@.wf(),
            writes@ == summary_writes(s@, i - 1),
        decreases s.arg_count + 1 - i,
    {
        if s.refs[i] {
            if let Some(own) = s.vars[i] {
                let v = s.heap[own.addr()].value;
                let same = match v {
                    Val::In(j) => j == i - 1,
                    _ => false,
                };
                if !same {
                    writes.push((i - 1, v));
                }
            }
        }
        i = i + 1;
    }
    let mut found: Option<usize> = None;
    let mut i: usize = 1;
    while i <= s.arg_count
        invariant
            1 <= i <= s@.arg_count + 1,
            s@.wf(),
            found == match first_returned_arg(s@, i - 1) {
                Some(k) => Some(k as usize),
                None => None::<usize>,
            },
            found matches Some(k) ==> 1 <= k < i,
        decreases s.arg_count + 1 - i,
    {
        if found.is_none() {
            let hit = match (s.vars[0], s.vars[i]) {
                (Some(v0), Some(vi)) => s.refs[i] && match v0 {
                    Ownership::SharedRef(..) | Ownership::MutRef(..) => true,
                    _ => false,
                } && v0.addr() == vi.addr(),
                _ => false,
            };
            if hit {
                found = Some(i);
            }
        }
        i = i + 1;
    }
    proof {
        lemma_first_returned_range(s@, s@.arg_count as int);
    }
    let ret = match found {
        Some(k) => Ret::Ref(k - 1),
        None => Ret::Val(ret),
    };
    HeapSummary { writes, ret }
}

/// Runs every block of `body` once, in block order, from the initial state;
/// gives the final state, the last returned value and the summary.
pub fn analyze_fn(body: &Body, summaries: &Vec<(u64, HeapSummary)>) -> (r: (State, Val, HeapSummary))
    requires
        body.wf(),
    ensures
        (r.0@, r.1) == initial_state(body).run_blocks(body, summaries@, body.n_blocks() as int),
        r.2.writes@ == summary_writes(r.0@, r.0@.arg_count as int),
        r.2.ret == summary_ret(r.0@, r.1),
        fits(r.0@, body),
{
    let mut s = new_state(body);
    let mut ret = Val::Unit;
    let mut bb: usize = 0;
    while bb < body.basic_blocks.len()
        invariant
            bb <= body.n_blocks(),
            body.wf(),
            fits(s@, body),
            (s@, ret) == initial_state(body).run_blocks(body, summaries@, bb as int),
        decreases body.n_blocks() - bb,
    {
        if let Some(r) = s.run_block_body(body, bb, summaries) {
            ret = r;
        }
        bb = bb + 1;
    }
    let summary = extract_summary(&s, ret);
    (s, ret, summary)
}

/// The body of the function whose id is `id`.
pub open spec fn body_of(funcs: Seq<FnEntry>, id: u64) -> Body {
    funcs[choose|i: int| 0 <= i < funcs.len() && funcs[i].def_id == id].body
}

/// The run of the function `id` given the summaries of the functions built
/// before it.
pub open spec fn run_with(funcs: Seq<FnEntry>, id: u64, sums: Seq<(u64, HeapSummary)>) -> (StateV, Val) {
    let body = body_of(funcs, id);
    initial_state(&body).run_blocks(&body, sums, body.n_blocks() as int)
}

/// The heap summary of every function of the crate, built callee-first: each
/// function is run with the summaries of the functions before it in the call
/// order.
pub fn build_summaries(funcs: &Vec<FnEntry>) -> (r: Vec<(u64, HeapSummary)>)
    requires
        funcs_wf(funcs@),
    ensures
        summaries_follow(funcs@, crate::cfg::crate_order(funcs@), r@),
{
    let graph = crate::cfg::call_graph(funcs);
    proof {
        lemma_call_graph_ok(funcs@, graph@);
        assert(crate::cfg::graph_seqs(graph@) =~= crate::cfg::crate_graph(funcs@));
    }
    let order = crate::cfg::call_order(funcs, &graph);
    let mut summaries: Vec<(u64, HeapSummary)> = Vec::new();
    let mut k: usize = 0;
    while k < order.len()
        invariant
            k <= order@.len(),
            funcs_wf(funcs@),
            forall|p: int| 0 <= p < order@.len() ==> fn_ids(funcs@).contains(#[trigger] order@[p]),
            summaries@.len() == k,
            forall|j: int| 0 <= j < k ==> #[trigger] summary_at(funcs@, order@, summaries@, j),
        decreases order@.len() - k,
    {
        let d = order[k];
        assert(fn_ids(funcs@).contains(order@[k as int]));
        let i = index_of_fn(funcs, d);
        let (_, _, sum) = analyze_fn(&funcs[i as usize].body, &summaries);
        let ghost prev = summaries@;
        summaries.push((d, sum));
        proof {
            assert(summaries@.take(k as int) =~= prev);
            lemma_body_of(funcs@, i as int);
            assert forall|j: int| 0 <= j < k + 1 implies #[trigger] summary_at(funcs@, order@, summaries@, j) by {
                assert(summaries@.take(j) =~= prev.take(j));
                if j < k {
                    assert(summary_at(funcs@, order@, prev, j));
                }
            }
        }
        k = k + 1;
    }
    proof {
        assert(summaries_follow(funcs@, order@, summaries@));
    }
    summaries
}

/// Entry `j` of the summaries names `order[j]` and is what running that
/// function with the entries before it gives.
pub open spec fn summary_at(funcs: Seq<FnEntry>, order: Seq<u64>, sums: Seq<(u64, HeapSummary)>, j: int) -> bool {
    let (st, ret) = run_with(funcs, order[j], sums.take(j));
    &&& sums[j].0 == order[j]
    &&& sums[j].1.writes@ == summary_writes(st, st.arg_count as int)
    &&& sums[j].1.ret == summary_ret(st, ret)
}

/// The summaries are built along `order`, a call order of the crate.
pub open spec fn summaries_follow(funcs: Seq<FnEntry>, order: Seq<u64>, sums: Seq<(u64, HeapSummary)>) -> bool {
    &&& order.no_duplicates()
    &&& forall|i: int| 0 <= i < funcs.len() ==> order.contains(#[trigger] funcs[i].def_id)
    &&& forall|p: int| 0 <= p < order.len() ==> fn_ids(funcs).contains(#[trigger] order[p])
    &&& sums.len() == order.len()
    &&& forall|j: int| 0 <= j < order.len() ==> #[trigger] summary_at(funcs, order, sums, j)
}

pub proof fn lemma_body_of(funcs: Seq<FnEntry>, i: int)
    requires
        funcs_wf(funcs),
        0 <= i < funcs.len(),
    ensures
        body_of(funcs, funcs[i].def_id) == funcs[i].body,
{
    let w = choose|w: int| 0 <= w < funcs.len() && funcs[w].def_id == funcs[i].def_id;
    assert(w == i);
}

pub proof fn lemma_call_graph_ok(funcs: Seq<FnEntry>, graph: Seq<Vec<u64>>)
    requires
        graph.len() == funcs.len(),
        forall|i: int|
            0 <= i < funcs.len() ==> (#[trigger] graph[i])@ == crate::cfg::distinct_in(
                crate::cfg::named_callees(funcs[i].body.basic_blocks@),
                fn_ids(funcs),
            ),
    ensures
        crate::cfg::graph_ok(funcs, graph),
{
    assert forall|i: int, k: int|
        0 <= i < graph.len() && 0 <= k < graph[i]@.len() implies fn_ids(funcs).contains(
        #[trigger] graph[i]@[k],
    ) by {
        lemma_distinct_in_kept(crate::cfg::named_callees(funcs[i].body.basic_blocks@), fn_ids(funcs));
    }
}

pub proof fn lemma_distinct_in_kept(s: Seq<u64>, keep: Seq<u64>)
    ensures
        forall|k: int| 0 <= k < crate::cfg::distinct_in(s, keep).len() ==> keep.contains(#[trigger] crate::cfg::distinct_in(s, keep)[k]),
    decreases s.len(),
{
    if s.len() > 0 {
        lemma_distinct_in_kept(s.drop_last(), keep);
        let d = crate::cfg::distinct_in(s, keep);
        let p = crate::cfg::distinct_in(s.drop_last(), keep);
        assert forall|k: int| 0 <= k < d.len() implies keep.contains(#[trigger] d[k]) by {
            if k < p.len() {
                assert(d[k] == p[k]);
            }
        }
    }
}

pub fn index_of_fn(funcs: &Vec<FnEntry>, id: u64) -> (r: usize)
    requires
        fn_ids(funcs@).contains(id),
    ensures
        r < funcs@.len(),
        funcs@[r as int].def_id == id,
{
    let ghost w = choose|w: int| 0 <= w < fn_ids(funcs@).len() && fn_ids(funcs@)[w] == id;
    let mut i: usize = 0;
    while i < funcs.len()
        invariant
            i <= funcs@.len(),
            0 <= w < funcs@.len(),
            funcs@[w].def_id == id,
            forall|k: int| 0 <= k < i ==> funcs@[k].def_id != id,
        decreases funcs@.len() - i,
    {
        if funcs[i].def_id == id {
            return i;
        }
        i = i + 1;
    }
    0
}

} // verus!

verus! {

/// The branch a path took at a `switchInt`: the switched-on local (when the
/// discriminant reads one), the value matched (`None` for the `otherwise`
/// arm), and whether the discriminant is a `bool`.
#[derive(Clone, Copy)]
pub struct Guard {
    pub discr: Option<usize>,
    pub value: Option<i128>,
    pub is_bool: bool,
}

/// A path through the body: the branches taken, the final state, and the
/// returned value.
pub type PathV = (Seq<Guard>, StateV, Val);

pub open spec fn path_views(ps: Seq<(Vec<Guard>, State, Val)>) -> Seq<PathV> {
    ps.map_values(|p: (Vec<Guard>, State, Val)| (p.0@, p.1@, p.2))
}

pub open spec fn or_unit(r: Option<Val>) -> Val {
    match r {
        Some(v) => v,
        None => Val::Unit,
    }
}

/// The position of block `t` after position `pos` in `order`.
pub open spec fn next_pos(order: Seq<usize>, pos: int, t: usize) -> int {
    if exists|j: int| pos < j < order.len() && order[j] == t {
        choose|j: int| pos < j < order.len() && order[j] == t
    } else {
        order.len() as int
    }
}

/// Every path from the block at `pos` of a topological order to a block
/// without successors, taking each arm of every `switchInt` in turn (the
/// valued arms in order, then `otherwise`) and the first successor of any
/// other terminator.
pub open spec fn paths_from(
    body: &Body,
    sums: Seq<(u64, HeapSummary)>,
    order: Seq<usize>,
    s: StateV,
    pos: int,
    guards: Seq<Guard>,
) -> Seq<PathV>
    decreases order.len() - pos, 1nat, 0int,
{
    if pos < 0 || pos >= order.len() {
        seq![]
    } else {
        let bb = order[pos] as int;
        let (s1, ret) = s.run_block(body, bb, sums);
        let t = body.basic_blocks@[bb].terminator;
        match t.kind {
            TerminatorKind::Return => seq![(guards, s1, or_unit(ret))],
            TerminatorKind::SwitchInt { discr, discr_is_bool, targets, otherwise, .. } => {
                let dl = crate::mir::spec_operand_local(discr);
                arm_paths(body, sums, order, s1, pos, guards, dl, discr_is_bool, targets@, targets@.len() as int)
                    + paths_from(
                    body,
                    sums,
                    order,
                    s1,
                    next_pos(order, pos, otherwise),
                    guards.push(Guard { discr: dl, value: None, is_bool: discr_is_bool }),
                )
            },
            _ => if t.successors@.len() > 0 {
                paths_from(body, sums, order, s1, next_pos(order, pos, t.successors@[0]), guards)
            } else {
                seq![(guards, s1, or_unit(ret))]
            },
        }
    }
}

/// The paths through the first `k` valued arms of a `switchInt` at `pos`.
pub open spec fn arm_paths(
    body: &Body,
    sums: Seq<(u64, HeapSummary)>,
    order: Seq<usize>,
    s: StateV,
    pos: int,
    guards: Seq<Guard>,
    dl: Option<usize>,
    is_bool: bool,
    targets: Seq<(i128, usize)>,
    k: int,
) -> Seq<PathV>
    decreases order.len() - pos, 0nat, k,
{
    if k <= 0 || pos < 0 || pos >= order.len() {
        seq![]
    } else {
        arm_paths(body, sums, order, s, pos, guards, dl, is_bool, targets, k - 1) + paths_from(
            body,
            sums,
            order,
            s,
            next_pos(order, pos, targets[k - 1].1),
            guards.push(Guard { discr: dl, value: Some(targets[k - 1].0), is_bool }),
        )
    }
}

/// From any position of a topological order, at least one path runs to the
/// end of the function.
pub proof fn lemma_paths_nonempty(
    body: &Body,
    sums: Seq<(u64, HeapSummary)>,
    order: Seq<usize>,
    s: StateV,
    pos: int,
    guards: Seq<Guard>,
)
    requires
        body.wf(),
        crate::cfg::is_topo_order(body, order),
        0 <= pos < order.len(),
    ensures
        paths_from(body, sums, order, s, pos, guards).len() >= 1,
    decreases order.len() - pos,
{
    let bb = order[pos] as int;
    let (s1, ret) = s.run_block(body, bb, sums);
    let t = body.basic_blocks@[bb].terminator;
    assert(crate::mir::block_ok(body.basic_blocks@[bb], body.n_locals(), body.n_blocks()));
    match t.kind {
        TerminatorKind::Return => {},
        TerminatorKind::SwitchInt { discr, discr_is_bool, targets, otherwise, .. } => {
            let k = targets@.len() as int;
            lemma_next_pos(body, order, pos, k);
            let dl = crate::mir::spec_operand_local(discr);
            lemma_paths_nonempty(
                body,
                sums,
                order,
                s1,
                next_pos(order, pos, otherwise),
                guards.push(Guard { discr: dl, value: None, is_bool: discr_is_bool }),
            );
        },
        _ => {
            if t.successors@.len() > 0 {
                lemma_next_pos(body, order, pos, 0);
                lemma_paths_nonempty(body, sums, order, s1, next_pos(order, pos, t.successors@[0]), guards);
            }
        },
    }
}

/// The paths from a block do not depend on the topological order that lists
/// the blocks: two orders give the same paths from the same block.
pub proof fn lemma_paths_order_free(
    body: &Body,
    sums: Seq<(u64, HeapSummary)>,
    o1: Seq<usize>,
    o2: Seq<usize>,
    s: StateV,
    p1: int,
    p2: int,
    guards: Seq<Guard>,
)
    requires
        body.wf(),
        crate::cfg::is_topo_order(body, o1),
        crate::cfg::is_topo_order(body, o2),
        0 <= p1 < o1.len(),
        0 <= p2 < o2.len(),
        o1[p1] == o2[p2],
    ensures
        paths_from(body, sums, o1, s, p1, guards) == paths_from(body, sums, o2, s, p2, guards),
    decreases o1.len() - p1, 1nat, 0int,
{
    let bb = o1[p1] as int;
    let (s1, ret) = s.run_block(body, bb, sums);
    let t = body.basic_blocks@[bb].terminator;
    assert(crate::mir::block_ok(body.basic_blocks@[bb], body.n_locals(), body.n_blocks()));
    match t.kind {
        TerminatorKind::Return => {},
        TerminatorKind::SwitchInt { discr, discr_is_bool, targets, otherwise, .. } => {
            let dl = crate::mir::spec_operand_local(discr);
            let k = targets@.len() as int;
            lemma_arms_order_free(body, sums, o1, o2, s1, p1, p2, guards, dl, discr_is_bool, targets@, k);
            lemma_next_pos(body, o1, p1, k);
            lemma_next_pos(body, o2, p2, k);
            lemma_paths_order_free(
                body,
                sums,
                o1,
                o2,
                s1,
                next_pos(o1, p1, otherwise),
                next_pos(o2, p2, otherwise),
                guards.push(Guard { discr: dl, value: None, is_bool: discr_is_bool }),
            );
        },
        _ => {
            if t.successors@.len() > 0 {
                lemma_next_pos(body, o1, p1, 0);
                lemma_next_pos(body, o2, p2, 0);
                lemma_paths_order_free(
                    body,
                    sums,
                    o1,
                    o2,
                    s1,
                    next_pos(o1, p1, t.successors@[0]),
                    next_pos(o2, p2, t.successors@[0]),
                    guards,
                );
            }
        },
    }
}

proof fn lemma_arms_order_free(
    body: &Body,
    sums: Seq<(u64, HeapSummary)>,
    o1: Seq<usize>,
    o2: Seq<usize>,
    s: StateV,
    p1: int,
    p2: int,
    guards: Seq<Guard>,
    dl: Option<usize>,
    is_bool: bool,
    targets: Seq<(i128, usize)>,
    k: int,
)
    requires
        body.wf(),
        crate::cfg::is_topo_order(body, o1),
        crate::cfg::is_topo_order(body, o2),
        0 <= p1 < o1.len(),
        0 <= p2 < o2.len(),
        o1[p1] == o2[p2],
        body.basic_blocks@[o1[p1] as int].terminator.kind matches TerminatorKind::SwitchInt { targets: ts, .. }
            && ts@ == targets,
        k <= targets.len(),
    ensures
        arm_paths(body, sums, o1, s, p1, guards, dl, is_bool, targets, k) == arm_paths(
            body,
            sums,
            o2,
            s,
            p2,
            guards,
            dl,
            is_bool,
            targets,
            k,
        ),
    decreases o1.len() - p1, 0nat, k,
{
    if k > 0 {
        let bb = o1[p1] as int;
        assert(crate::mir::block_ok(body.basic_blocks@[bb], body.n_locals(), body.n_blocks()));
        lemma_arms_order_free(body, sums, o1, o2, s, p1, p2, guards, dl, is_bool, targets, k - 1);
        assert(body.succs(bb)[k - 1] == targets[k - 1].1);
        lemma_next_pos(body, o1, p1, k - 1);
        lemma_next_pos(body, o2, p2, k - 1);
        lemma_paths_order_free(
            body,
            sums,
            o1,
            o2,
            s,
            next_pos(o1, p1, targets[k - 1].1),
            next_pos(o2, p2, targets[k - 1].1),
            guards.push(Guard { discr: dl, value: Some(targets[k - 1].0), is_bool }),
        );
    }
}

fn copy_guards(v: &Vec<Guard>) -> (r: Vec<Guard>)
    ensures
        r@ == v@,
{
    let mut out: Vec<Guard> = Vec::new();
    let mut i: usize = 0;
    while i < v.len()
        invariant
            i <= v@.len(),
            out@ == v@.take(i as int),
        decreases v@.len() - i,
    {
        out.push(v[i]);
        proof {
            assert(out@ =~= v@.take(i + 1));
        }
        i = i + 1;
    }
    proof {
        assert(v@.take(v@.len() as int) =~= v@);
    }
    out
}

proof fn lemma_next_pos(body: &Body, order: Seq<usize>, pos: int, k: int)
    requires
        crate::cfg::is_topo_order(body, order),
        0 <= pos < order.len(),
        0 <= k < body.succs(order[pos] as int).len(),
    ensures
        pos < next_pos(order, pos, body.succs(order[pos] as int)[k]) < order.len(),
        order[next_pos(order, pos, body.succs(order[pos] as int)[k])] == body.succs(order[pos] as int)[k],
{
    assert(crate::cfg::succ_listed_later(body, order, pos, k));
}

#[verifier::rlimit(40)]
#[verifier::spinoff_prover]
fn walk_paths(
    state: State,
    bb: usize,
    guards: Vec<Guard>,
    body: &Body,
    summaries: &Vec<(u64, HeapSummary)>,
    out: &mut Vec<(Vec<Guard>, State, Val)>,
    Ghost(order): Ghost<Seq<usize>>,
    Ghost(pos): Ghost<int>,
)
    requires
        body.wf(),
        crate::cfg::is_topo_order(body, order),
        0 <= pos < order.len(),
        order[pos] == bb,
        fits(state@, body),
        all_fit(old(out)@, body),
    ensures
        path_views(final(out)@) == path_views(old(out)@) + paths_from(body, summaries@, order, state@, pos, guards@),
        all_fit(final(out)@, body),
    decreases order.len() - pos,
{
    let mut state = state;
    let ghost s_in = state@;
    proof {
        assert(bb < body.n_blocks());
        assert(crate::mir::block_ok(body.basic_blocks@[bb as int], body.n_locals(), body.n_blocks()));
    }
    let ret = state.run_block_body(body, bb, summaries);
    let ghost s1 = state@;
    let term = &body.basic_blocks[bb].terminator;
    let ghost old_out = path_views(out@);
    match &term.kind {
        TerminatorKind::Return => {
            let r = match ret {
                Some(v) => v,
                None => Val::Unit,
            };
            out.push((guards, state, r));
            proof {
                assert(path_views(out@) =~= old_out.push((guards@, s1, r)));
            }
        },
        TerminatorKind::SwitchInt { discr, discr_is_bool, targets, otherwise, .. } => {
            let dl = operand_locals(discr);
            let is_bool = *discr_is_bool;
            let mut k: usize = 0;
            while k < targets.len()
                invariant
                    k <= targets@.len(),
                    body.wf(),
                    crate::cfg::is_topo_order(body, order),
                    0 <= pos < order.len(),
                    order[pos] == bb,
                    bb < body.n_blocks(),
                    crate::mir::block_ok(body.basic_blocks@[bb as int], body.n_locals(), body.n_blocks()),
                    *term == body.basic_blocks@[bb as int].terminator,
                    term.kind == (TerminatorKind::SwitchInt {
                        discr: *discr,
                        discr_text: term.kind->discr_text,
                        discr_is_bool: *discr_is_bool,
                        targets: *targets,
                        otherwise: *otherwise,
                    }),
                    dl == crate::mir::spec_operand_local(*discr),
                    is_bool == *discr_is_bool,
                    fits(state@, body),
                    state@ == s1,
                    path_views(out@) == old_out + arm_paths(body, summaries@, order, s1, pos, guards@, dl, is_bool, targets@, k as int),
                    all_fit(out@, body),
                decreases targets@.len() - k,
            {
                let (v, t) = targets[k];
                let mut g = copy_guards(&guards);
                g.push(Guard { discr: dl, value: Some(v), is_bool });
                proof {
                    assert(body.succs(bb as int)[k as int] == t);
                    lemma_next_pos(body, order, pos, k as int);
                }
                let copy = state.duplicate();
                walk_paths(copy, t, g, body, summaries, out, Ghost(order), Ghost(next_pos(order, pos, t)));
                k = k + 1;
            }
            let mut g = guards;
            g.push(Guard { discr: dl, value: None, is_bool });
            proof {
                assert(body.succs(bb as int)[targets@.len() as int] == *otherwise);
                lemma_next_pos(body, order, pos, targets@.len() as int);
            }
            walk_paths(state, *otherwise, g, body, summaries, out, Ghost(order), Ghost(next_pos(order, pos, *otherwise)));
        },
        _ => {
            if term.successors.len() > 0 {
                let t = term.successors[0];
                proof {
                    lemma_next_pos(body, order, pos, 0);
                }
                walk_paths(state, t, guards, body, summaries, out, Ghost(order), Ghost(next_pos(order, pos, t)));
            } else {
                let r = match ret {
                    Some(v) => v,
                    None => Val::Unit,
                };
                out.push((guards, state, r));
                proof {
                    assert(path_views(out@) =~= old_out.push((guards@, s1, r)));
                }
            }
        },
    }
}

/// `ps` and `looped` are what the model gives for `body`: one run over all
/// blocks in block order when a cycle is reachable, else every path along a
/// topological order.
pub open spec fn analyzed(body: &Body, sums: Seq<(u64, HeapSummary)>, ps: Seq<PathV>, looped: bool) -> bool {
    &&& looped == crate::cfg::has_reachable_cycle(body)
    &&& looped ==> ps == seq![
        (
            Seq::<Guard>::empty(),
            initial_state(body).run_blocks(body, sums, body.n_blocks() as int).0,
            initial_state(body).run_blocks(body, sums, body.n_blocks() as int).1,
        ),
    ]
    &&& !looped ==> ps == paths_from(
        body,
        sums,
        crate::cfg::block_order(body),
        initial_state(body),
        0,
        Seq::<Guard>::empty(),
    )
}

/// Every path's final state fits the body.
pub open spec fn all_fit(out: Seq<(Vec<Guard>, State, Val)>, body: &Body) -> bool {
    forall|k: int| 0 <= k < out.len() ==> fits((#[trigger] out[k]).1@, body)
}

/// The paths of a function: one per way through it when its control flow has
/// no cycle, else a single run over all blocks in block order (the `bool` is
/// then `true`: loops are not modelled).
pub fn analyze_paths(body: &Body, summaries: &Vec<(u64, HeapSummary)>) -> (r: (
    Vec<(Vec<Guard>, State, Val)>,
    bool,
))
    requires
        body.wf(),
    ensures
        r.0@.len() >= 1,
        all_fit(r.0@, body),
        analyzed(body, summaries@, path_views(r.0@), r.1),
        r.1 == crate::cfg::has_reachable_cycle(body),
        r.1 ==> path_views(r.0@) == seq![
            (
                Seq::<Guard>::empty(),
                initial_state(body).run_blocks(body, summaries@, body.n_blocks() as int).0,
                initial_state(body).run_blocks(body, summaries@, body.n_blocks() as int).1,
            ),
        ],
        !r.1 ==> crate::cfg::is_topo_order(body, crate::cfg::block_order(body)),
        !r.1 ==> path_views(r.0@) == paths_from(
            body,
            summaries@,
            crate::cfg::block_order(body),
            initial_state(body),
            0,
            Seq::<Guard>::empty(),
        ),
{
    let mut state = new_state(body);
    match crate::cfg::topo_order(body) {
        None => {
            let mut ret = Val::Unit;
            let mut bb: usize = 0;
            while bb < body.basic_blocks.len()
                invariant
                    bb <= body.n_blocks(),
                    body.wf(),
                    fits(state@, body),
                    (state@, ret) == initial_state(body).run_blocks(body, summaries@, bb as int),
                decreases body.n_blocks() - bb,
            {
                if let Some(r) = state.run_block_body(body, bb, summaries) {
                    ret = r;
                }
                bb = bb + 1;
            }
            let mut out: Vec<(Vec<Guard>, State, Val)> = Vec::new();
            let ghost sv = state@;
            out.push((Vec::new(), state, ret));
            proof {
                assert(path_views(out@) =~= seq![(Seq::<Guard>::empty(), sv, ret)]);
            }
            (out, true)
        },
        Some(order) => {
            proof {
                crate::cfg::lemma_topo_order_acyclic(body, order@);
            }
            let mut out: Vec<(Vec<Guard>, State, Val)> = Vec::new();
            walk_paths(state, crate::mir::START_BLOCK, Vec::new(), body, summaries, &mut out, Ghost(order@), Ghost(0));
            proof {
                assert(path_views(out@) =~= paths_from(body, summaries@, order@, initial_state(body), 0, Seq::<Guard>::empty()));
                lemma_paths_nonempty(body, summaries@, order@, initial_state(body), 0, Seq::<Guard>::empty());
            }
            (out, false)
        },
    }
}

} // verus!
