//! A plain-value model of the parts of a MIR body that the analyses read.
//!
//! Every value here is filled in by the driver from the compiler's own MIR:
//! locals are numbered as in MIR (`_0` is the return place, `_1 ..= _arg_count`
//! are the arguments), blocks are numbered as in MIR (`bb0` is the entry), and
//! the `text` fields hold the compiler's own `Debug`/`Display` rendering of the
//! item, which the MIR printer shows verbatim.
use vstd::prelude::*;

verus! {

/// The entry block of every body.
pub const START_BLOCK: usize = 0;

/// One step of a place projection.
pub enum ProjElem {
    /// `*p`
    Deref,
    /// `p.<field>`, by field index
    Field(usize),
    /// `p[i]`, indexed by the local `i`
    Index(usize),
    /// `p[offset]` (or `p[-offset]` when counted from the end)
    ConstantIndex { offset: u64, from_end: bool },
    /// Any other projection (downcasts, subslices, ...)
    Other,
}

/// A place: a local followed by projections.
pub struct Place {
    pub local: usize,
    pub projection: Vec<ProjElem>,
    /// The compiler's `Debug` rendering of the place.
    pub text: String,
}

/// A constant operand.
pub struct Constant {
    /// The constant evaluated to its raw bits, reinterpreted as `i128`,
    /// when the compiler can evaluate it to bits.
    pub bits: Option<i128>,
    /// Whether the constant has type `bool`.
    pub is_bool: bool,
    /// Whether the constant has type `()`.
    pub is_unit: bool,
    /// The callee, when the constant is a function item: its id.
    pub fn_def: Option<u64>,
    /// The callee's item name, when the constant is a function item.
    pub fn_name: Option<String>,
    /// The compiler's `Debug` rendering of the constant.
    pub text: String,
}

pub enum Operand {
    Copy(Place),
    Move(Place),
    Constant(Constant),
    /// Any other operand, with its `Debug` rendering.
    Other(String),
}

/// The binary operators of MIR.
pub enum BinOp {
    Add,
    AddUnchecked,
    AddWithOverflow,
    Sub,
    SubUnchecked,
    SubWithOverflow,
    Mul,
    MulUnchecked,
    MulWithOverflow,
    Div,
    Rem,
    BitXor,
    BitAnd,
    BitOr,
    Shl,
    ShlUnchecked,
    Shr,
    ShrUnchecked,
    Eq,
    Lt,
    Le,
    Ne,
    Ge,
    Gt,
    Cmp,
    Offset,
}

/// The unary operators of MIR.
pub enum UnOp {
    Not,
    Neg,
    PtrMetadata,
}

pub enum RvalueKind {
    Use(Operand),
    /// `&place` or `&mut place`
    Ref { mutable: bool, place: Place },
    /// `&raw const place` or `&raw mut place`
    RawPtr { mutable: bool, place: Place },
    BinaryOp(BinOp, Operand, Operand),
    UnaryOp(UnOp, Operand),
    Cast(Operand),
    Aggregate(Vec<Operand>),
    Other,
}

pub struct Rvalue {
    pub kind: RvalueKind,
    /// The compiler's `Debug` rendering of the rvalue.
    pub text: String,
}

pub enum StatementKind {
    Assign(Place, Rvalue),
    StorageLive(usize),
    StorageDead(usize),
    Other,
}

pub struct Statement {
    pub kind: StatementKind,
    /// The compiler's `Debug` rendering of the statement kind.
    pub text: String,
}

pub enum TerminatorKind {
    Goto { target: usize },
    SwitchInt {
        discr: Operand,
        /// The `Debug` rendering of the discriminant operand.
        discr_text: String,
        /// Whether the discriminant has type `bool`.
        discr_is_bool: bool,
        /// The `(value, target)` arms, in order; values are the raw `u128`
        /// reinterpreted as `i128`.
        targets: Vec<(i128, usize)>,
        otherwise: usize,
    },
    Call {
        func: Operand,
        /// The `Debug` rendering of the callee operand.
        func_text: String,
        args: Vec<Operand>,
        destination: Place,
    },
    Drop { place: Place },
    Return,
    Other,
}

pub struct Terminator {
    pub kind: TerminatorKind,
    /// The successor blocks, in the order the compiler lists them.
    pub successors: Vec<usize>,
    /// The compiler's `Debug` rendering of the terminator kind.
    pub text: String,
}

pub struct BasicBlockData {
    pub statements: Vec<Statement>,
    pub terminator: Terminator,
}

pub struct LocalDecl {
    /// Declared `mut`.
    pub mutable: bool,
    /// Its type is a reference or a raw pointer.
    pub is_ref: bool,
    /// Its type is `&mut T` or `*mut T`.
    pub ref_mut: bool,
    /// When its type is a struct: the names of its fields, in order.
    pub field_names: Option<Vec<String>>,
    /// The compiler's `Display` rendering of its type.
    pub ty_text: String,
}

/// A debug-info entry: a user variable name and, when it lives in a place,
/// that place.
pub struct VarDebugInfo {
    pub name: String,
    pub place: Option<Place>,
}

pub struct Body {
    pub local_decls: Vec<LocalDecl>,
    pub arg_count: usize,
    pub basic_blocks: Vec<BasicBlockData>,
    pub var_debug_info: Vec<VarDebugInfo>,
}

/// A function of the crate: its id, its printable path, the lines of its
/// Rust source and its MIR.
pub struct FnEntry {
    pub def_id: u64,
    pub path: String,
    pub source: Vec<String>,
    pub body: Body,
}

// ---------------------------------------------------------------------------
// Well-formedness: indices stay in range.
// ---------------------------------------------------------------------------

pub open spec fn proj_ok(e: ProjElem, n: nat) -> bool {
    match e {
        ProjElem::Index(l) => l < n,
        _ => true,
    }
}

pub open spec fn place_ok(p: Place, n: nat) -> bool {
    &&& p.local < n
    &&& forall|k: int| 0 <= k < p.projection@.len() ==> proj_ok(#[trigger] p.projection@[k], n)
}

pub open spec fn operand_ok(o: Operand, n: nat) -> bool {
    match o {
        Operand::Copy(p) => place_ok(p, n),
        Operand::Move(p) => place_ok(p, n),
        _ => true,
    }
}

pub open spec fn rvalue_ok(r: Rvalue, n: nat) -> bool {
    match r.kind {
        RvalueKind::Use(o) => operand_ok(o, n),
        RvalueKind::Ref { place, .. } => place_ok(place, n),
        RvalueKind::RawPtr { place, .. } => place_ok(place, n),
        RvalueKind::BinaryOp(_, a, b) => operand_ok(a, n) && operand_ok(b, n),
        RvalueKind::UnaryOp(_, a) => operand_ok(a, n),
        RvalueKind::Cast(a) => operand_ok(a, n),
        RvalueKind::Aggregate(ops) => forall|k: int|
            0 <= k < ops@.len() ==> operand_ok(#[trigger] ops@[k], n),
        RvalueKind::Other => true,
    }
}

pub open spec fn stmt_ok(s: Statement, n: nat) -> bool {
    match s.kind {
        StatementKind::Assign(p, r) => place_ok(p, n) && rvalue_ok(r, n),
        StatementKind::StorageLive(l) => l < n,
        StatementKind::StorageDead(l) => l < n,
        StatementKind::Other => true,
    }
}

pub open spec fn term_ok(t: Terminator, n: nat, nb: nat) -> bool {
    &&& t.successors@.len() <= size_bound()
    &&& forall|k: int| 0 <= k < t.successors@.len() ==> #[trigger] t.successors@[k] < nb
    &&& match t.kind {
        TerminatorKind::Goto { target } => t.successors@ == seq![target],
        TerminatorKind::SwitchInt { discr, targets, otherwise, .. } => {
            &&& operand_ok(discr, n)
            &&& t.successors@.len() == targets@.len() + 1
            &&& t.successors@[targets@.len() as int] == otherwise
            &&& forall|k: int|
                0 <= k < targets@.len() ==> (#[trigger] targets@[k]).1 == t.successors@[k]
        },
        TerminatorKind::Call { func, args, destination, .. } => {
            &&& operand_ok(func, n)
            &&& place_ok(destination, n)
            &&& args@.len() <= size_bound()
            &&& forall|k: int| 0 <= k < args@.len() ==> operand_ok(#[trigger] args@[k], n)
        },
        TerminatorKind::Drop { place } => place_ok(place, n),
        TerminatorKind::Return => t.successors@.len() == 0,
        _ => true,
    }
}

pub open spec fn block_ok(b: BasicBlockData, n: nat, nb: nat) -> bool {
    &&& forall|k: int| 0 <= k < b.statements@.len() ==> stmt_ok(#[trigger] b.statements@[k], n)
    &&& term_ok(b.terminator, n, nb)
}

/// The number of program points in the first `k` blocks: one per statement
/// and one per terminator.
pub open spec fn steps_upto(blocks: Seq<BasicBlockData>, k: int) -> nat
    decreases k,
{
    if k <= 0 {
        0
    } else {
        steps_upto(blocks, k - 1) + blocks[k - 1].statements@.len() + 1
    }
}

/// A bound on sizes that keeps every counter of the analyses in range.
pub open spec fn size_bound() -> nat {
    0x1000_0000
}

impl Body {
    pub open spec fn n_locals(&self) -> nat {
        self.local_decls@.len()
    }

    pub open spec fn n_blocks(&self) -> nat {
        self.basic_blocks@.len()
    }

    pub open spec fn succs(&self, b: int) -> Seq<usize> {
        self.basic_blocks@[b].terminator.successors@
    }

    /// Every index that the body holds is in range, and the body is not so
    /// large that a step counter could overflow.
    pub open spec fn wf(&self) -> bool {
        &&& 1 <= self.n_locals() <= size_bound()
        &&& self.arg_count < self.n_locals()
        &&& 1 <= self.n_blocks() <= size_bound()
        &&& steps_upto(self.basic_blocks@, self.n_blocks() as int) <= size_bound()
        &&& forall|b: int|
            0 <= b < self.n_blocks() ==> block_ok(
                #[trigger] self.basic_blocks@[b],
                self.n_locals(),
                self.n_blocks(),
            )
        &&& forall|k: int|
            0 <= k < self.var_debug_info@.len() ==> match (#[trigger] self.var_debug_info@[k]).place {
                Some(p) => place_ok(p, self.n_locals()),
                None => true,
            }
        &&& forall|k: int|
            0 <= k < self.local_decls@.len() ==> match (#[trigger] self.local_decls@[k]).field_names {
                Some(v) => v@.len() <= size_bound(),
                None => true,
            }
    }
}

/// Every body of the crate is well formed, and the ids are distinct.
pub open spec fn funcs_wf(funcs: Seq<FnEntry>) -> bool {
    &&& funcs.len() <= size_bound()
    &&& forall|i: int| 0 <= i < funcs.len() ==> (#[trigger] funcs[i]).body.wf()
    &&& forall|i: int, j: int|
        0 <= i < funcs.len() && 0 <= j < funcs.len() && i != j ==> funcs[i].def_id
            != funcs[j].def_id
}

// ---------------------------------------------------------------------------
// Small queries on places and operands.
// ---------------------------------------------------------------------------

pub open spec fn spec_single_deref(p: Place) -> bool {
    p.projection@.len() == 1 && p.projection@[0] is Deref
}

/// The place is exactly `*local`.
pub fn single_deref(p: &Place) -> (r: bool)
    ensures
        r == spec_single_deref(*p),
{
    p.projection.len() == 1 && match &p.projection[0] {
        ProjElem::Deref => true,
        _ => false,
    }
}

pub open spec fn spec_operand_local(op: Operand) -> Option<usize> {
    match op {
        Operand::Copy(p) => Some(p.local),
        Operand::Move(p) => Some(p.local),
        _ => None,
    }
}

/// The local an operand reads from, if it reads a place.
pub fn operand_locals(op: &Operand) -> (r: Option<usize>)
    ensures
        r == spec_operand_local(*op),
{
    match op {
        Operand::Copy(p) => Some(p.local),
        Operand::Move(p) => Some(p.local),
        _ => None,
    }
}

pub open spec fn spec_callee(op: Operand) -> Option<u64> {
    match op {
        Operand::Constant(c) => c.fn_def,
        _ => None,
    }
}

/// The function a call operand names, when it names one directly.
pub fn callee_def_id(func: &Operand) -> (r: Option<u64>)
    ensures
        r == spec_callee(*func),
{
    match func {
        Operand::Constant(c) => c.fn_def,
        _ => None,
    }
}

pub open spec fn opt_seq(o: Option<usize>) -> Seq<usize> {
    match o {
        Some(l) => seq![l],
        None => seq![],
    }
}

/// The locals an rvalue mentions directly, in order.
pub open spec fn spec_rvalue_locals(rv: Rvalue) -> Seq<usize> {
    match rv.kind {
        RvalueKind::Use(op) => opt_seq(spec_operand_local(op)),
        RvalueKind::Cast(op) => opt_seq(spec_operand_local(op)),
        RvalueKind::UnaryOp(_, op) => opt_seq(spec_operand_local(op)),
        RvalueKind::Ref { place, .. } => seq![place.local],
        RvalueKind::RawPtr { place, .. } => seq![place.local],
        RvalueKind::BinaryOp(_, l, r) => opt_seq(spec_operand_local(l)) + opt_seq(
            spec_operand_local(r),
        ),
        _ => seq![],
    }
}

fn push_opt(out: &mut Vec<usize>, o: Option<usize>)
    ensures
        final(out)@ == old(out)@ + opt_seq(o),
{
    if let Some(l) = o {
        out.push(l);
    }
    proof {
        assert(final(out)@ =~= old(out)@ + opt_seq(o));
    }
}

pub fn rvalue_locals(rv: &Rvalue) -> (r: Vec<usize>)
    ensures
        r@ == spec_rvalue_locals(*rv),
{
    let mut out: Vec<usize> = Vec::new();
    match &rv.kind {
        RvalueKind::Use(op) => push_opt(&mut out, operand_locals(op)),
        RvalueKind::Cast(op) => push_opt(&mut out, operand_locals(op)),
        RvalueKind::UnaryOp(_, op) => push_opt(&mut out, operand_locals(op)),
        RvalueKind::Ref { place, .. } => out.push(place.local),
        RvalueKind::RawPtr { place, .. } => out.push(place.local),
        RvalueKind::BinaryOp(_, l, r) => {
            push_opt(&mut out, operand_locals(l));
            push_opt(&mut out, operand_locals(r));
        },
        _ => {},
    }
    proof {
        assert(out@ =~= spec_rvalue_locals(*rv));
    }
    out
}

pub open spec fn args_locals(args: Seq<Operand>) -> Seq<usize>
    decreases args.len(),
{
    if args.len() == 0 {
        seq![]
    } else {
        args_locals(args.drop_last()) + opt_seq(spec_operand_local(args.last()))
    }
}

/// The locals a terminator mentions directly, in order (`Return` reads `_0`).
pub open spec fn spec_terminator_locals(t: Terminator) -> Seq<usize> {
    match t.kind {
        TerminatorKind::SwitchInt { discr, .. } => opt_seq(spec_operand_local(discr)),
        TerminatorKind::Call { func, args, destination, .. } => opt_seq(spec_operand_local(func))
            + args_locals(args@) + seq![destination.local],
        TerminatorKind::Drop { place } => seq![place.local],
        TerminatorKind::Return => seq![0usize],
        _ => seq![],
    }
}

pub fn terminator_locals(t: &Terminator) -> (r: Vec<usize>)
    ensures
        r@ == spec_terminator_locals(*t),
{
    let mut out: Vec<usize> = Vec::new();
    match &t.kind {
        TerminatorKind::SwitchInt { discr, .. } => push_opt(&mut out, operand_locals(discr)),
        TerminatorKind::Call { func, args, destination, .. } => {
            push_opt(&mut out, operand_locals(func));
            let ghost base = out@;
            let mut i: usize = 0;
            while i < args.len()
                invariant
                    i <= args@.len(),
                    out@ == base + args_locals(args@.take(i as int)),
                decreases args@.len() - i,
            {
                push_opt(&mut out, operand_locals(&args[i]));
                proof {
                    assert(args@.take(i + 1).drop_last() =~= args@.take(i as int));
                }
                i = i + 1;
            }
            proof {
                assert(args@.take(args@.len() as int) =~= args@);
            }
            out.push(destination.local);
        },
        TerminatorKind::Drop { place } => out.push(place.local),
        TerminatorKind::Return => out.push(0),
        _ => {},
    }
    proof {
        assert(out@ =~= spec_terminator_locals(*t));
    }
    out
}

// ---------------------------------------------------------------------------
// Predecessors.
// ---------------------------------------------------------------------------

/// The predecessor list of block `b` as the compiler builds it: for each block
/// in order, for each of its successors in order, the block is listed once per
/// edge into `b`.
pub open spec fn preds_of(blocks: Seq<BasicBlockData>, b: int, upto: int) -> Seq<usize>
    decreases upto,
{
    if upto <= 0 {
        seq![]
    } else {
        preds_of(blocks, b, upto - 1) + edges_into(
            blocks[upto - 1].terminator.successors@,
            b,
            (upto - 1) as usize,
        )
    }
}

/// One entry `from` per occurrence of `b` in `succs`.
pub open spec fn edges_into(succs: Seq<usize>, b: int, from: usize) -> Seq<usize>
    decreases succs.len(),
{
    if succs.len() == 0 {
        seq![]
    } else {
        edges_into(succs.drop_last(), b, from) + if succs.last() == b {
            seq![from]
        } else {
            seq![]
        }
    }
}

impl Body {
    pub open spec fn spec_preds(&self, b: int) -> Seq<usize> {
        preds_of(self.basic_blocks@, b, self.n_blocks() as int)
    }
}

proof fn lemma_edges_bound(succs: Seq<usize>, b: int, from: usize)
    ensures
        edges_into(succs, b, from).len() <= succs.len(),
        forall|k: int|
            0 <= k < edges_into(succs, b, from).len() ==> #[trigger] edges_into(succs, b, from)[k]
                == from,
    decreases succs.len(),
{
    if succs.len() > 0 {
        lemma_edges_bound(succs.drop_last(), b, from);
    }
}

proof fn lemma_edges_listed(succs: Seq<usize>, b: int, from: usize)
    requires
        succs.contains(b as usize),
        0 <= b <= usize::MAX,
    ensures
        edges_into(succs, b, from).contains(from),
    decreases succs.len(),
{
    if succs.last() == b {
        let e = edges_into(succs, b, from);
        assert(e[e.len() - 1] == from);
    } else {
        let w = choose|w: int| 0 <= w < succs.len() && succs[w] == b as usize;
        assert(w < succs.len() - 1);
        assert(succs.drop_last()[w] == b);
        lemma_edges_listed(succs.drop_last(), b, from);
        let e0 = edges_into(succs.drop_last(), b, from);
        let i = choose|i: int| 0 <= i < e0.len() && e0[i] == from;
        assert(edges_into(succs, b, from)[i] == from);
    }
}

proof fn lemma_preds_of_bound(blocks: Seq<BasicBlockData>, b: int, upto: int)
    ensures
        forall|q: int| 0 <= q < preds_of(blocks, b, upto).len() ==> #[trigger] preds_of(blocks, b, upto)[q] < upto,
    decreases upto,
{
    if upto > 0 {
        lemma_preds_of_bound(blocks, b, upto - 1);
        lemma_edges_bound(blocks[upto - 1].terminator.successors@, b, (upto - 1) as usize);
        let a = preds_of(blocks, b, upto - 1);
        let e = edges_into(blocks[upto - 1].terminator.successors@, b, (upto - 1) as usize);
        assert forall|q: int| 0 <= q < preds_of(blocks, b, upto).len() implies #[trigger] preds_of(
            blocks,
            b,
            upto,
        )[q] < upto by {
            if q >= a.len() {
                assert(preds_of(blocks, b, upto)[q] == e[q - a.len()]);
            }
        }
    }
}

proof fn lemma_preds_of_listed(blocks: Seq<BasicBlockData>, b: int, upto: int, p: int)
    requires
        0 <= p < upto <= blocks.len(),
        upto <= usize::MAX,
        0 <= b <= usize::MAX,
        blocks[p].terminator.successors@.contains(b as usize),
    ensures
        preds_of(blocks, b, upto).contains(p as usize),
    decreases upto,
{
    let a = preds_of(blocks, b, upto - 1);
    let e = edges_into(blocks[upto - 1].terminator.successors@, b, (upto - 1) as usize);
    if p == upto - 1 {
        lemma_edges_listed(blocks[p].terminator.successors@, b, p as usize);
        let i = choose|i: int| 0 <= i < e.len() && e[i] == p as usize;
        assert(preds_of(blocks, b, upto) == a + e);
        assert((a + e)[a.len() + i] == p as usize);
    } else {
        lemma_preds_of_listed(blocks, b, upto - 1, p);
        let i = choose|i: int| 0 <= i < a.len() && a[i] == p as usize;
        assert(preds_of(blocks, b, upto) == a + e);
        assert((a + e)[i] == p as usize);
    }
}

impl Body {
    /// Every listed predecessor is a block of the body.
    pub proof fn lemma_preds_bound(&self, b: int)
        ensures
            forall|q: int| 0 <= q < self.spec_preds(b).len() ==> #[trigger] self.spec_preds(b)[q] < self.n_blocks(),
    {
        lemma_preds_of_bound(self.basic_blocks@, b, self.n_blocks() as int);
    }

    /// A block with an edge into `b` is listed among the predecessors of `b`.
    pub proof fn lemma_pred_listed(&self, p: int, b: int)
        requires
            self.wf(),
            0 <= p < self.n_blocks(),
            0 <= b <= usize::MAX,
            self.succs(p).contains(b as usize),
        ensures
            self.spec_preds(b).contains(p as usize),
    {
        lemma_preds_of_listed(self.basic_blocks@, b, self.n_blocks() as int, p);
    }
}

/// The predecessors of every block, as the compiler lists them.
pub fn predecessors(body: &Body) -> (r: Vec<Vec<usize>>)
    requires
        body.wf(),
    ensures
        r@.len() == body.n_blocks(),
        forall|b: int| 0 <= b < body.n_blocks() ==> (#[trigger] r@[b])@ == body.spec_preds(b),
{
    let nb = body.basic_blocks.len();
    let mut preds: Vec<Vec<usize>> = Vec::new();
    let mut j: usize = 0;
    while j < nb
        invariant
            j <= nb,
            nb == body.n_blocks(),
            preds@.len() == j,
            forall|b: int| 0 <= b < j ==> (#[trigger] preds@[b])@ == Seq::<usize>::empty(),
        decreases nb - j,
    {
        preds.push(Vec::new());
        j = j + 1;
    }
    let mut i: usize = 0;
    while i < nb
        invariant
            i <= nb,
            nb == body.n_blocks(),
            body.wf(),
            preds@.len() == nb,
            forall|b: int|
                0 <= b < nb ==> (#[trigger] preds@[b])@ == preds_of(
                    body.basic_blocks@,
                    b,
                    i as int,
                ),
        decreases nb - i,
    {
        let succs = &body.basic_blocks[i].terminator.successors;
        let ghost before = preds@;
        let mut k: usize = 0;
        while k < succs.len()
            invariant
                k <= succs@.len(),
                i < nb,
                nb == body.n_blocks(),
                body.wf(),
                *succs == body.basic_blocks@[i as int].terminator.successors,
                preds@.len() == nb,
                forall|b: int|
                    0 <= b < nb ==> (#[trigger] preds@[b])@ == before[b]@ + edges_into(
                        succs@.take(k as int),
                        b,
                        i,
                    ),
            decreases succs@.len() - k,
        {
            let s = succs[k];
            assert(block_ok(body.basic_blocks@[i as int], body.n_locals(), body.n_blocks()));
            assert(s < nb);
            let mut v = Vec::new();
            std::mem::swap(&mut v, &mut preds[s]);
            v.push(i);
            std::mem::swap(&mut v, &mut preds[s]);
            proof {
                assert forall|b: int| 0 <= b < nb implies (#[trigger] preds@[b])@ == before[b]@
                    + edges_into(succs@.take(k + 1), b, i) by {
                    assert(succs@.take(k + 1).drop_last() =~= succs@.take(k as int));
                    if b == s {
                        assert((before[b]@ + edges_into(succs@.take(k as int), b, i)).push(i)
                            =~= before[b]@ + (edges_into(succs@.take(k as int), b, i) + seq![
                            i,
                        ]));
                    } else {
                        assert(edges_into(succs@.take(k as int), b, i) + Seq::<usize>::empty()
                            =~= edges_into(succs@.take(k as int), b, i));
                    }
                }
            }
            k = k + 1;
        }
        proof {
            assert(succs@.take(succs@.len() as int) =~= succs@);
        }
        i = i + 1;
    }
    preds
}

// ---------------------------------------------------------------------------
// Checking well-formedness.
// ---------------------------------------------------------------------------

fn place_ok_check(p: &Place, n: usize) -> (r: bool)
    ensures
        r == place_ok(*p, n as nat),
{
    if p.local >= n {
        return false;
    }
    let mut k: usize = 0;
    while k < p.projection.len()
        invariant
            k <= p.projection@.len(),
            p.local < n,
            forall|j: int| 0 <= j < k ==> proj_ok(#[trigger] p.projection@[j], n as nat),
        decreases p.projection@.len() - k,
    {
        match &p.projection[k] {
            ProjElem::Index(l) => if *l >= n {
                assert(!proj_ok(p.projection@[k as int], n as nat));
                return false;
            },
            _ => {},
        }
        k = k + 1;
    }
    true
}

fn operand_ok_check(o: &Operand, n: usize) -> (r: bool)
    ensures
        r == operand_ok(*o, n as nat),
{
    match o {
        Operand::Copy(p) => place_ok_check(p, n),
        Operand::Move(p) => place_ok_check(p, n),
        _ => true,
    }
}

fn operands_ok_check(ops: &Vec<Operand>, n: usize) -> (r: bool)
    ensures
        r == forall|k: int| 0 <= k < ops@.len() ==> operand_ok(#[trigger] ops@[k], n as nat),
{
    let mut k: usize = 0;
    while k < ops.len()
        invariant
            k <= ops@.len(),
            forall|j: int| 0 <= j < k ==> operand_ok(#[trigger] ops@[j], n as nat),
        decreases ops@.len() - k,
    {
        if !operand_ok_check(&ops[k], n) {
            return false;
        }
        k = k + 1;
    }
    true
}

fn rvalue_ok_check(rv: &Rvalue, n: usize) -> (r: bool)
    ensures
        r == rvalue_ok(*rv, n as nat),
{
    match &rv.kind {
        RvalueKind::Use(o) => operand_ok_check(o, n),
        RvalueKind::Ref { place, .. } => place_ok_check(place, n),
        RvalueKind::RawPtr { place, .. } => place_ok_check(place, n),
        RvalueKind::BinaryOp(_, a, b) => operand_ok_check(a, n) && operand_ok_check(b, n),
        RvalueKind::UnaryOp(_, a) => operand_ok_check(a, n),
        RvalueKind::Cast(a) => operand_ok_check(a, n),
        RvalueKind::Aggregate(ops) => operands_ok_check(ops, n),
        RvalueKind::Other => true,
    }
}

fn stmt_ok_check(s: &Statement, n: usize) -> (r: bool)
    ensures
        r == stmt_ok(*s, n as nat),
{
    match &s.kind {
        StatementKind::Assign(p, rv) => place_ok_check(p, n) && rvalue_ok_check(rv, n),
        StatementKind::StorageLive(l) => *l < n,
        StatementKind::StorageDead(l) => *l < n,
        StatementKind::Other => true,
    }
}

#[verifier::loop_isolation(false)]
fn term_kind_ok_check(t: &Terminator, n: usize) -> (r: bool)
    ensures
        r == match t.kind {
            TerminatorKind::Goto { target } => t.successors@ == seq![target],
            TerminatorKind::SwitchInt { discr, targets, otherwise, .. } => {
                &&& operand_ok(discr, n as nat)
                &&& t.successors@.len() == targets@.len() + 1
                &&& t.successors@[targets@.len() as int] == otherwise
                &&& forall|k: int|
                    0 <= k < targets@.len() ==> (#[trigger] targets@[k]).1 == t.successors@[k]
            },
            TerminatorKind::Call { func, args, destination, .. } => {
                &&& operand_ok(func, n as nat)
                &&& place_ok(destination, n as nat)
                &&& args@.len() <= size_bound()
                &&& forall|k: int| 0 <= k < args@.len() ==> operand_ok(#[trigger] args@[k], n as nat)
            },
            TerminatorKind::Drop { place } => place_ok(place, n as nat),
            TerminatorKind::Return => t.successors@.len() == 0,
            _ => true,
        },
{
    match &t.kind {
        TerminatorKind::Goto { target } => {
            let r = t.successors.len() == 1 && t.successors[0] == *target;
            proof {
                if r {
                    assert(t.successors@ =~= seq![*target]);
                } else if t.successors@.len() == 1 {
                    assert(t.successors@[0] != seq![*target][0]);
                }
            }
            r
        },
        TerminatorKind::SwitchInt { discr, targets, otherwise, .. } => {
            if !operand_ok_check(discr, n) {
                return false;
            }
            if t.successors.len() == 0 || t.successors.len() - 1 != targets.len() {
                return false;
            }
            if t.successors[targets.len()] != *otherwise {
                return false;
            }
            let mut k: usize = 0;
            while k < targets.len()
                invariant
                    k <= targets@.len(),
                    t.successors@.len() == targets@.len() + 1,
                    operand_ok(*discr, n as nat),
                    t.successors@[targets@.len() as int] == *otherwise,
                    forall|j: int| 0 <= j < k ==> (#[trigger] targets@[j]).1 == t.successors@[j],
                decreases targets@.len() - k,
            {
                if targets[k].1 != t.successors[k] {
                    assert(targets@[k as int].1 != t.successors@[k as int]);
                    return false;
                }
                k = k + 1;
            }
            true
        },
        TerminatorKind::Call { func, args, destination, .. } => {
            operand_ok_check(func, n) && place_ok_check(destination, n) && args.len() <= 0x1000_0000
                && operands_ok_check(args, n)
        },
        TerminatorKind::Drop { place } => place_ok_check(place, n),
        TerminatorKind::Return => t.successors.len() == 0,
        TerminatorKind::Other => true,
    }
}

fn term_ok_check(t: &Terminator, n: usize, nb: usize) -> (r: bool)
    ensures
        r == term_ok(*t, n as nat, nb as nat),
{
    if t.successors.len() > 0x1000_0000 {
        return false;
    }
    let mut k: usize = 0;
    while k < t.successors.len()
        invariant
            k <= t.successors@.len(),
            forall|j: int| 0 <= j < k ==> #[trigger] t.successors@[j] < nb,
        decreases t.successors@.len() - k,
    {
        if t.successors[k] >= nb {
            return false;
        }
        k = k + 1;
    }
    term_kind_ok_check(t, n)
}

fn block_ok_check(b: &BasicBlockData, n: usize, nb: usize) -> (r: bool)
    ensures
        r == block_ok(*b, n as nat, nb as nat),
{
    let mut k: usize = 0;
    while k < b.statements.len()
        invariant
            k <= b.statements@.len(),
            forall|j: int| 0 <= j < k ==> stmt_ok(#[trigger] b.statements@[j], n as nat),
        decreases b.statements@.len() - k,
    {
        if !stmt_ok_check(&b.statements[k], n) {
            return false;
        }
        k = k + 1;
    }
    term_ok_check(&b.terminator, n, nb)
}

proof fn lemma_steps_grow(blocks: Seq<BasicBlockData>, j: int, k: int)
    requires
        0 <= j <= k,
    ensures
        steps_upto(blocks, j) <= steps_upto(blocks, k),
    decreases k,
{
    if j < k {
        lemma_steps_grow(blocks, j, k - 1);
    }
}

/// Whether `body` is well formed: every index it holds is in range and it is
/// small enough for the analyses' counters.
pub fn body_wf(body: &Body) -> (r: bool)
    ensures
        r == body.wf(),
{
    let n = body.local_decls.len();
    let nb = body.basic_blocks.len();
    if n < 1 || n > 0x1000_0000 || body.arg_count >= n || nb < 1 || nb > 0x1000_0000 {
        return false;
    }
    let mut total: usize = 0;
    let mut b: usize = 0;
    while b < nb
        invariant
            b <= nb,
            nb == body.n_blocks(),
            total == steps_upto(body.basic_blocks@, b as int),
            total <= size_bound(),
        decreases nb - b,
    {
        let m = body.basic_blocks[b].statements.len();
        if m >= 0x1000_0000 - total {
            proof {
                lemma_steps_grow(body.basic_blocks@, b + 1, nb as int);
            }
            return false;
        }
        total = total + m + 1;
        b = b + 1;
    }
    let mut b: usize = 0;
    while b < nb
        invariant
            b <= nb,
            nb == body.n_blocks(),
            n == body.n_locals(),
            forall|j: int| 0 <= j < b ==> block_ok(#[trigger] body.basic_blocks@[j], n as nat, nb as nat),
        decreases nb - b,
    {
        if !block_ok_check(&body.basic_blocks[b], n, nb) {
            return false;
        }
        b = b + 1;
    }
    let mut k: usize = 0;
    while k < body.var_debug_info.len()
        invariant
            k <= body.var_debug_info@.len(),
            n == body.n_locals(),
            forall|j: int| 0 <= j < k ==> match (#[trigger] body.var_debug_info@[j]).place {
                Some(p) => place_ok(p, n as nat),
                None => true,
            },
        decreases body.var_debug_info@.len() - k,
    {
        match &body.var_debug_info[k].place {
            Some(p) => if !place_ok_check(p, n) {
                return false;
            },
            None => {},
        }
        k = k + 1;
    }
    let mut k: usize = 0;
    while k < n
        invariant
            k <= n,
            n == body.n_locals(),
            forall|j: int| 0 <= j < k ==> match (#[trigger] body.local_decls@[j]).field_names {
                Some(v) => v@.len() <= size_bound(),
                None => true,
            },
        decreases n - k,
    {
        match &body.local_decls[k].field_names {
            Some(v) => if v.len() > 0x1000_0000 {
                return false;
            },
            None => {},
        }
        k = k + 1;
    }
    true
}

/// Whether every body of the crate is well formed and the ids are distinct.
pub fn funcs_ok(funcs: &Vec<FnEntry>) -> (r: bool)
    ensures
        r == funcs_wf(funcs@),
{
    if funcs.len() > 0x1000_0000 {
        return false;
    }
    let mut i: usize = 0;
    while i < funcs.len()
        invariant
            i <= funcs@.len(),
            forall|j: int| 0 <= j < i ==> (#[trigger] funcs@[j]).body.wf(),
            forall|a: int, b: int| 0 <= a < i && 0 <= b < i && a != b ==> funcs@[a].def_id != funcs@[b].def_id,
        decreases funcs@.len() - i,
    {
        if !body_wf(&funcs[i].body) {
            return false;
        }
        let mut j: usize = 0;
        while j < i
            invariant
                j <= i < funcs@.len(),
                forall|q: int| 0 <= q < j ==> (#[trigger] funcs@[q]).def_id != funcs@[i as int].def_id,
            decreases i - j,
        {
            if funcs[j].def_id == funcs[i].def_id {
                return false;
            }
            j = j + 1;
        }
        i = i + 1;
    }
    true
}

} // verus!
