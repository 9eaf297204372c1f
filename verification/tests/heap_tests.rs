use mirlens::heap::{Lifetime, LocState, Ownership, Ret, Val};
use mirlens::mir::{
    BasicBlockData, BinOp, Body, Constant, FnEntry, LocalDecl, Operand, Place, ProjElem, Rvalue, RvalueKind,
    Statement, StatementKind, Terminator, TerminatorKind, VarDebugInfo,
};

fn place(l: usize) -> Place {
    Place { local: l, projection: vec![], text: format!("_{l}") }
}

fn deref(l: usize) -> Place {
    Place { local: l, projection: vec![ProjElem::Deref], text: format!("(*_{l})") }
}

fn cint(v: i128) -> Operand {
    Operand::Constant(Constant {
        bits: Some(v),
        is_bool: false,
        is_unit: false,
        fn_def: None,
        fn_name: None,
        text: format!("{v}_i32"),
    })
}

fn assign(p: Place, kind: RvalueKind) -> Statement {
    let text = format!("{} = ..", p.text);
    Statement { kind: StatementKind::Assign(p, Rvalue { kind, text: "rvalue".to_string() }), text }
}

fn live(l: usize) -> Statement {
    Statement { kind: StatementKind::StorageLive(l), text: format!("StorageLive(_{l})") }
}

fn dead(l: usize) -> Statement {
    Statement { kind: StatementKind::StorageDead(l), text: format!("StorageDead(_{l})") }
}

fn ret() -> Terminator {
    Terminator { kind: TerminatorKind::Return, successors: vec![], text: "return".to_string() }
}

fn call(id: u64, name: &str, args: Vec<Operand>, dest: usize, target: usize) -> Terminator {
    let func = Operand::Constant(Constant {
        bits: None,
        is_bool: false,
        is_unit: false,
        fn_def: Some(id),
        fn_name: Some(name.to_string()),
        text: name.to_string(),
    });
    Terminator {
        kind: TerminatorKind::Call { func, func_text: name.to_string(), args, destination: place(dest) },
        successors: vec![target],
        text: format!("call {name}"),
    }
}

fn block(statements: Vec<Statement>, terminator: Terminator) -> BasicBlockData {
    BasicBlockData { statements, terminator }
}

fn decl(mutable: bool, ty: &str) -> LocalDecl {
    LocalDecl { mutable, is_ref: false, ref_mut: false, field_names: None, ty_text: ty.to_string() }
}

fn ref_decl(mutable_ref: bool, ty: &str) -> LocalDecl {
    LocalDecl { mutable: false, is_ref: true, ref_mut: mutable_ref, field_names: None, ty_text: ty.to_string() }
}

fn var(name: &str, l: usize) -> VarDebugInfo {
    VarDebugInfo { name: name.to_string(), place: Some(place(l)) }
}

/// `fn set(p: &mut i32, v: i32) { *p = v; }`
fn set_body() -> Body {
    Body {
        local_decls: vec![decl(true, "()"), ref_decl(true, "&mut i32"), decl(false, "i32")],
        arg_count: 2,
        basic_blocks: vec![block(vec![assign(deref(1), RvalueKind::Use(Operand::Copy(place(2))))], ret())],
        var_debug_info: vec![var("p", 1), var("v", 2)],
    }
}

/// `fn caller() -> i32 { let mut x = 1; set(&mut x, 7); x }`
fn caller_body() -> Body {
    Body {
        local_decls: vec![decl(true, "i32"), decl(true, "i32"), decl(false, "()"), ref_decl(true, "&mut i32")],
        arg_count: 0,
        basic_blocks: vec![
            block(
                vec![
                    live(1),
                    assign(place(1), RvalueKind::Use(cint(1))),
                    live(3),
                    assign(place(3), RvalueKind::Ref { mutable: true, place: place(1) }),
                ],
                call(1, "set", vec![Operand::Move(place(3)), cint(7)], 2, 1),
            ),
            block(vec![dead(3), assign(place(0), RvalueKind::Use(Operand::Copy(place(1)))), dead(1)], ret()),
        ],
        var_debug_info: vec![var("x", 1)],
    }
}

fn lt(id: usize, start: usize, end: usize) -> Lifetime {
    Lifetime { id, start, end }
}

#[test]
fn fold_computes_known_integers() {
    assert_eq!(mirlens::heap::fold(&BinOp::Add, 2, 3).to_text(), "5");
    assert_eq!(mirlens::heap::fold(&BinOp::Sub, 2, 3).to_text(), "-1");
    assert_eq!(mirlens::heap::fold(&BinOp::Mul, 6, 7).to_text(), "42");
    assert_eq!(mirlens::heap::fold(&BinOp::Div, 7, 2).to_text(), "3");
    assert_eq!(mirlens::heap::fold(&BinOp::Rem, 7, 2).to_text(), "1");
    assert_eq!(mirlens::heap::fold(&BinOp::BitAnd, 6, 3).to_text(), "2");
    assert_eq!(mirlens::heap::fold(&BinOp::BitOr, 6, 3).to_text(), "7");
    assert_eq!(mirlens::heap::fold(&BinOp::BitXor, 6, 3).to_text(), "5");
}

#[test]
fn fold_compares_known_integers() {
    assert_eq!(mirlens::heap::fold(&BinOp::Lt, 1, 2).to_text(), "true");
    assert_eq!(mirlens::heap::fold(&BinOp::Ge, 1, 2).to_text(), "false");
    assert_eq!(mirlens::heap::fold(&BinOp::Eq, 4, 4).to_text(), "true");
    assert_eq!(mirlens::heap::fold(&BinOp::Ne, 4, 4).to_text(), "false");
}

#[test]
fn fold_gives_unknown_on_overflow_division_by_zero_and_other_operators() {
    assert_eq!(mirlens::heap::fold(&BinOp::Add, i128::MAX, 1).to_text(), "?");
    assert_eq!(mirlens::heap::fold(&BinOp::Div, 1, 0).to_text(), "?");
    assert_eq!(mirlens::heap::fold(&BinOp::Rem, 1, 0).to_text(), "?");
    assert_eq!(mirlens::heap::fold(&BinOp::Shl, 1, 2).to_text(), "?");
}

#[test]
fn values_print_as_in_reports() {
    assert_eq!(Val::Param(0).to_text(), "arg0");
    assert_eq!(Val::In(1).to_text(), "*arg1");
    assert_eq!(Val::Bool(true).to_text(), "true");
    assert_eq!(Val::Unit.to_text(), "()");
    assert_eq!(Val::Unknown.to_text(), "?");
    assert_eq!(Val::Int(-12).to_text(), "-12");
}

#[test]
fn borrow_states_print_their_lifetimes() {
    assert_eq!(LocState::Owned.label(), "LocOwned");
    assert_eq!(LocState::Shared(vec![lt(1, 0, 2), lt(2, 1, 3)]).label(), "LocShared[lt1, lt2]");
    assert_eq!(LocState::Mut(vec![lt(3, 0, 1)]).label(), "LocMut[lt3]");
    assert_eq!(LocState::Mut(vec![]).label(), "LocMut[]");
}

#[test]
fn lifetime_activity_is_half_open() {
    let l = lt(0, 2, 5);
    assert!(!l.active(1));
    assert!(l.active(2));
    assert!(l.active(4));
    assert!(!l.active(5));
}

#[test]
fn lifetime_containment_is_reflexive_and_transitive() {
    let a = lt(0, 0, 10);
    let b = lt(1, 2, 8);
    let c = lt(2, 3, 5);
    assert!(a.contains(&a));
    assert!(a.contains(&b) && b.contains(&c) && a.contains(&c));
    assert!(!c.contains(&b));
}

#[test]
fn ownership_names_its_kind_cell_and_lifetime() {
    let o = Ownership::MutRef(4, lt(2, 1, 3));
    assert_eq!(o.kind(), "MutRef");
    assert_eq!(o.addr(), 4);
    assert_eq!(o.lifetime().id, 2);
    assert_eq!(Ownership::Owned(0, lt(0, 0, 1)).kind(), "Owned");
    assert_eq!(Ownership::SharedRef(1, lt(0, 0, 1)).kind(), "SharedRef");
    assert_eq!(Ownership::MutOwned(1, lt(0, 0, 1)).kind(), "MutOwned");
}

#[test]
fn blocks_start_after_the_points_of_the_blocks_before() {
    let steps = mirlens::heap::block_steps(&caller_body());
    assert_eq!(steps, vec![0, 5]);
}

#[test]
fn write_through_reference_parameter_enters_the_heap_summary() {
    let (_, _, sum) = mirlens::heap::analyze_fn(&set_body(), &Vec::new());
    assert_eq!(sum.writes.len(), 1);
    assert_eq!(sum.writes[0].0, 0);
    assert_eq!(sum.writes[0].1.to_text(), "arg1");
    assert!(matches!(sum.ret, Ret::Val(Val::Unknown)));
}

#[test]
fn callee_heap_summary_reaches_the_caller() {
    let funcs = vec![
        FnEntry { def_id: 1, path: "set".to_string(), source: vec![], body: set_body() },
        FnEntry { def_id: 2, path: "caller".to_string(), source: vec![], body: caller_body() },
    ];
    let sums = mirlens::heap::build_summaries(&funcs);
    assert_eq!(sums.len(), 2);
    assert_eq!(sums[0].0, 1);
    assert_eq!(sums[1].0, 2);
    match sums[1].1.ret {
        Ret::Val(v) => assert_eq!(v.to_text(), "7"),
        Ret::Ref(_) => panic!("caller returns a value"),
    }
    assert!(sums[1].1.writes.is_empty());
}

fn one_cell_state(state: LocState, step: usize) -> mirlens::heap::State {
    let own = lt(0, 0, 10);
    mirlens::heap::State {
        names: vec!["x".to_string()],
        muts: vec![true],
        refs: vec![false],
        arg_count: 0,
        lifetimes: vec![own],
        block_step: vec![0],
        heap: vec![mirlens::heap::Cell { value: Val::Int(3), state, owner: own }],
        vars: vec![Some(Ownership::MutOwned(0, own))],
        step,
        ub: vec![],
    }
}

#[test]
fn expiry_keeps_only_active_borrows_and_is_done_once() {
    let mut s = one_cell_state(LocState::Shared(vec![lt(1, 0, 2), lt(2, 0, 10)]), 5);
    s.expire(0);
    assert_eq!(s.heap[0].state.label(), "LocShared[lt2]");
    s.expire(0);
    assert_eq!(s.heap[0].state.label(), "LocShared[lt2]");
    assert_eq!(s.heap[0].value.to_text(), "3");
    assert!(s.ub.is_empty());
}

#[test]
fn expiry_of_every_borrow_frees_the_cell() {
    let mut s = one_cell_state(LocState::Mut(vec![lt(1, 0, 2)]), 5);
    s.expire(0);
    assert_eq!(s.heap[0].state.label(), "LocOwned");
}

#[test]
fn running_a_block_keeps_tables_owners_and_findings() {
    let body = caller_body();
    let mut s = mirlens::heap::new_state(&body);
    let names = s.names.clone();
    s.ub.push("earlier finding".to_string());
    s.run_block_body(&body, 0, &Vec::new());
    let owners: Vec<(usize, usize, usize)> = s.heap.iter().map(|c| (c.owner.id, c.owner.start, c.owner.end)).collect();
    let cells = s.heap.len();
    s.run_block_body(&body, 1, &Vec::new());
    assert_eq!(s.names, names);
    assert_eq!(s.vars.len(), 4);
    assert!(s.heap.len() >= cells);
    for (k, o) in owners.iter().enumerate() {
        assert_eq!((s.heap[k].owner.id, s.heap[k].owner.start, s.heap[k].owner.end), *o);
    }
    assert_eq!(s.ub[0], "earlier finding");
}
