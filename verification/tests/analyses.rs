use mirlens::mir::{
    BasicBlockData, BinOp, Body, Constant, FnEntry, LocalDecl, Operand, Place, ProjElem, Rvalue, RvalueKind,
    Statement, StatementKind, Terminator, TerminatorKind, VarDebugInfo,
};

fn place(l: usize) -> Place {
    Place { local: l, projection: vec![], text: format!("_{l}") }
}

fn deref(l: usize) -> Place {
    Place { local: l, projection: vec![ProjElem::Deref], text: format!("(*_{l})") }
}

fn field(l: usize, i: usize) -> Place {
    Place { local: l, projection: vec![ProjElem::Field(i)], text: format!("(_{l}.{i}: i32)") }
}

fn cint(v: i128) -> Operand {
    Operand::Constant(Constant {
        bits: Some(v),
        is_bool: false,
        is_unit: false,
        fn_def: None,
        fn_name: None,
        text: format!("{v}_i32"),
    })
}

fn func(id: u64, name: &str) -> Operand {
    Operand::Constant(Constant {
        bits: None,
        is_bool: false,
        is_unit: false,
        fn_def: Some(id),
        fn_name: Some(name.to_string()),
        text: name.to_string(),
    })
}

fn assign(p: Place, kind: RvalueKind) -> Statement {
    let text = format!("{} = ..", p.text);
    Statement { kind: StatementKind::Assign(p, Rvalue { kind, text: "rvalue".to_string() }), text }
}

fn live(l: usize) -> Statement {
    Statement { kind: StatementKind::StorageLive(l), text: format!("StorageLive(_{l})") }
}

fn dead(l: usize) -> Statement {
    Statement { kind: StatementKind::StorageDead(l), text: format!("StorageDead(_{l})") }
}

fn goto(t: usize) -> Terminator {
    Terminator { kind: TerminatorKind::Goto { target: t }, successors: vec![t], text: format!("goto -> bb{t}") }
}

fn ret() -> Terminator {
    Terminator { kind: TerminatorKind::Return, successors: vec![], text: "return".to_string() }
}

fn switch(d: Operand, d_text: &str, is_bool: bool, arms: Vec<(i128, usize)>, otherwise: usize) -> Terminator {
    let mut successors: Vec<usize> = arms.iter().map(|a| a.1).collect();
    successors.push(otherwise);
    Terminator {
        kind: TerminatorKind::SwitchInt {
            discr: d,
            discr_text: d_text.to_string(),
            discr_is_bool: is_bool,
            targets: arms,
            otherwise,
        },
        successors,
        text: "switchInt".to_string(),
    }
}

fn call(id: u64, name: &str, args: Vec<Operand>, dest: usize, target: usize) -> Terminator {
    Terminator {
        kind: TerminatorKind::Call {
            func: func(id, name),
            func_text: name.to_string(),
            args,
            destination: place(dest),
        },
        successors: vec![target],
        text: format!("call {name}"),
    }
}

fn block(statements: Vec<Statement>, terminator: Terminator) -> BasicBlockData {
    BasicBlockData { statements, terminator }
}

fn decl(mutable: bool, ty: &str) -> LocalDecl {
    LocalDecl { mutable, is_ref: false, ref_mut: false, field_names: None, ty_text: ty.to_string() }
}

fn ref_decl(mutable_ref: bool, ty: &str) -> LocalDecl {
    LocalDecl { mutable: false, is_ref: true, ref_mut: mutable_ref, field_names: None, ty_text: ty.to_string() }
}

fn point_decl() -> LocalDecl {
    LocalDecl {
        mutable: false,
        is_ref: false,
        ref_mut: false,
        field_names: Some(vec!["x".to_string(), "y".to_string()]),
        ty_text: "Point".to_string(),
    }
}

fn var(name: &str, l: usize) -> VarDebugInfo {
    VarDebugInfo { name: name.to_string(), place: Some(place(l)) }
}

fn entry(id: u64, path: &str, body: Body) -> FnEntry {
    FnEntry { def_id: id, path: path.to_string(), source: vec![], body }
}

/// `fn pick(c: bool) -> i32 { if c { 1 } else { 2 } }`
fn pick_body() -> Body {
    Body {
        local_decls: vec![decl(true, "i32"), decl(false, "bool")],
        arg_count: 1,
        basic_blocks: vec![
            block(vec![], switch(Operand::Copy(place(1)), "copy _1", true, vec![(0, 2)], 1)),
            block(vec![assign(place(0), RvalueKind::Use(cint(1)))], goto(3)),
            block(vec![assign(place(0), RvalueKind::Use(cint(2)))], goto(3)),
            block(vec![], ret()),
        ],
        var_debug_info: vec![var("c", 1)],
    }
}

/// `fn step(c: bool, x: i32) -> i32 { if c { x + 1 } else { x - 1 } }`
fn step_body() -> Body {
    Body {
        local_decls: vec![decl(true, "i32"), decl(false, "bool"), decl(false, "i32")],
        arg_count: 2,
        basic_blocks: vec![
            block(vec![], switch(Operand::Copy(place(1)), "copy _1", true, vec![(0, 2)], 1)),
            block(
                vec![assign(place(0), RvalueKind::BinaryOp(BinOp::Add, Operand::Copy(place(2)), cint(1)))],
                goto(3),
            ),
            block(
                vec![assign(place(0), RvalueKind::BinaryOp(BinOp::Sub, Operand::Copy(place(2)), cint(1)))],
                goto(3),
            ),
            block(vec![], ret()),
        ],
        var_debug_info: vec![var("c", 1), var("x", 2)],
    }
}

/// `fn g() -> i32 { let x = 5; let r = &x; *r }`
fn g_body() -> Body {
    Body {
        local_decls: vec![decl(true, "i32"), decl(false, "i32"), ref_decl(false, "&i32")],
        arg_count: 0,
        basic_blocks: vec![block(
            vec![
                live(1),
                assign(place(1), RvalueKind::Use(cint(5))),
                live(2),
                assign(place(2), RvalueKind::Ref { mutable: false, place: place(1) }),
                assign(place(0), RvalueKind::Use(Operand::Copy(deref(2)))),
                dead(2),
                dead(1),
            ],
            ret(),
        )],
        var_debug_info: vec![var("x", 1), var("r", 2)],
    }
}

/// `fn h() -> i32 { let mut x = 1; let r = &mut x; *r = 7; x }`
fn h_body() -> Body {
    Body {
        local_decls: vec![decl(true, "i32"), decl(true, "i32"), ref_decl(true, "&mut i32")],
        arg_count: 0,
        basic_blocks: vec![block(
            vec![
                live(1),
                assign(place(1), RvalueKind::Use(cint(1))),
                live(2),
                assign(place(2), RvalueKind::Ref { mutable: true, place: place(1) }),
                assign(deref(2), RvalueKind::Use(cint(7))),
                assign(place(0), RvalueKind::Use(Operand::Copy(place(1)))),
                dead(2),
                dead(1),
            ],
            ret(),
        )],
        var_debug_info: vec![var("x", 1), var("r", 2)],
    }
}

/// `fn build() -> i32 { let p = Point { x: 3, y: 4 }; p.x }`
fn build_body() -> Body {
    Body {
        local_decls: vec![decl(true, "i32"), point_decl()],
        arg_count: 0,
        basic_blocks: vec![block(
            vec![
                live(1),
                assign(place(1), RvalueKind::Aggregate(vec![cint(3), cint(4)])),
                assign(place(0), RvalueKind::Use(Operand::Copy(field(1, 0)))),
                dead(1),
            ],
            ret(),
        )],
        var_debug_info: vec![var("p", 1)],
    }
}

/// `fn get_x(p: Point) -> i32 { p.x }`
fn get_x_body() -> Body {
    Body {
        local_decls: vec![decl(true, "i32"), point_decl()],
        arg_count: 1,
        basic_blocks: vec![block(vec![assign(place(0), RvalueKind::Use(Operand::Copy(field(1, 0))))], ret())],
        var_debug_info: vec![var("p", 1)],
    }
}

/// `fn set(p: &mut i32, v: i32) { *p = v; }`
fn set_body() -> Body {
    Body {
        local_decls: vec![decl(true, "()"), ref_decl(true, "&mut i32"), decl(false, "i32")],
        arg_count: 2,
        basic_blocks: vec![block(vec![assign(deref(1), RvalueKind::Use(Operand::Copy(place(2))))], ret())],
        var_debug_info: vec![var("p", 1), var("v", 2)],
    }
}

/// `fn caller() -> i32 { let mut x = 1; set(&mut x, 7); x }`
fn caller_body() -> Body {
    Body {
        local_decls: vec![decl(true, "i32"), decl(true, "i32"), decl(false, "()"), ref_decl(true, "&mut i32")],
        arg_count: 0,
        basic_blocks: vec![
            block(
                vec![
                    live(1),
                    assign(place(1), RvalueKind::Use(cint(1))),
                    live(3),
                    assign(place(3), RvalueKind::Ref { mutable: true, place: place(1) }),
                ],
                call(1, "set", vec![Operand::Move(place(3)), cint(7)], 2, 1),
            ),
            block(vec![dead(3), assign(place(0), RvalueKind::Use(Operand::Copy(place(1)))), dead(1)], ret()),
        ],
        var_debug_info: vec![var("x", 1)],
    }
}

/// `fn inner(y: i32) -> i32 { y * 2 }`
fn inner_body() -> Body {
    Body {
        local_decls: vec![decl(true, "i32"), decl(false, "i32")],
        arg_count: 1,
        basic_blocks: vec![block(
            vec![assign(place(0), RvalueKind::BinaryOp(BinOp::Mul, Operand::Copy(place(1)), cint(2)))],
            ret(),
        )],
        var_debug_info: vec![var("y", 1)],
    }
}

/// `fn outer(x: i32) -> i32 { inner(x) + 1 }`
fn outer_body() -> Body {
    Body {
        local_decls: vec![decl(true, "i32"), decl(false, "i32"), decl(false, "i32")],
        arg_count: 1,
        basic_blocks: vec![
            block(vec![live(2)], call(3, "inner", vec![Operand::Copy(place(1))], 2, 1)),
            block(
                vec![assign(place(0), RvalueKind::BinaryOp(BinOp::Add, Operand::Move(place(2)), cint(1))), dead(2)],
                ret(),
            ),
        ],
        var_debug_info: vec![var("x", 1)],
    }
}

/// `fn add(a: i32, b: i32) -> i32 { a + b }`
fn add_body() -> Body {
    Body {
        local_decls: vec![decl(true, "i32"), decl(false, "i32"), decl(false, "i32")],
        arg_count: 2,
        basic_blocks: vec![block(
            vec![assign(place(0), RvalueKind::BinaryOp(BinOp::Add, Operand::Copy(place(1)), Operand::Copy(place(2))))],
            ret(),
        )],
        var_debug_info: vec![var("a", 1), var("b", 2)],
    }
}

/// `fn ten() -> i32 { add(4, 6) }`
fn ten_body() -> Body {
    Body {
        local_decls: vec![decl(true, "i32")],
        arg_count: 0,
        basic_blocks: vec![block(vec![], call(5, "add", vec![cint(4), cint(6)], 0, 1)), block(vec![], ret())],
        var_debug_info: vec![],
    }
}

/// A counting loop: `fn count(n: i32) -> i32 { let mut i = 0; while i < n { i += 1; } i }`
fn loop_body() -> Body {
    Body {
        local_decls: vec![decl(true, "i32"), decl(false, "i32"), decl(true, "i32"), decl(false, "bool")],
        arg_count: 1,
        basic_blocks: vec![
            block(vec![assign(place(2), RvalueKind::Use(cint(0)))], goto(1)),
            block(
                vec![assign(
                    place(3),
                    RvalueKind::BinaryOp(BinOp::Lt, Operand::Copy(place(2)), Operand::Copy(place(1))),
                )],
                switch(Operand::Move(place(3)), "move _3", true, vec![(0, 3)], 2),
            ),
            block(
                vec![assign(place(2), RvalueKind::BinaryOp(BinOp::Add, Operand::Copy(place(2)), cint(1)))],
                goto(1),
            ),
            block(vec![assign(place(0), RvalueKind::Use(Operand::Copy(place(2))))], ret()),
        ],
        var_debug_info: vec![var("n", 1), var("i", 2)],
    }
}

fn summary_text(body: &Body) -> String {
    let (fs, _) = mirlens::summary::summarize_fn(body, &Vec::new());
    fs.to_text()
}

fn crate_summary(funcs: &Vec<FnEntry>, id: u64) -> String {
    let sums = mirlens::summary::summarize_crate(funcs);
    for (d, fs) in &sums {
        if *d == id {
            return fs.to_text();
        }
    }
    panic!("no summary for {id}");
}

#[test]
fn pick_merges_both_arms_into_a_conditional() {
    assert_eq!(summary_text(&pick_body()), "returns (if c { 1 } else { 2 })");
}

#[test]
fn step_merges_arms_over_an_input() {
    assert_eq!(summary_text(&step_body()), "returns (if c { (x + 1) } else { (x - 1) })");
}

#[test]
fn read_through_reference_gives_the_referent() {
    assert_eq!(summary_text(&g_body()), "returns 5");
}

#[test]
fn write_through_reference_is_read_back() {
    assert_eq!(summary_text(&h_body()), "returns 7");
}

#[test]
fn field_of_built_struct_is_the_element() {
    assert_eq!(summary_text(&build_body()), "returns 3");
}

#[test]
fn field_of_argument_is_named() {
    assert_eq!(summary_text(&get_x_body()), "returns p.x");
}

#[test]
fn write_through_reference_parameter_is_summarized() {
    assert_eq!(summary_text(&set_body()), "writes *p = v; returns ?");
}

#[test]
fn callee_write_reaches_caller_local() {
    let funcs = vec![entry(1, "set", set_body()), entry(2, "caller", caller_body())];
    assert_eq!(crate_summary(&funcs, 2), "returns 7");
}

#[test]
fn callee_result_is_substituted() {
    let funcs = vec![entry(4, "outer", outer_body()), entry(3, "inner", inner_body())];
    assert_eq!(crate_summary(&funcs, 4), "returns ((x * 2) + 1)");
    assert_eq!(crate_summary(&funcs, 3), "returns (y * 2)");
}

#[test]
fn substituted_constants_fold() {
    let funcs = vec![entry(6, "ten", ten_body()), entry(5, "add", add_body())];
    assert_eq!(crate_summary(&funcs, 6), "returns 10");
}

#[test]
fn call_outside_the_crate_stays_symbolic() {
    assert_eq!(summary_text(&outer_body()), "returns (inner(x) + 1)");
}

#[test]
fn loop_is_run_once_and_noted() {
    let text = summary_text(&loop_body());
    assert!(text.ends_with("  (approximate: loops not modelled)"), "{text}");
}

#[test]
fn summaries_list_callees_first() {
    let funcs = vec![entry(4, "outer", outer_body()), entry(3, "inner", inner_body())];
    let sums = mirlens::summary::summarize_crate(&funcs);
    let ids: Vec<u64> = sums.iter().map(|s| s.0).collect();
    assert_eq!(ids, vec![3, 4]);
}

#[test]
fn local_values_print_each_local() {
    let funcs = vec![entry(1, "h", h_body())];
    let vals = mirlens::summary::local_values(&funcs);
    assert_eq!(vals.len(), 1);
    assert_eq!(vals[0].0, 1);
    assert_eq!(vals[0].1, vec!["7".to_string(), "7".to_string(), "&x".to_string()]);
}

#[test]
fn call_graph_dot_has_one_box_per_function_and_one_edge_per_call() {
    let funcs = vec![entry(4, "outer", outer_body()), entry(3, "inner", inner_body())];
    let sums = mirlens::summary::summarize_crate(&funcs);
    let lines = mirlens::summary::emit_dot(&funcs, &sums);
    assert_eq!(
        lines,
        vec![
            "digraph calls {".to_string(),
            "  node [shape=box, fontname=monospace];".to_string(),
            "  n0 [label=\"outer(x)\\nreturns ((x * 2) + 1)\"];".to_string(),
            "  n1 [label=\"inner(y)\\nreturns (y * 2)\"];".to_string(),
            "  n0 -> n1;".to_string(),
            "}".to_string(),
        ]
    );
}

#[test]
fn topo_order_lists_every_reachable_block_once() {
    let order = mirlens::cfg::topo_order(&pick_body()).unwrap();
    assert_eq!(order, vec![0, 1, 2, 3]);
    assert!(!mirlens::cfg::has_loop(&pick_body()));
}

#[test]
fn loop_has_no_topo_order() {
    assert!(mirlens::cfg::topo_order(&loop_body()).is_none());
    assert!(mirlens::cfg::has_loop(&loop_body()));
}

#[test]
fn predecessors_are_listed_per_edge() {
    let preds = mirlens::mir::predecessors(&pick_body());
    assert_eq!(preds, vec![vec![], vec![0], vec![0], vec![1, 2]]);
}

#[test]
fn call_order_puts_callees_before_callers() {
    let funcs = vec![entry(2, "caller", caller_body()), entry(1, "set", set_body())];
    let graph = mirlens::cfg::call_graph(&funcs);
    assert_eq!(graph, vec![vec![1], vec![]]);
    assert_eq!(mirlens::cfg::call_order(&funcs, &graph), vec![1, 2]);
}

#[test]
fn local_names_use_debug_info_then_underscores() {
    let names = mirlens::cfg::local_names(&g_body());
    assert_eq!(names, vec!["_0".to_string(), "x".to_string(), "r".to_string()]);
}

#[test]
fn listing_shows_declarations_and_blocks() {
    let lines = mirlens::walk::body_lines(&g_body());
    assert_eq!(lines[0], "let mut _0: i32");
    assert_eq!(lines[1], "let _1: i32");
    assert_eq!(lines[2], "let _2: &i32");
    assert_eq!(lines[3], "bb0:");
    assert_eq!(lines[4], "  StorageLive(_1)");
    assert_eq!(lines[5], "  _1 =");
    assert_eq!(lines[6], "    const 5_i32");
    assert_eq!(lines[9], "    &_1");
    assert_eq!(lines[lines.len() - 1], "  return");
}

#[test]
fn function_listing_is_indented_under_its_path() {
    let f = entry(9, "demo::g", g_body());
    let lines = mirlens::walk::body(&f);
    assert_eq!(lines[0], "");
    assert_eq!(lines[1], "fn demo::g");
    assert_eq!(lines[2], "  let mut _0: i32");
}

#[test]
fn heap_report_of_write_through_reference() {
    let funcs = vec![entry(1, "h", h_body())];
    let lines = mirlens::report::analyze_crate(&funcs);
    assert_eq!(lines[0], "");
    assert_eq!(lines[1], "fn h");
    assert!(lines.contains(&"  summary: returns 7".to_string()), "{lines:?}");
    assert!(lines.contains(&"  UB: none".to_string()), "{lines:?}");
}

#[test]
fn heap_report_of_branches_lists_each_path() {
    let funcs = vec![entry(1, "pick", pick_body())];
    let lines = mirlens::report::analyze_crate(&funcs);
    assert!(lines.contains(&"  path [!c]:".to_string()), "{lines:?}");
    assert!(lines.contains(&"  path [c]:".to_string()), "{lines:?}");
    assert_eq!(lines[lines.len() - 1], "  summary: returns (if c { 1 } else { 2 })");
}

#[test]
fn heap_reports_of_single_path_samples_give_their_documented_summaries() {
    for (body, want) in [(build_body(), "3"), (get_x_body(), "p.x"), (g_body(), "5"), (h_body(), "7")] {
        let lines = mirlens::report::analyze_crate(&vec![entry(1, "f", body)]);
        let line = format!("  summary: returns {want}");
        assert!(lines.contains(&line), "{lines:?}");
    }
}

#[test]
fn heap_report_of_select_merges_back_into_the_branch() {
    let funcs = vec![entry(1, "step", step_body())];
    let lines = mirlens::report::analyze_crate(&funcs);
    assert_eq!(lines[lines.len() - 1], "  summary: returns (if c { (x + 1) } else { (x - 1) })");
}

#[test]
fn heap_report_shows_source_and_mir_before_the_heap() {
    let mut f = entry(1, "h", h_body());
    f.source = vec!["pub fn h() -> i32 {".to_string(), "    let mut x = 1; let r = &mut x; *r = 7; x".to_string(), "}".to_string()];
    let lines = mirlens::report::analyze_crate(&vec![f]);
    assert_eq!(lines[1], "fn h");
    assert_eq!(lines[2], "  source:");
    assert_eq!(lines[3], "    pub fn h() -> i32 {");
    assert_eq!(lines[4], "        let mut x = 1; let r = &mut x; *r = 7; x");
    assert_eq!(lines[5], "    }");
    assert_eq!(lines[6], "  mir:");
    assert_eq!(lines[7], "    let mut _0: i32");
    let mir = mirlens::walk::body_lines(&h_body());
    for (k, l) in mir.iter().enumerate() {
        assert_eq!(lines[7 + k], format!("    {l}"));
    }
    assert_eq!(lines[7 + mir.len()], "  vars:");
}

#[test]
fn heap_dot_labels_a_branching_function_with_its_merged_result() {
    let funcs = vec![entry(1, "pick", pick_body())];
    let lines = mirlens::report::emit_dot(&funcs);
    assert!(
        lines.contains(&"    h0 [shape=box, style=bold, label=\"returns (if c { 1 } else { 2 })\"];".to_string()),
        "{lines:?}"
    );
}

#[test]
fn heap_dot_has_a_cluster_per_function() {
    let funcs = vec![entry(1, "g", g_body())];
    let lines = mirlens::report::emit_dot(&funcs);
    assert_eq!(lines[0], "digraph heap {");
    assert_eq!(lines[1], "  compound=true;");
    assert_eq!(lines[2], "  node [shape=box, fontname=monospace];");
    assert_eq!(lines[3], "  subgraph cluster_0 {");
    assert_eq!(lines[lines.len() - 1], "}");
}

fn raw_decl(ty: &str) -> LocalDecl {
    LocalDecl { mutable: false, is_ref: true, ref_mut: false, field_names: None, ty_text: ty.to_string() }
}

/// `fn dangle() -> i32 { let p: *const i32; { let x = 5; p = &raw const x; } unsafe { *p } }`
fn dangle_body() -> Body {
    Body {
        local_decls: vec![decl(true, "i32"), raw_decl("*const i32"), decl(false, "i32")],
        arg_count: 0,
        basic_blocks: vec![block(
            vec![
                live(1),
                live(2),
                assign(place(2), RvalueKind::Use(cint(5))),
                assign(place(1), RvalueKind::RawPtr { mutable: false, place: place(2) }),
                dead(2),
                assign(place(0), RvalueKind::Use(Operand::Copy(deref(1)))),
                dead(1),
            ],
            ret(),
        )],
        var_debug_info: vec![var("p", 1), var("x", 2)],
    }
}

#[test]
fn pointer_outliving_its_pointee_is_undefined_behaviour() {
    let funcs = vec![entry(1, "dangle", dangle_body())];
    let lines = mirlens::report::analyze_crate(&funcs);
    assert_eq!(
        lines,
        vec![
            "".to_string(),
            "fn dangle".to_string(),
            "  source:".to_string(),
            "  mir:".to_string(),
            "    let mut _0: i32".to_string(),
            "    let _1: *const i32".to_string(),
            "    let _2: i32".to_string(),
            "    bb0:".to_string(),
            "      StorageLive(_1)".to_string(),
            "      StorageLive(_2)".to_string(),
            "      _2 =".to_string(),
            "        const 5_i32".to_string(),
            "      _1 =".to_string(),
            "        rvalue".to_string(),
            "      StorageDead(_2)".to_string(),
            "      _0 =".to_string(),
            "        copy (*_1)".to_string(),
            "      StorageDead(_1)".to_string(),
            "      return".to_string(),
            "  vars:".to_string(),
            "    x      Owned @a0  [lt2 2..5]".to_string(),
            "  heap:".to_string(),
            "    a0 = 5  (LocOwned)".to_string(),
            "  summary: returns 5".to_string(),
            "  UB: p borrows x for longer than it lives".to_string(),
        ]
    );
}

#[test]
fn summaries_write_only_through_reference_parameters() {
    let (fs, _) = mirlens::summary::summarize_fn(&add_body(), &Vec::new());
    assert!(fs.writes.is_empty());
    let (fs, _) = mirlens::summary::summarize_fn(&set_body(), &Vec::new());
    assert_eq!(fs.writes.len(), 1);
    assert_eq!(fs.writes[0].0, 0);
}

#[test]
fn lifetimes_span_first_use_to_storage_dead() {
    let lts = mirlens::heap::lifetimes(&dangle_body());
    assert_eq!((lts[2].start, lts[2].end), (2, 5));
    assert_eq!((lts[1].start, lts[1].end), (3, 6));
    assert_eq!((lts[0].start, lts[0].end), (5, 8));
}

#[test]
fn well_formed_bodies_are_recognized() {
    assert!(mirlens::mir::body_wf(&pick_body()));
    assert!(mirlens::mir::body_wf(&caller_body()));
    let mut bad = pick_body();
    bad.basic_blocks[1].statements.push(live(9));
    assert!(!mirlens::mir::body_wf(&bad));
    let mut bad = pick_body();
    bad.basic_blocks[0].terminator.successors.push(7);
    assert!(!mirlens::mir::body_wf(&bad));
    let mut bad = pick_body();
    bad.arg_count = 5;
    assert!(!mirlens::mir::body_wf(&bad));
}

#[test]
fn crate_ids_must_be_distinct() {
    let funcs = vec![entry(1, "g", g_body()), entry(2, "h", h_body())];
    assert!(mirlens::mir::funcs_ok(&funcs));
    assert!(mirlens::summary::is_crate_summarizable(&funcs));
    let funcs = vec![entry(1, "g", g_body()), entry(1, "h", h_body())];
    assert!(!mirlens::mir::funcs_ok(&funcs));
    assert!(!mirlens::summary::is_crate_summarizable(&funcs));
}

#[test]
fn entry_joined_by_several_edges_without_a_loop_is_not_summarizable() {
    let body = Body {
        local_decls: vec![decl(true, "()")],
        arg_count: 0,
        basic_blocks: vec![block(vec![], ret()), block(vec![], goto(0)), block(vec![], goto(0))],
        var_debug_info: vec![],
    };
    assert!(mirlens::mir::body_wf(&body));
    assert!(!mirlens::summary::is_crate_summarizable(&vec![entry(1, "f", body)]));
    assert!(mirlens::summary::is_crate_summarizable(&vec![entry(1, "f", loop_body())]));
}

#[test]
fn recombined_boolean_split_puts_the_true_arm_first() {
    let (paths, _) = mirlens::heap::analyze_paths(&pick_body(), &Vec::new());
    assert_eq!(paths.len(), 2);
    assert_eq!(mirlens::report::recombine(&paths, None), "(if c { 1 } else { 2 })");
    let unknown = vec!["?".to_string(), "?".to_string()];
    assert_eq!(mirlens::report::returns_line(&paths, Some(&unknown)), "(if c { 1 } else { 2 })");
}
