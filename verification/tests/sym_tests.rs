use mirlens::mir::{BinOp, UnOp};
use mirlens::summary::{branch_value, Guard};
use mirlens::sym::{fold_sym, index_into, mk_bin, mk_bin_sym, mk_un, mk_un_sym, simplify, substitute, Sym};

fn input(n: &str) -> Sym {
    Sym::Input(n.to_string())
}

fn bin(op: &str, l: Sym, r: Sym) -> Sym {
    Sym::Bin(op.to_string(), Box::new(l), Box::new(r))
}

#[test]
fn fold_gives_exact_arithmetic() {
    assert_eq!(fold_sym("+", 2, 3), Some(5));
    assert_eq!(fold_sym("-", 2, 3), Some(-1));
    assert_eq!(fold_sym("*", -4, 6), Some(-24));
    assert_eq!(fold_sym("/", -7, 2), Some(-3));
    assert_eq!(fold_sym("%", -7, 2), Some(-1));
    assert_eq!(fold_sym("^", 6, 3), Some(5));
    assert_eq!(fold_sym("&", 6, 3), Some(2));
    assert_eq!(fold_sym("|", 6, 3), Some(7));
}

#[test]
fn fold_refuses_what_would_overflow_or_divide_by_zero() {
    assert_eq!(fold_sym("+", i128::MAX, 1), None);
    assert_eq!(fold_sym("*", i128::MIN, -1), None);
    assert_eq!(fold_sym("/", 1, 0), None);
    assert_eq!(fold_sym("/", i128::MIN, -1), None);
    assert_eq!(fold_sym("%", 5, 0), None);
}

#[test]
fn fold_shifts_only_by_less_than_the_width() {
    assert_eq!(fold_sym("<<", 1, 4), Some(16));
    assert_eq!(fold_sym("<<", 1, 127), Some(i128::MIN));
    assert_eq!(fold_sym("<<", 1, 128), None);
    assert_eq!(fold_sym(">>", -8, 1), Some(-4));
    assert_eq!(fold_sym(">>", 8, -1), None);
}

#[test]
fn fold_compares_to_one_or_zero() {
    assert_eq!(fold_sym("==", 3, 3), Some(1));
    assert_eq!(fold_sym("!=", 3, 3), Some(0));
    assert_eq!(fold_sym("<", 2, 3), Some(1));
    assert_eq!(fold_sym("<=", 4, 3), Some(0));
    assert_eq!(fold_sym(">", 4, 3), Some(1));
    assert_eq!(fold_sym(">=", 3, 4), Some(0));
}

#[test]
fn fold_knows_no_other_operator() {
    assert_eq!(fold_sym("Cmp", 1, 2), None);
    assert_eq!(fold_sym("Offset", 1, 2), None);
}

#[test]
fn binary_of_constants_folds_and_of_inputs_stays() {
    assert_eq!(mk_bin(&BinOp::Add, Sym::Const(2), Sym::Const(3)).to_text(), "5");
    assert_eq!(mk_bin(&BinOp::AddWithOverflow, input("x"), Sym::Const(1)).to_text(), "(x + 1)");
    assert_eq!(mk_bin(&BinOp::Cmp, Sym::Const(1), Sym::Const(2)).to_text(), "(1 Cmp 2)");
    assert_eq!(mk_bin_sym("/".to_string(), Sym::Const(1), Sym::Const(0)).to_text(), "(1 / 0)");
}

#[test]
fn negation_of_constants_folds_unless_it_overflows() {
    assert_eq!(mk_un(&UnOp::Neg, Sym::Const(5)).to_text(), "-5");
    assert_eq!(mk_un(&UnOp::Neg, Sym::Const(i128::MIN)).to_text(), "--170141183460469231731687303715884105728");
    assert_eq!(mk_un(&UnOp::Not, Sym::Const(1)).to_text(), "!1");
    assert_eq!(mk_un_sym("-".to_string(), input("x")).to_text(), "-x");
}

#[test]
fn index_into_known_tuple_takes_the_element() {
    let t = Sym::Aggregate(vec![Sym::Const(10), Sym::Const(20)]);
    assert_eq!(index_into(t, Sym::Const(1)).to_text(), "20");
    let t = Sym::Aggregate(vec![Sym::Const(10), Sym::Const(20)]);
    assert_eq!(index_into(t, Sym::Const(2)).to_text(), "(10, 20)[2]");
    assert_eq!(index_into(input("a"), input("i")).to_text(), "a[i]");
    assert!(index_into(Sym::Unknown, Sym::Const(0)).same(&Sym::Unknown));
}

#[test]
fn text_of_every_form() {
    let c = Sym::Cond(Box::new(input("c")), Box::new(Sym::Const(1)), Box::new(Sym::Const(2)));
    assert_eq!(c.to_text(), "(if c { 1 } else { 2 })");
    let r = Sym::Ref { target: 3, name: "x".to_string() };
    assert_eq!(r.to_text(), "&x");
    let call = Sym::Call("f".to_string(), vec![input("a"), Sym::Const(2)]);
    assert_eq!(call.to_text(), "f(a, 2)");
    let f = Sym::Field(Box::new(input("p")), "x".to_string());
    assert_eq!(f.to_text(), "p.x");
    assert_eq!(Sym::Aggregate(vec![]).to_text(), "()");
    assert_eq!(Sym::Unknown.to_text(), "?");
}

#[test]
fn simplify_folds_bottom_up_and_resolves_conditions() {
    let s = bin("+", bin("*", Sym::Const(2), Sym::Const(3)), Sym::Const(4));
    assert_eq!(simplify(&s).to_text(), "10");
    let c = Sym::Cond(Box::new(bin("==", Sym::Const(1), Sym::Const(1))), Box::new(input("a")), Box::new(input("b")));
    assert_eq!(simplify(&c).to_text(), "a");
    let c = Sym::Cond(Box::new(Sym::Const(0)), Box::new(input("a")), Box::new(input("b")));
    assert_eq!(simplify(&c).to_text(), "b");
    let c = Sym::Cond(Box::new(input("k")), Box::new(bin("+", Sym::Const(1), Sym::Const(1))), Box::new(input("b")));
    assert_eq!(simplify(&c).to_text(), "(if k { 2 } else { b })");
}

#[test]
fn simplify_twice_is_simplify_once() {
    let s = Sym::Index(
        Box::new(Sym::Aggregate(vec![bin("-", Sym::Const(9), Sym::Const(4)), input("z")])),
        Box::new(bin("-", Sym::Const(1), Sym::Const(1))),
    );
    let once = simplify(&s);
    assert_eq!(once.to_text(), "5");
    assert!(simplify(&once).same(&once));
    let t = bin("+", input("x"), bin("*", Sym::Const(3), Sym::Const(3)));
    let once = simplify(&t);
    assert_eq!(once.to_text(), "(x + 9)");
    assert!(simplify(&once).same(&once));
}

#[test]
fn substitute_puts_arguments_for_parameters() {
    let params = vec!["a".to_string(), "b".to_string()];
    let actuals = vec![Sym::Const(4), input("y")];
    let s = bin("+", input("a"), bin("*", input("b"), input("c")));
    assert_eq!(substitute(&s, &params, &actuals).to_text(), "(4 + (y * c))");
    let r = Sym::Ref { target: 1, name: "q".to_string() };
    assert!(substitute(&r, &params, &actuals).same(&Sym::Unknown));
}

#[test]
fn substitute_pairs_only_as_many_as_both_lists_hold() {
    let params = vec!["a".to_string(), "b".to_string()];
    let actuals = vec![Sym::Const(4)];
    assert_eq!(substitute(&input("b"), &params, &actuals).to_text(), "b");
    let params = vec!["a".to_string(), "a".to_string()];
    let actuals = vec![Sym::Const(1), Sym::Const(2)];
    assert_eq!(substitute(&input("a"), &params, &actuals).to_text(), "2");
}

#[test]
fn branch_value_builds_the_conditional_either_way_round() {
    let d = input("c");
    let eq0 = Some(Guard::Eq(d.copy(), 0));
    let oth = Some(Guard::Otherwise(d.copy()));
    let a = branch_value(&Sym::Const(2), &eq0, &Sym::Const(1), &oth).unwrap();
    let b = branch_value(&Sym::Const(1), &oth, &Sym::Const(2), &eq0).unwrap();
    assert_eq!(a.to_text(), "(if c { 1 } else { 2 })");
    assert!(a.same(&b));
    let eq3 = Some(Guard::Eq(d.copy(), 3));
    let v = branch_value(&Sym::Const(7), &eq3, &Sym::Const(8), &oth).unwrap();
    assert_eq!(v.to_text(), "(if (c == 3) { 7 } else { 8 })");
}

#[test]
fn branch_value_needs_an_arm_and_its_otherwise_on_one_value() {
    let eq = Some(Guard::Eq(input("c"), 0));
    let other = Some(Guard::Otherwise(input("d")));
    assert!(branch_value(&Sym::Const(1), &eq, &Sym::Const(2), &other).is_none());
    assert!(branch_value(&Sym::Const(1), &None, &Sym::Const(2), &other).is_none());
    let eq2 = Some(Guard::Eq(input("c"), 1));
    assert!(branch_value(&Sym::Const(1), &eq, &Sym::Const(2), &eq2).is_none());
}

#[test]
fn simplify_leaves_no_constant_operator_nested_under_an_input() {
    let s = bin("*", bin("+", Sym::Const(1), Sym::Const(2)), input("x"));
    assert_eq!(simplify(&s).to_text(), "(3 * x)");
    let agg = Sym::Aggregate(vec![Sym::Const(7), bin("-", Sym::Const(9), Sym::Const(4))]);
    let idx = Sym::Index(Box::new(agg), Box::new(bin("+", Sym::Const(0), Sym::Const(1))));
    assert_eq!(simplify(&idx).to_text(), "5");
}
