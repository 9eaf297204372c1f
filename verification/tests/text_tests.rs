use mirlens::text::{escape, fmt_i128, fmt_u128, fmt_usize, join};

#[test]
fn numbers_print_in_decimal() {
    assert_eq!(fmt_u128(0), "0");
    assert_eq!(fmt_u128(1234567890), "1234567890");
    assert_eq!(fmt_usize(42), "42");
    assert_eq!(fmt_i128(-17), "-17");
    assert_eq!(fmt_i128(i128::MIN), "-170141183460469231731687303715884105728");
    assert_eq!(fmt_i128(i128::MAX), "170141183460469231731687303715884105727");
}

#[test]
fn join_puts_the_separator_between_neighbours() {
    let parts = vec!["a".to_string(), "b".to_string(), "c".to_string()];
    assert_eq!(join(&parts, ", "), "a, b, c");
    assert_eq!(join(&Vec::new(), ", "), "");
    assert_eq!(join(&vec!["x".to_string()], " && "), "x");
}

#[test]
fn escape_marks_backslashes_and_quotes() {
    assert_eq!(escape("plain"), "plain");
    assert_eq!(escape("a\"b"), "a\\\"b");
    assert_eq!(escape("c\\d"), "c\\\\d");
    assert_eq!(escape("é\"ü"), "é\\\"ü");
}
