use texpand::sexp::{never_closes_unopened, pretty_print_sexp};

#[test]
fn sexp_nested_tree_is_indented() {
    let s = "(translation_unit (preproc_def name: (identifier) value: (preproc_arg)))";
    assert_eq!(
        pretty_print_sexp(s),
        "(translation_unit\n  (preproc_def\n    name:\n    (identifier)\n    value:\n    (preproc_arg)))"
    );
}

#[test]
fn sexp_indentation_follows_depth() {
    assert_eq!(pretty_print_sexp("(a (b c) d)"), "(a\n  (b\n    c)\n  d)");
}

#[test]
fn sexp_without_spaces_is_unchanged() {
    assert_eq!(pretty_print_sexp("(leaf)"), "(leaf)");
    assert_eq!(pretty_print_sexp(""), "");
}

#[test]
fn sexp_formatting_only_changes_whitespace() {
    let s = "(a (b (c d) e) f)";
    let out = pretty_print_sexp(s);
    let strip = |t: &str| t.chars().filter(|c| *c != ' ' && *c != '\n').collect::<String>();
    assert_eq!(strip(&out), strip(s));
}

#[test]
fn sexp_balance_check() {
    assert!(never_closes_unopened("(a (b) c)"));
    assert!(never_closes_unopened("(("));
    assert!(never_closes_unopened(""));
    assert!(!never_closes_unopened("())("));
    assert!(!never_closes_unopened(")"));
}
