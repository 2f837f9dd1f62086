use ari::ast::{Expr, Scope};
use ari::parser::{parse, Error, ErrorLabel};

fn scope(exprs: Vec<Expr>) -> Scope {
    Scope::from_exprs(exprs)
}

fn check_names(names: &[&str]) {
    for name in names {
        let n = name.chars().count();
        assert_eq!(
            parse(name),
            (Some(scope(vec![Expr::symbol(vec![], 0..n, name)])), vec![])
        );
    }
}

#[test]
fn symbols_symbol() {
    assert_eq!(parse("symbol"), (Some(scope(vec![Expr::symbol(vec![], 0..6, "symbol")])), vec![]));
}

#[test]
fn supports_builtin_sexpr_names() {
    check_names(&["=", "+", "-", "*", "/", "^", "log", "root", ".", "|", "~", "&", "!", ".."]);
}

#[test]
fn supports_builtin_fn_names() {
    check_names(&["=", "+", "-", "*", "/", "^", "log", "root", ".", "|", "~", "&", "!", ".."]);
}

#[test]
fn symbols_supports_almost_all_of_unicode_with_exceptions() {
    assert_eq!(parse("🙃"), (Some(scope(vec![Expr::symbol(vec![], 0..1, "🙃")])), vec![]));
}

#[test]
fn symbols_cant_have_whitespace() {
    assert_eq!(parse("symbol "), (Some(scope(vec![Expr::symbol(vec![], 0..6, "symbol")])), vec![]));
}

#[test]
fn symbols_cant_have_colon() {
    assert_eq!(
        parse("symbol:"),
        (
            Some(scope(vec![])),
            vec![Error::unexpected_end(7)
                .with_label(ErrorLabel::Symbol)
                .with_label(ErrorLabel::Label)
                .with_label(ErrorLabel::Path)
                .with_label(ErrorLabel::Reference)],
        )
    );
}

#[test]
fn symbols_cant_have_left_paren() {
    assert_eq!(
        parse("symbol("),
        (
            Some(scope(vec![Expr::symbol(vec![], 0..6, "symbol")])),
            vec![Error::trailing_garbage(6..7)],
        )
    );
}

#[test]
fn symbols_cant_have_right_paren() {
    assert_eq!(
        parse("symbol)"),
        (
            Some(scope(vec![Expr::symbol(vec![], 0..6, "symbol")])),
            vec![Error::trailing_garbage(6..7)],
        )
    );
}

#[test]
fn unicode_whitespace_separates() {
    let (ast, errors) = parse("a\u{3000}b\u{a0}c");
    assert!(errors.is_empty());
    assert_eq!(
        ast,
        Some(scope(vec![
            Expr::symbol(vec![], 0..1, "a"),
            Expr::symbol(vec![], 2..3, "b"),
            Expr::symbol(vec![], 4..5, "c"),
        ]))
    );
}

#[test]
fn digits_then_letters() {
    let (ast, errors) = parse("x1 -5");
    assert!(errors.is_empty());
    assert_eq!(
        ast,
        Some(scope(vec![Expr::symbol(vec![], 0..2, "x1"), Expr::symbol(vec![], 3..5, "-5")]))
    );
}
