use ari::ast::{Expr, Label, Scope};
use ari::natural::{BigNat, Natural};
use ari::parser::{parse, Error, ErrorLabel};

fn small(v: u64) -> Natural {
    Natural::from(BigNat::from_limbs(vec![v]))
}

fn scope(exprs: Vec<Expr>) -> Scope {
    Scope::from_exprs(exprs)
}

fn check_symbol_path() {
    assert_eq!(
        parse("symbol:path"),
        (
            Some(scope(vec![Expr::path(
                vec![],
                0..11,
                vec![Label::new(0..6, "symbol"), Label::new(6..11, "path")],
            )])),
            vec![],
        )
    );
}

fn check_symbol_path_chained() {
    assert_eq!(
        parse("symbol:x:y:z"),
        (
            Some(scope(vec![Expr::path(
                vec![],
                0..12,
                vec![
                    Label::new(0..6, "symbol"),
                    Label::new(6..8, "x"),
                    Label::new(8..10, "y"),
                    Label::new(10..12, "z"),
                ],
            )])),
            vec![],
        )
    );
}

fn check_sexpr_path() {
    assert_eq!(
        parse("(* :r 256 :g 256 :b 256):r"),
        (Some(scope(vec![Expr::natural(vec![], 0..26, small(256))])), vec![])
    );
}

fn check_incomplete() {
    assert_eq!(
        parse("symbol:"),
        (
            Some(scope(vec![])),
            vec![Error::unexpected_end(7)
                .with_label(ErrorLabel::Symbol)
                .with_label(ErrorLabel::Label)
                .with_label(ErrorLabel::Path)
                .with_label(ErrorLabel::Reference)],
        )
    );
}

fn check_unchained() {
    assert_eq!(
        parse("symbol:x:y :z"),
        (
            Some(scope(vec![Expr::path(
                vec![],
                0..10,
                vec![Label::new(0..6, "symbol"), Label::new(6..8, "x"), Label::new(8..10, "y")],
            )])),
            vec![Error::unexpected_end(13).with_label(ErrorLabel::LabelledExpr)],
        )
    );
}

fn check_paren(text: &str, c: char) {
    assert_eq!(
        parse(text),
        (
            Some(scope(vec![])),
            vec![
                Error::unexpected_char(7..8, c)
                    .with_label(ErrorLabel::Symbol)
                    .with_label(ErrorLabel::Label)
                    .with_label(ErrorLabel::Path)
                    .with_label(ErrorLabel::Reference),
                Error::trailing_garbage(7..8),
            ],
        )
    );
}

fn check_invalid(text: &str, span: std::ops::Range<usize>) {
    assert_eq!(
        parse(text),
        (
            Some(scope(vec![])),
            vec![Error::invalid_path(span).with_label(ErrorLabel::Reference)],
        )
    );
}

#[test]
fn paths_applied_to_symbol() {
    check_symbol_path();
}

#[test]
fn apply_path_to_symbol() {
    check_symbol_path();
}

#[test]
fn paths_applied_to_symbol_chained() {
    check_symbol_path_chained();
}

#[test]
fn apply_deep_path_to_symbol() {
    check_symbol_path_chained();
}

#[test]
fn paths_applied_to_sexpr() {
    check_sexpr_path();
}

#[test]
fn apply_path_to_sexpr() {
    check_sexpr_path();
}

#[test]
fn paths_must_be_complete() {
    check_incomplete();
}

#[test]
fn path_must_be_complete() {
    check_incomplete();
}

#[test]
fn paths_multiple_must_be_chained() {
    check_unchained();
}

#[test]
fn deep_path_must_be_chained() {
    check_unchained();
}

#[test]
fn paths_cant_have_left_paren() {
    check_paren("symbol:(", '(');
}

#[test]
fn path_cant_have_left_paren() {
    check_paren("symbol:(", '(');
}

#[test]
fn paths_cant_have_right_paren() {
    check_paren("symbol:)", ')');
}

#[test]
fn path_cant_have_right_paren() {
    check_paren("symbol:)", ')');
}

#[test]
fn paths_cant_apply_to_natural() {
    check_invalid("256:x", 3..5);
}

#[test]
fn cant_apply_path_to_natural() {
    check_invalid("256:x", 3..5);
}

#[test]
fn paths_cant_apply_to_sexpr_natural() {
    check_invalid("(* :x 256):x:y:b", 12..16);
}

#[test]
fn cant_apply_path_to_natural_in_sexpr() {
    check_invalid("(* :x 256):x:y:b", 12..16);
}

#[test]
fn paths_cant_apply_to_sexpr_missing_path_label() {
    check_invalid("(* :x (* :y (* :z 256))):x:y:b", 28..30);
}

#[test]
fn cant_apply_path_to_missing_path_label_in_sexpr() {
    check_invalid("(* :x (* :y (* :z 256))):x:y:b", 28..30);
}

#[test]
fn path_descends_into_symbol_path() {
    assert_eq!(
        parse("(* :k x:y):k:z"),
        (
            Some(scope(vec![Expr::path(
                vec![],
                0..14,
                vec![Label::new(6..7, "x"), Label::new(7..9, "y"), Label::new(12..14, "z")],
            )])),
            vec![],
        )
    );
}

#[test]
fn path_result_keeps_outer_labels() {
    assert_eq!(
        parse(":out (* :a (* :b 7)):a:b"),
        (
            Some(scope(vec![Expr::natural(
                vec![Label::new(0..4, "out")],
                5..24,
                small(7),
            )])),
            vec![],
        )
    );
}

#[test]
fn with_path_on_expr() {
    let inner = scope(vec![Expr::natural(vec![Label::new(0..2, "a")], 3..4, small(1))]);
    let e = Expr::sexpr(vec![], 0..5, inner);
    assert_eq!(
        e.with_path(vec![Label::new(5..7, "a")]),
        Ok(Expr::natural(vec![], 0..7, small(1)))
    );
    let e = Expr::natural(vec![], 0..1, small(1));
    assert_eq!(
        e.with_path(vec![Label::new(1..3, "a"), Label::new(3..5, "b")]),
        Err(1..5)
    );
    let e = Expr::symbol(vec![], 0..1, "s");
    assert_eq!(e.with_path(vec![]), Ok(Expr::symbol(vec![], 0..1, "s")));
}

#[test]
fn path_span_covers_all_labels() {
    assert_eq!(
        ari::ast::path_span(&vec![Label::new(3..5, "a"), Label::new(5..9, "bcd")]),
        3..9
    );
}
