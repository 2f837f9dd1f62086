use ari::ast::{Expr, Label, Scope};
use ari::natural::{BigNat, Natural};
use ari::parser::{parse, Error, ErrorLabel};

fn small(v: u64) -> Natural {
    Natural::from(BigNat::from_limbs(vec![v]))
}

fn scope(exprs: Vec<Expr>) -> Scope {
    Scope::from_exprs(exprs)
}

#[test]
fn sexprs_sexpr() {
    assert_eq!(
        parse("(* :r 256 :g 256 :b 256)"),
        (
            Some(scope(vec![Expr::sexpr(
                vec![],
                0..24,
                scope(vec![
                    Expr::symbol(vec![], 1..2, "*"),
                    Expr::natural(vec![Label::new(3..5, "r")], 6..9, small(256)),
                    Expr::natural(vec![Label::new(10..12, "g")], 13..16, small(256)),
                    Expr::natural(vec![Label::new(17..19, "b")], 20..23, small(256)),
                ]),
            )])),
            vec![],
        )
    );
}

#[test]
fn sexprs_empty() {
    assert_eq!(
        parse("()"),
        (Some(scope(vec![Expr::sexpr(vec![], 0..2, scope(vec![]))])), vec![])
    );
}

#[test]
fn sexprs_empty_with_padding() {
    assert_eq!(
        parse("( )"),
        (Some(scope(vec![Expr::sexpr(vec![], 0..3, scope(vec![]))])), vec![])
    );
}

#[test]
fn sexprs_cant_have_left_paren() {
    assert_eq!(
        parse("("),
        (
            Some(scope(vec![Expr::sexpr(vec![], 0..1, scope(vec![]))])),
            vec![Error::unexpected_end(1)
                .with_label(ErrorLabel::SExpr)
                .with_label(ErrorLabel::Reference)],
        )
    );
}

#[test]
fn sexprs_cant_have_right_paren() {
    assert_eq!(parse(")"), (Some(scope(vec![])), vec![Error::trailing_garbage(0..1)]));
}

#[test]
fn nested_scopes() {
    assert_eq!(
        parse("(a (b) c)"),
        (
            Some(scope(vec![Expr::sexpr(
                vec![],
                0..9,
                scope(vec![
                    Expr::symbol(vec![], 1..2, "a"),
                    Expr::sexpr(vec![], 3..6, scope(vec![Expr::symbol(vec![], 4..5, "b")])),
                    Expr::symbol(vec![], 7..8, "c"),
                ]),
            )])),
            vec![],
        )
    );
}

#[test]
fn unclosed_before_other_char() {
    assert_eq!(
        parse("(a(b))"),
        (
            Some(scope(vec![Expr::sexpr(
                vec![],
                0..2,
                scope(vec![Expr::symbol(vec![], 1..2, "a")]),
            )])),
            vec![
                Error::unexpected_char(2..3, '(')
                    .with_label(ErrorLabel::SExpr)
                    .with_label(ErrorLabel::Reference),
                Error::trailing_garbage(2..6),
            ],
        )
    );
}
