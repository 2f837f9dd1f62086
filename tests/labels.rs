use ari::ast::{Expr, Label, Scope, ScopeError};
use ari::natural::{BigNat, Natural};
use ari::parser::{parse, Error, ErrorLabel};

fn small(v: u64) -> Natural {
    Natural::from(BigNat::from_limbs(vec![v]))
}

fn scope(exprs: Vec<Expr>) -> Scope {
    Scope::from_exprs(exprs)
}

#[test]
fn labels_single() {
    assert_eq!(
        parse(":label 256"),
        (
            Some(scope(vec![Expr::natural(vec![Label::new(0..6, "label")], 7..10, small(256))])),
            vec![],
        )
    );
}

#[test]
fn labels_multiple() {
    assert_eq!(
        parse(":label1 :label2 256"),
        (
            Some(scope(vec![Expr::natural(
                vec![Label::new(0..7, "label1"), Label::new(8..15, "label2")],
                16..19,
                small(256),
            )])),
            vec![],
        )
    );
}

#[test]
fn labels_multiple_chained() {
    assert_eq!(
        parse(":x:y:z 256"),
        (
            Some(scope(vec![Expr::natural(
                vec![Label::new(0..2, "x"), Label::new(2..4, "y"), Label::new(4..6, "z")],
                7..10,
                small(256),
            )])),
            vec![],
        )
    );
}

#[test]
fn labels_names_cant_have_colon() {
    assert_eq!(
        parse(":: 256"),
        (
            Some(scope(vec![Expr::natural(vec![], 3..6, small(256))])),
            vec![
                Error::unexpected_char(1..2, ':')
                    .with_label(ErrorLabel::Symbol)
                    .with_label(ErrorLabel::Label)
                    .with_label(ErrorLabel::LabelledExpr),
                Error::unexpected_char(2..3, ' ')
                    .with_label(ErrorLabel::Symbol)
                    .with_label(ErrorLabel::Label)
                    .with_label(ErrorLabel::LabelledExpr),
            ],
        )
    );
}

#[test]
fn labels_names_cant_have_left_paren() {
    assert_eq!(
        parse(":( 256"),
        (
            Some(scope(vec![Expr::sexpr(
                vec![],
                1..6,
                scope(vec![Expr::natural(vec![], 3..6, small(256))]),
            )])),
            vec![
                Error::unexpected_char(1..2, '(')
                    .with_label(ErrorLabel::Symbol)
                    .with_label(ErrorLabel::Label)
                    .with_label(ErrorLabel::LabelledExpr),
                Error::unexpected_end(6)
                    .with_label(ErrorLabel::SExpr)
                    .with_label(ErrorLabel::Reference)
                    .with_label(ErrorLabel::LabelledExpr),
            ],
        )
    );
}

#[test]
fn labels_names_cant_have_right_paren() {
    assert_eq!(
        parse(":) 256"),
        (
            Some(scope(vec![])),
            vec![
                Error::unexpected_char(1..2, ')')
                    .with_label(ErrorLabel::Symbol)
                    .with_label(ErrorLabel::Label)
                    .with_label(ErrorLabel::LabelledExpr),
                Error::trailing_garbage(1..6),
            ],
        )
    );
}

#[test]
fn labels_must_have_name() {
    assert_eq!(
        parse(": "),
        (
            Some(scope(vec![])),
            vec![Error::unexpected_char(1..2, ' ')
                .with_label(ErrorLabel::Symbol)
                .with_label(ErrorLabel::Label)
                .with_label(ErrorLabel::LabelledExpr)],
        )
    );
}

#[test]
fn labels_must_have_name_in_sexpr() {
    assert_eq!(
        parse("(: )"),
        (
            Some(scope(vec![Expr::sexpr(vec![], 0..4, scope(vec![]))])),
            vec![Error::unexpected_char(2..3, ' ')
                .with_label(ErrorLabel::Symbol)
                .with_label(ErrorLabel::Label)
                .with_label(ErrorLabel::LabelledExpr)
                .with_label(ErrorLabel::SExpr)
                .with_label(ErrorLabel::Reference)],
        )
    );
}

#[test]
fn labels_must_have_associated_expr() {
    assert_eq!(
        parse(":label "),
        (
            Some(scope(vec![])),
            vec![Error::unexpected_end(7).with_label(ErrorLabel::LabelledExpr)]
        )
    );
}

#[test]
fn labels_must_have_associated_expr_in_sexpr() {
    assert_eq!(
        parse("(:label )"),
        (
            Some(scope(vec![Expr::sexpr(vec![], 0..9, scope(vec![]))])),
            vec![Error::unexpected_end(8)
                .with_label(ErrorLabel::LabelledExpr)
                .with_label(ErrorLabel::SExpr)
                .with_label(ErrorLabel::Reference)]
        )
    );
}

#[test]
fn labels_must_be_unique_same_expr() {
    let (err, ast) = match Scope::try_from_exprs(vec![Expr::natural(
        vec![Label::new(0..7, "label1"), Label::new(8..15, "label1")],
        16..19,
        small(256),
    )]) {
        Err(e) => e,
        Ok(_) => panic!("expected a duplicate label"),
    };
    let (start_span, end_span) = match err.as_slice() {
        [ScopeError::DuplicateLabel(start_span, end_span)] => {
            assert_eq!((start_span, end_span), (&(8..15), &(0..7)));
            (start_span.clone(), end_span.clone())
        }
        err => panic!("unexpected error: {:?}", err),
    };
    assert_eq!(
        parse(":label1 :label1 256"),
        (Some(ast), vec![Error::duplicate_label(start_span, end_span)])
    );
}

#[test]
fn labels_must_be_unique_different_expr() {
    let (err, ast) = match Scope::try_from_exprs(vec![
        Expr::natural(vec![Label::new(0..7, "label1")], 8..11, small(256)),
        Expr::natural(vec![Label::new(12..19, "label1")], 20..23, small(256)),
    ]) {
        Err(e) => e,
        Ok(_) => panic!("expected a duplicate label"),
    };
    let (start_span, end_span) = match err.as_slice() {
        [ScopeError::DuplicateLabel(start_span, end_span)] => {
            assert_eq!((start_span, end_span), (&(12..19), &(0..7)));
            (start_span.clone(), end_span.clone())
        }
        err => panic!("unexpected error: {:?}", err),
    };
    assert_eq!(
        parse(":label1 256 :label1 256"),
        (Some(ast), vec![Error::duplicate_label(start_span, end_span)])
    );
}

#[test]
fn expr_span() {
    let (ast, errors) = parse(":label 256");
    assert!(errors.is_empty());
    assert_eq!(ast.unwrap().exprs()[0].span_with_labels(), 0..10);
}

#[test]
fn duplicate_label_lookup_resolves_to_first() {
    let (ast, errors) = parse(":label1 256 :label1 256");
    assert_eq!(errors.len(), 1);
    let ast = ast.unwrap();
    assert_eq!(ast.get("label1"), Some(0));
    assert_eq!(ast.get("label2"), None);
    assert_eq!(ast.len(), 2);
}

#[test]
fn label_lookup_skips_unlabelled_exprs() {
    let (ast, errors) = parse("a :b 1 :c :d 2");
    assert!(errors.is_empty());
    let ast = ast.unwrap();
    assert_eq!(ast.get("b"), Some(1));
    assert_eq!(ast.get("c"), Some(2));
    assert_eq!(ast.get("d"), Some(2));
    assert_eq!(ast.get("a"), None);
}

#[test]
fn duplicates_in_nested_scope_are_traced() {
    assert_eq!(
        parse("(:a 1 :a 2)").1,
        vec![Error::duplicate_label(6..8, 1..3)
            .with_label(ErrorLabel::SExpr)
            .with_label(ErrorLabel::Reference)]
    );
}

#[test]
fn duplicate_errors_come_in_source_order() {
    let (_, errors) = parse(":a :b 1 :b :a 2 :a 3");
    assert_eq!(
        errors,
        vec![
            Error::duplicate_label(8..10, 3..5),
            Error::duplicate_label(11..13, 0..2),
            Error::duplicate_label(16..18, 0..2),
        ]
    );
}
