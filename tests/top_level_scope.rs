use ari::parser::{parse, Error, ErrorLabel};

#[test]
fn cant_be_empty() {
    assert_eq!(
        parse(""),
        (
            None,
            vec![Error::unexpected_end(0)
                .with_label(ErrorLabel::Symbol)
                .with_label(ErrorLabel::Reference)],
        )
    );
}

#[test]
fn whitespace_only_is_empty() {
    let (ast, errors) = parse(" \n\t");
    assert!(ast.is_none());
    assert_eq!(errors.len(), 1);
    assert_eq!(errors[0].span, 3..3);
}

#[test]
fn padding_around_top_level() {
    let (ast, errors) = parse("  a  b  ");
    assert!(errors.is_empty());
    assert_eq!(ast.unwrap().len(), 2);
}
