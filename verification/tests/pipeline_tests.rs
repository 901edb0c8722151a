use mathexpr::parser::parse_text;
use mathexpr::{MathError, Token};

#[test]
fn test_invalid_expression() {
    assert!(matches!(
        parse_text("1 +"),
        Err(MathError::InvalidExpression(_))
    ));
    assert!(matches!(
        parse_text("1 + 2 *"),
        Err(MathError::InvalidExpression(_))
    ));
    assert!(matches!(
        parse_text("1 + 2 * (3 - 4"),
        Err(MathError::InvalidExpression(_))
    ));
    assert!(matches!(
        parse_text("1 + 2 * (3 - 4) +"),
        Err(MathError::InvalidExpression(_))
    ));
    assert!(matches!(
        parse_text("1 + 2 * (3 - 4) + 5 *"),
        Err(MathError::InvalidExpression(_))
    ));
}

#[test]
fn dangling_operators_report_unexpected_end() {
    assert_eq!(
        parse_text("1 +").unwrap_err(),
        MathError::InvalidExpression("Unexpected end of input".to_string())
    );
    assert_eq!(
        parse_text("").unwrap_err(),
        MathError::InvalidExpression("Unexpected end of input".to_string())
    );
}

#[test]
fn missing_closing_parenthesis_is_reported() {
    assert_eq!(
        parse_text("1 + 2 * (3 - 4").unwrap_err(),
        MathError::InvalidExpression("Expected ')'".to_string())
    );
}

#[test]
fn stray_tokens_are_unexpected() {
    assert_eq!(
        parse_text("1 2").unwrap_err(),
        MathError::UnexpectedToken(Token::Number("2".to_string()))
    );
    assert_eq!(
        parse_text(")").unwrap_err(),
        MathError::UnexpectedToken(Token::RParen)
    );
    assert_eq!(
        parse_text("1 + )").unwrap_err(),
        MathError::UnexpectedToken(Token::RParen)
    );
}

#[test]
fn parsing_the_same_text_twice_gives_the_same_tree() {
    let input = "1.5e3 + 2 * (3.7 - 4)^2";
    let first = parse_text(input).unwrap();
    let second = parse_text(input).unwrap();
    assert_eq!(first, second);
}

#[test]
fn rendering_preserves_literal_texts() {
    // literals travel as their source text: redundant forms stay as written
    let e = mathexpr::Expr::scientific("2.0".to_string(), 1);
    assert_eq!(e.render(), "2.0e1");
    assert_eq!(parse_text("2.0e1").unwrap(), e);

    let e = mathexpr::Expr::literal("007".to_string());
    assert_eq!(e.render(), "007");
    assert_eq!(parse_text("007").unwrap(), e);
}

#[test]
fn rendering_then_reparsing_reproduces_the_tree() {
    for input in [
        "1 + 2 * 3",
        "2 * 3 + 4",
        "2^3^2",
        "(1 + 2) * 3",
        "-(2 + 3)",
        "2 + -3",
        "-2 ^ 3",
        "1.5e3 + 2 * (3.7 - 4)^2",
        "2e10 + 3e-2 + 2",
        "1 / (2 - 2)",
    ] {
        let parsed = parse_text(input).unwrap();
        let rendered = parsed.render();
        let reparsed = parse_text(&rendered).unwrap();
        assert_eq!(reparsed, parsed, "round trip through {rendered:?}");
        assert_eq!(reparsed.render(), rendered);
    }
}
