use mathexpr::{Expr, Operator, Parser, Tokenizer};

fn lit(text: &str) -> Expr {
    Expr::literal(text.to_string())
}

fn sci(base: &str, exponent: i32) -> Expr {
    Expr::scientific(base.to_string(), exponent)
}

#[test]
fn parser_test_basic_arithmetic() {
    let input = "2 + 3 * 4";
    let tokens = Tokenizer::tokenize(input).unwrap();
    let mut parser = Parser::new(tokens);
    let expr = parser.parse().unwrap();

    // Expected: 2 + (3 * 4)
    assert_eq!(
        expr,
        Expr::binary(
            Operator::Add,
            lit("2"),
            Expr::binary(Operator::Multiply, lit("3"), lit("4")),
        )
    );

    assert_eq!(expr.render(), "2 + 3 * 4");
}

#[test]
fn parser_test_parentheses() {
    let input = "(2 + 3) * 4";
    let tokens = Tokenizer::tokenize(input).unwrap();
    let mut parser = Parser::new(tokens);
    let expr = parser.parse().unwrap();

    // Expected: (2 + 3) * 4
    assert_eq!(
        expr,
        Expr::binary(
            Operator::Multiply,
            Expr::binary(Operator::Add, lit("2"), lit("3")),
            lit("4"),
        )
    );

    assert_eq!(expr.render(), "(2 + 3) * 4");
}

#[test]
fn parser_test_scientific_notation() {
    let input = "2e10 + 3e-2 + 2";
    let tokens = Tokenizer::tokenize(input).unwrap();
    let mut parser = Parser::new(tokens);
    let expr = parser.parse().unwrap();

    // Expected: (2e10 + 3e-2) + 2
    assert_eq!(
        expr,
        Expr::binary(
            Operator::Add,
            Expr::binary(Operator::Add, sci("2", 10), sci("3", -2)),
            lit("2"),
        )
    );

    assert_eq!(expr.render(), "2e10 + 3e-2 + 2");
}

#[test]
fn parser_builds_left_associative_power() {
    // the grammar binds `^` to the left: 2^3^2 groups as (2^3)^2
    let expr = mathexpr::parser::parse_text("2^3^2").unwrap();
    assert_eq!(
        expr,
        Expr::binary(
            Operator::Power,
            Expr::binary(Operator::Power, lit("2"), lit("3")),
            lit("2"),
        )
    );
}

#[test]
fn parser_orders_operators_by_precedence() {
    assert_eq!(
        mathexpr::parser::parse_text("1 + 2 * 3").unwrap(),
        Expr::binary(
            Operator::Add,
            lit("1"),
            Expr::binary(Operator::Multiply, lit("2"), lit("3")),
        )
    );
    assert_eq!(
        mathexpr::parser::parse_text("2 * 3 + 4").unwrap(),
        Expr::binary(
            Operator::Add,
            Expr::binary(Operator::Multiply, lit("2"), lit("3")),
            lit("4"),
        )
    );
    assert_eq!(
        mathexpr::parser::parse_text("1 ^ 2 + 3").unwrap(),
        Expr::binary(
            Operator::Add,
            Expr::binary(Operator::Power, lit("1"), lit("2")),
            lit("3"),
        )
    );
}

#[test]
fn parser_lets_parentheses_override_precedence() {
    assert_eq!(
        mathexpr::parser::parse_text("(1 + 2) * 3").unwrap(),
        Expr::binary(
            Operator::Multiply,
            Expr::binary(Operator::Add, lit("1"), lit("2")),
            lit("3"),
        )
    );
}

#[test]
fn parser_binds_unary_minus_tighter_than_power() {
    // -2 ^ 3 groups as (-2) ^ 3
    assert_eq!(
        mathexpr::parser::parse_text("-2 ^ 3").unwrap(),
        Expr::binary(Operator::Power, Expr::unary_minus(lit("2")), lit("3")),
    );
    assert_eq!(
        mathexpr::parser::parse_text("-(2 + 3)").unwrap(),
        Expr::unary_minus(Expr::binary(Operator::Add, lit("2"), lit("3"))),
    );
    assert_eq!(
        mathexpr::parser::parse_text("2 + -3").unwrap(),
        Expr::binary(Operator::Add, lit("2"), Expr::unary_minus(lit("3"))),
    );
}

#[test]
fn renderer_writes_negative_exponents_and_unary_minus() {
    assert_eq!(sci("1", -1).render(), "1e-1");
    assert_eq!(sci("1", -2147483648).render(), "1e-2147483648");
    assert_eq!(Expr::unary_minus(lit("5")).render(), "-(5)");
}
