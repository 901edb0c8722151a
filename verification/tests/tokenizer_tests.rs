use mathexpr::{MathError, Operator, Token, Tokenizer};

#[test]
fn test_basic_tokenization() {
    let input = "1 + 2.5 * (3-4)";
    let tokens = Tokenizer::tokenize(input).unwrap();
    assert_eq!(
        tokens,
        vec![
            Token::Number("1".to_string()),
            Token::Operator(Operator::Add),
            Token::Number("2.5".to_string()),
            Token::Operator(Operator::Multiply),
            Token::LParen,
            Token::Number("3".to_string()),
            Token::Operator(Operator::Subtract),
            Token::Number("4".to_string()),
            Token::RParen,
        ]
    );
}

#[test]
fn tokenizer_test_scientific_notation() {
    let input = "1.5e3 + 2e-2";
    let tokens = Tokenizer::tokenize(input).unwrap();
    assert_eq!(
        tokens,
        vec![
            Token::Scientific { base: "1.5".to_string(), exponent: 3 },
            Token::Operator(Operator::Add),
            Token::Scientific { base: "2".to_string(), exponent: -2 },
        ]
    );
}

#[test]
fn test_scientific_notation_2() {
    let input = "1.23e-4 + 5.67e+8";
    let tokens = Tokenizer::tokenize(input).unwrap();
    assert_eq!(
        tokens,
        vec![
            Token::Scientific { base: "1.23".to_string(), exponent: -4 },
            Token::Operator(Operator::Add),
            Token::Scientific { base: "5.67".to_string(), exponent: 8 },
        ]
    );
}

#[test]
fn tokenize_empty_and_whitespace_inputs() {
    assert_eq!(Tokenizer::tokenize("").unwrap(), vec![]);
    assert_eq!(Tokenizer::tokenize(" \t\n ").unwrap(), vec![]);
}

#[test]
fn tokenize_twice_gives_identical_tokens() {
    let input = "1.5e3 + 2 * (3.7 - 4)^2";
    let first = Tokenizer::tokenize(input).unwrap();
    let second = Tokenizer::tokenize(input).unwrap();
    assert_eq!(first, second);
}

#[test]
fn tokenize_rejects_multiple_decimal_points() {
    let err = Tokenizer::tokenize("1.2.3").unwrap_err();
    assert_eq!(
        err,
        MathError::InvalidExpression("Multiple decimal points in number".to_string())
    );
}

#[test]
fn tokenize_rejects_multiple_scientific_markers() {
    let err = Tokenizer::tokenize("1e2e3").unwrap_err();
    assert_eq!(
        err,
        MathError::InvalidExpression("Multiple scientific notation in number".to_string())
    );
}

#[test]
fn tokenize_rejects_stray_character_inside_number() {
    let err = Tokenizer::tokenize("12x3").unwrap_err();
    assert_eq!(err, MathError::InvalidNumber("12".to_string()));
}

#[test]
fn tokenize_rejects_unknown_character() {
    let err = Tokenizer::tokenize("1 $ 2").unwrap_err();
    assert_eq!(
        err,
        MathError::InvalidExpression("Unexpected character: $".to_string())
    );
}

#[test]
fn tokenize_rejects_malformed_scientific_texts() {
    assert_eq!(
        Tokenizer::tokenize("1e").unwrap_err(),
        MathError::InvalidNumber("1e".to_string())
    );
    assert_eq!(
        Tokenizer::tokenize("e3").unwrap_err(),
        MathError::InvalidNumber("e3".to_string())
    );
    assert_eq!(
        Tokenizer::tokenize("2e+").unwrap_err(),
        MathError::InvalidNumber("2e+".to_string())
    );
}

#[test]
fn tokenize_rejects_lone_decimal_point() {
    assert_eq!(
        Tokenizer::tokenize(".").unwrap_err(),
        MathError::InvalidNumber(".".to_string())
    );
}

#[test]
fn tokenize_exponent_range_matches_i32() {
    assert_eq!(
        Tokenizer::tokenize("2e2147483647").unwrap(),
        vec![Token::Scientific { base: "2".to_string(), exponent: 2147483647 }]
    );
    assert_eq!(
        Tokenizer::tokenize("2e-2147483648").unwrap(),
        vec![Token::Scientific { base: "2".to_string(), exponent: -2147483648 }]
    );
    assert_eq!(
        Tokenizer::tokenize("2e2147483648").unwrap_err(),
        MathError::InvalidNumber("2e2147483648".to_string())
    );
}

#[test]
fn operator_precedence_and_symbols_are_fixed() {
    assert_eq!(Operator::Add.precedence(), 1);
    assert_eq!(Operator::Subtract.precedence(), 1);
    assert_eq!(Operator::Multiply.precedence(), 2);
    assert_eq!(Operator::Divide.precedence(), 2);
    assert_eq!(Operator::Power.precedence(), 3);
    assert_eq!(Operator::Add.symbol(), '+');
    assert_eq!(Operator::Subtract.symbol(), '-');
    assert_eq!(Operator::Multiply.symbol(), '*');
    assert_eq!(Operator::Divide.symbol(), '/');
    assert_eq!(Operator::Power.symbol(), '^');
}
