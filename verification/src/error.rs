use crate::token::{Token, TokenModel};
use vstd::prelude::*;

verus! {

/// The closed set of failures that lexing, parsing and evaluation can raise.
/// The first failure of a stage aborts it and is handed to the caller as is.
#[derive(Debug, PartialEq)]
pub enum MathError {
    /// The parser saw a token it cannot use at the current position.
    UnexpectedToken(Token),
    /// Reserved for parenthesis-balance failures; missing `)` is reported
    /// as `InvalidExpression` instead.
    UnmatchedParenthesis,
    /// A numeric literal could not be read; carries the offending text.
    InvalidNumber(String),
    /// A division whose right operand is exactly zero.
    DivisionByZero,
    /// Structural failures: unexpected end of input, a missing closing
    /// parenthesis, an unrecognized character, a malformed number shape.
    InvalidExpression(String),
}

/// The mathematical shape of an error, with message text as a character
/// sequence.
#[verifier::ext_equal]
pub enum ErrorModel {
    UnexpectedToken(TokenModel),
    UnmatchedParenthesis,
    InvalidNumber(Seq<char>),
    DivisionByZero,
    InvalidExpression(Seq<char>),
}

impl View for MathError {
    type V = ErrorModel;

    open spec fn view(&self) -> ErrorModel {
        match self {
            MathError::UnexpectedToken(t) => ErrorModel::UnexpectedToken(t@),
            MathError::UnmatchedParenthesis => ErrorModel::UnmatchedParenthesis,
            MathError::InvalidNumber(text) => ErrorModel::InvalidNumber(text@),
            MathError::DivisionByZero => ErrorModel::DivisionByZero,
            MathError::InvalidExpression(msg) => ErrorModel::InvalidExpression(msg@),
        }
    }
}

} // verus!
