//! A verified arithmetic-expression front end: a lexer from text to tokens, a
//! precedence-climbing parser from tokens to an expression tree, and a
//! canonical rendering of trees back to text. Numeric literals are carried as
//! their source text, so every stage is exact; turning a literal into a
//! machine number is left to the caller.

pub mod error;
pub mod expr;
pub mod laws;
pub mod numtext;
pub mod parser;
pub mod token;
pub mod tokenizer;

pub use crate::error::MathError;
pub use crate::expr::Expr;
pub use crate::parser::Parser;
pub use crate::token::{Operator, Token};
pub use crate::tokenizer::Tokenizer;
