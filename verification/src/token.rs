use crate::numtext::is_float_text;
use vstd::prelude::*;

verus! {

/// A binary operator of the expression grammar.
#[derive(Debug, Clone, Copy, PartialEq, Eq, Structural)]
pub enum Operator {
    Add,
    Subtract,
    Multiply,
    Divide,
    Power,
}

impl Operator {
    /// Binding strength of the operator: higher binds tighter.
    pub open spec fn spec_precedence(self) -> u8 {
        match self {
            Operator::Add | Operator::Subtract => 1,
            Operator::Multiply | Operator::Divide => 2,
            Operator::Power => 3,
        }
    }

    /// The character that writes this operator in an expression.
    pub open spec fn spec_symbol(self) -> char {
        match self {
            Operator::Add => '+',
            Operator::Subtract => '-',
            Operator::Multiply => '*',
            Operator::Divide => '/',
            Operator::Power => '^',
        }
    }

    pub fn precedence(&self) -> (p: u8)
        ensures
            p == self.spec_precedence(),
    {
        match self {
            Operator::Add | Operator::Subtract => 1,
            Operator::Multiply | Operator::Divide => 2,
            Operator::Power => 3,
        }
    }

    pub fn symbol(&self) -> (c: char)
        ensures
            c == self.spec_symbol(),
    {
        match self {
            Operator::Add => '+',
            Operator::Subtract => '-',
            Operator::Multiply => '*',
            Operator::Divide => '/',
            Operator::Power => '^',
        }
    }
}

/// One lexical unit of an arithmetic expression. A numeric literal keeps the
/// exact text it was written with, so that rendering reproduces the source
/// form; its value is read off by whoever consumes the token.
#[derive(Debug, PartialEq)]
pub enum Token {
    Number(String),
    Operator(Operator),
    LParen,
    RParen,
    Scientific { base: String, exponent: i32 },
}

/// The mathematical shape of a token: literal text as a sequence of
/// characters, exponents as unbounded integers.
#[verifier::ext_equal]
pub enum TokenModel {
    Number(Seq<char>),
    Operator(Operator),
    LParen,
    RParen,
    Scientific { base: Seq<char>, exponent: int },
}

impl View for Token {
    type V = TokenModel;

    open spec fn view(&self) -> TokenModel {
        match self {
            Token::Number(text) => TokenModel::Number(text@),
            Token::Operator(op) => TokenModel::Operator(*op),
            Token::LParen => TokenModel::LParen,
            Token::RParen => TokenModel::RParen,
            Token::Scientific { base, exponent } => TokenModel::Scientific {
                base: base@,
                exponent: *exponent as int,
            },
        }
    }
}

impl Clone for Token {
    fn clone(&self) -> (t: Token)
        ensures
            t@ == self@,
    {
        match self {
            Token::Number(text) => Token::Number(text.clone()),
            Token::Operator(op) => Token::Operator(*op),
            Token::LParen => Token::LParen,
            Token::RParen => Token::RParen,
            Token::Scientific { base, exponent } => Token::Scientific {
                base: base.clone(),
                exponent: *exponent,
            },
        }
    }
}

/// The models of a sequence of tokens, in order.
pub open spec fn tokens_view(ts: Seq<Token>) -> Seq<TokenModel> {
    ts.map_values(|t: Token| t@)
}

/// Well-formedness of a token: numeric texts are readable literals and
/// exponents fit in a signed 32-bit integer. The lexer only yields
/// well-formed tokens.
pub open spec fn wf_token(t: TokenModel) -> bool {
    match t {
        TokenModel::Number(text) => is_float_text(text),
        TokenModel::Scientific { base, exponent } => is_float_text(base) && -0x8000_0000
            <= exponent <= 0x7fff_ffff,
        _ => true,
    }
}

pub open spec fn wf_tokens(ts: Seq<TokenModel>) -> bool {
    forall|k: int| 0 <= k < ts.len() ==> #[trigger] wf_token(ts[k])
}

} // verus!
