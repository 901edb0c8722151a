use crate::error::{ErrorModel, MathError};
use crate::expr::{Expr, ExprModel};
use crate::token::{tokens_view, Operator, Token, TokenModel};
use crate::tokenizer::{spec_tokenize, Tokenizer};
use vstd::prelude::*;

verus! {

/// What parsing finds from position `i` on when one primary expression is
/// asked for: the expression and the position after it, or an error. A
/// primary is a number, a scientific literal, a unary minus applied to the
/// next primary, or a parenthesized expression.
pub open spec fn spec_parse_primary(ts: Seq<TokenModel>, i: int) -> Result<
    (ExprModel, int),
    ErrorModel,
>
    decreases ts.len() - i, 0int,
{
    if i < 0 || i >= ts.len() {
        Err(ErrorModel::InvalidExpression("Unexpected end of input"@))
    } else {
        match ts[i] {
            TokenModel::Number(text) => Ok((ExprModel::Literal(text), i + 1)),
            TokenModel::Scientific { base, exponent } => Ok(
                (ExprModel::Scientific { base, exponent }, i + 1),
            ),
            TokenModel::Operator(op) => {
                if op == Operator::Subtract {
                    match spec_parse_primary(ts, i + 1) {
                        Ok((operand, j)) => Ok((ExprModel::UnaryMinus(Box::new(operand)), j)),
                        Err(e) => Err(e),
                    }
                } else {
                    Err(ErrorModel::UnexpectedToken(ts[i]))
                }
            },
            TokenModel::LParen => {
                match spec_parse_expression(ts, i + 1, 0) {
                    Ok((inner, j)) => {
                        if j < ts.len() && ts[j] is RParen {
                            Ok((inner, j + 1))
                        } else {
                            Err(ErrorModel::InvalidExpression("Expected ')'"@))
                        }
                    },
                    Err(e) => Err(e),
                }
            },
            TokenModel::RParen => Err(ErrorModel::UnexpectedToken(ts[i])),
        }
    }
}

/// Precedence climbing from an already-parsed left-hand side: while the next
/// token is an operator binding at least as tightly as `min_precedence`, the
/// right-hand side is parsed one level up (which makes every operator
/// left-associative) and folded into a binary node. A right parenthesis or a
/// weaker operator stops the climb; any other token is unexpected.
pub open spec fn spec_parse_climb(
    ts: Seq<TokenModel>,
    i: int,
    min_precedence: int,
    lhs: ExprModel,
) -> Result<(ExprModel, int), ErrorModel>
    decreases ts.len() - i, 0int,
{
    if i < 0 || i >= ts.len() {
        Ok((lhs, i))
    } else {
        match ts[i] {
            TokenModel::Operator(op) => {
                if op.spec_precedence() < min_precedence {
                    Ok((lhs, i))
                } else {
                    match spec_parse_expression(ts, i + 1, op.spec_precedence() + 1) {
                        Ok((rhs, j)) => {
                            if i < j && j <= ts.len() {
                                spec_parse_climb(
                                    ts,
                                    j,
                                    min_precedence,
                                    ExprModel::BinOp { op, lhs: Box::new(lhs), rhs: Box::new(rhs) },
                                )
                            } else {
                                // parsing always moves right, so this arm is
                                // never the value of a climb
                                Err(ErrorModel::UnmatchedParenthesis)
                            }
                        },
                        Err(e) => Err(e),
                    }
                }
            },
            TokenModel::RParen => Ok((lhs, i)),
            _ => Err(ErrorModel::UnexpectedToken(ts[i])),
        }
    }
}

/// What parsing finds from position `i` on at a given minimum binding
/// strength: one primary, then a climb over the following operators.
pub open spec fn spec_parse_expression(
    ts: Seq<TokenModel>,
    i: int,
    min_precedence: int,
) -> Result<(ExprModel, int), ErrorModel>
    decreases ts.len() - i, 1int,
{
    match spec_parse_primary(ts, i) {
        Ok((lhs, j)) => {
            if i < j && j <= ts.len() {
                spec_parse_climb(ts, j, min_precedence, lhs)
            } else {
                // a primary always moves right, so this arm is never the
                // value of a parse
                Err(ErrorModel::UnmatchedParenthesis)
            }
        },
        Err(e) => Err(e),
    }
}

/// The expression of a whole token sequence: a parse from the start at the
/// loosest binding strength.
pub open spec fn spec_parse(ts: Seq<TokenModel>) -> Result<ExprModel, ErrorModel> {
    match spec_parse_expression(ts, 0, 0) {
        Ok((e, _)) => Ok(e),
        Err(e) => Err(e),
    }
}

proof fn lemma_parse_primary_wf(ts: Seq<TokenModel>, i: int)
    requires
        crate::token::wf_tokens(ts),
    ensures
        spec_parse_primary(ts, i) matches Ok(result) ==> crate::expr::wf_expr(result.0),
    decreases ts.len() - i, 0int,
{
    if 0 <= i < ts.len() {
        assert(crate::token::wf_token(ts[i]));
        match ts[i] {
            TokenModel::Operator(op) => {
                if op == Operator::Subtract {
                    lemma_parse_primary_wf(ts, i + 1);
                }
            },
            TokenModel::LParen => {
                lemma_parse_expression_wf(ts, i + 1, 0);
            },
            _ => {},
        }
    }
}

proof fn lemma_parse_climb_wf(ts: Seq<TokenModel>, i: int, min_precedence: int, lhs: ExprModel)
    requires
        crate::token::wf_tokens(ts),
        crate::expr::wf_expr(lhs),
    ensures
        spec_parse_climb(ts, i, min_precedence, lhs) matches Ok(result) ==> crate::expr::wf_expr(
            result.0,
        ),
    decreases ts.len() - i, 0int,
{
    if 0 <= i < ts.len() {
        match ts[i] {
            TokenModel::Operator(op) => {
                if op.spec_precedence() >= min_precedence {
                    lemma_parse_expression_wf(ts, i + 1, op.spec_precedence() + 1);
                    match spec_parse_expression(ts, i + 1, op.spec_precedence() + 1) {
                        Ok((rhs, j)) => {
                            if i < j <= ts.len() {
                                lemma_parse_climb_wf(
                                    ts,
                                    j,
                                    min_precedence,
                                    ExprModel::BinOp {
                                        op,
                                        lhs: Box::new(lhs),
                                        rhs: Box::new(rhs),
                                    },
                                );
                            }
                        },
                        Err(_) => {},
                    }
                }
            },
            _ => {},
        }
    }
}

proof fn lemma_parse_expression_wf(ts: Seq<TokenModel>, i: int, min_precedence: int)
    requires
        crate::token::wf_tokens(ts),
    ensures
        spec_parse_expression(ts, i, min_precedence) matches Ok(result) ==> crate::expr::wf_expr(
            result.0,
        ),
    decreases ts.len() - i, 1int,
{
    lemma_parse_primary_wf(ts, i);
    match spec_parse_primary(ts, i) {
        Ok((lhs, j)) => {
            if i < j <= ts.len() {
                lemma_parse_climb_wf(ts, j, min_precedence, lhs);
            }
        },
        Err(_) => {},
    }
}

/// The parser only builds well-formed trees from well-formed tokens.
pub proof fn lemma_parse_wf(ts: Seq<TokenModel>)
    requires
        crate::token::wf_tokens(ts),
    ensures
        spec_parse(ts) matches Ok(e) ==> crate::expr::wf_expr(e),
{
    lemma_parse_expression_wf(ts, 0, 0);
}

/// The expression a whole input text spells: lexing, then parsing.
pub open spec fn spec_text_to_expr(s: Seq<char>) -> Result<ExprModel, ErrorModel> {
    match spec_tokenize(s) {
        Ok(ts) => spec_parse(ts),
        Err(e) => Err(e),
    }
}

/// How an executable parsing result corresponds to its model.
pub open spec fn expr_result_matches(
    r: Result<Expr, MathError>,
    m: Result<ExprModel, ErrorModel>,
) -> bool {
    match r {
        Ok(e) => m matches Ok(em) && e@ == em,
        Err(err) => m matches Err(em) && err@ == em,
    }
}

/// Tokenizes and parses a whole input text.
pub fn parse_text(input: &str) -> (r: Result<Expr, MathError>)
    ensures
        expr_result_matches(r, spec_text_to_expr(input@)),
{
    let tokens = match Tokenizer::tokenize(input) {
        Ok(ts) => ts,
        Err(e) => {
            return Err(e);
        },
    };
    let mut parser = Parser::new(tokens);
    parser.parse()
}

/// The parser: walks the token sequence once, left to right, through a
/// cursor that never moves back.
pub struct Parser {
    tokens: Vec<Token>,
    current: usize,
}

impl Parser {
    /// The models of the tokens being parsed.
    pub closed spec fn toks(&self) -> Seq<TokenModel> {
        tokens_view(self.tokens@)
    }

    /// The cursor position.
    pub closed spec fn at(&self) -> int {
        self.current as int
    }

    pub open spec fn wf(&self) -> bool {
        0 <= self.at() <= self.toks().len()
    }

    /// Makes a parser that stands at the first token.
    pub fn new(tokens: Vec<Token>) -> (p: Parser)
        ensures
            p.wf(),
            p.toks() == tokens_view(tokens@),
            p.at() == 0,
    {
        Parser { tokens, current: 0 }
    }

    /// Parses the whole expression the tokens spell, from the current cursor
    /// position on.
    pub fn parse(&mut self) -> (r: Result<Expr, MathError>)
        requires
            old(self).wf(),
        ensures
            final(self).wf(),
            match spec_parse_expression(old(self).toks(), old(self).at(), 0) {
                Ok((e, j)) => r matches Ok(expr) && expr@ == e,
                Err(em) => r matches Err(err) && err@ == em,
            },
    {
        self.parse_expression(0)
    }

    /// One parse at a minimum binding strength: a primary, then the climb.
    fn parse_expression(&mut self, min_precedence: u8) -> (r: Result<Expr, MathError>)
        requires
            old(self).wf(),
        ensures
            final(self).wf(),
            final(self).tokens == old(self).tokens,
            match spec_parse_expression(old(self).toks(), old(self).at(), min_precedence as int) {
                Ok((e, j)) => {
                    &&& r matches Ok(expr) && expr@ == e
                    &&& final(self).at() == j
                    &&& old(self).at() < j
                },
                Err(em) => r matches Err(err) && err@ == em,
            },
        decreases self.tokens@.len() - self.current, 1int,
    {
        let ghost ts = self.toks();
        let ghost start = self.at();
        let mut lhs = match self.parse_primary() {
            Ok(e) => e,
            Err(e) => {
                return Err(e);
            },
        };
        loop
            invariant
                ts == old(self).toks(),
                start == old(self).at(),
                self.wf(),
                self.tokens == old(self).tokens,
                start < self.at() <= ts.len(),
                spec_parse_expression(ts, start, min_precedence as int) == spec_parse_climb(
                    ts,
                    self.at(),
                    min_precedence as int,
                    lhs@,
                ),
            ensures
                self.wf(),
                self.tokens == old(self).tokens,
                start < self.at() <= ts.len(),
                spec_parse_expression(ts, start, min_precedence as int) == Ok::<
                    (ExprModel, int),
                    ErrorModel,
                >((lhs@, self.at())),
            decreases ts.len() - self.at(),
        {
            let ghost pos = self.at();
            let ghost lhs_model = lhs@;
            let token = self.peek();
            match token {
                None => {
                    break ;
                },
                Some(tok) => {
                    match tok {
                        Token::Operator(op) => {
                            let precedence = op.precedence();
                            if precedence < min_precedence {
                                break ;
                            }
                            self.advance();
                            let rhs = match self.parse_expression(precedence + 1) {
                                Ok(e) => e,
                                Err(e) => {
                                    proof {
                                        assert(spec_parse_climb(
                                            ts,
                                            pos,
                                            min_precedence as int,
                                            lhs_model,
                                        ) is Err);
                                    }
                                    return Err(e);
                                },
                            };
                            lhs = Expr::BinOp { op, lhs: Box::new(lhs), rhs: Box::new(rhs) };
                            proof {
                                assert(spec_parse_climb(ts, pos, min_precedence as int, lhs_model)
                                    == spec_parse_climb(
                                    ts,
                                    self.at(),
                                    min_precedence as int,
                                    lhs@,
                                ));
                            }
                        },
                        Token::RParen => {
                            break ;
                        },
                        _ => {
                            return Err(MathError::UnexpectedToken(tok));
                        },
                    }
                },
            }
        }
        Ok(lhs)
    }

    /// One primary expression.
    fn parse_primary(&mut self) -> (r: Result<Expr, MathError>)
        requires
            old(self).wf(),
        ensures
            final(self).wf(),
            final(self).tokens == old(self).tokens,
            match spec_parse_primary(old(self).toks(), old(self).at()) {
                Ok((e, j)) => {
                    &&& r matches Ok(expr) && expr@ == e
                    &&& final(self).at() == j
                    &&& old(self).at() < j
                },
                Err(em) => r matches Err(err) && err@ == em,
            },
        decreases self.tokens@.len() - self.current, 0int,
    {
        let token = match self.next() {
            Some(t) => t,
            None => {
                return Err(MathError::InvalidExpression(String::from_str("Unexpected end of input")));
            },
        };
        match token {
            Token::Number(text) => Ok(Expr::Literal(text)),
            Token::Scientific { base, exponent } => Ok(Expr::Scientific { base, exponent }),
            Token::Operator(Operator::Subtract) => {
                let operand = match self.parse_primary() {
                    Ok(e) => e,
                    Err(e) => {
                        return Err(e);
                    },
                };
                Ok(Expr::UnaryMinus(Box::new(operand)))
            },
            Token::LParen => {
                let inner = match self.parse_expression(0) {
                    Ok(e) => e,
                    Err(e) => {
                        return Err(e);
                    },
                };
                match self.next() {
                    Some(Token::RParen) => Ok(inner),
                    _ => Err(MathError::InvalidExpression(String::from_str("Expected ')'"))),
                }
            },
            _ => Err(MathError::UnexpectedToken(token)),
        }
    }

    /// The token under the cursor, if any, without moving.
    fn peek(&self) -> (t: Option<Token>)
        requires
            self.wf(),
        ensures
            match t {
                Some(tok) => self.at() < self.toks().len() && tok@ == self.toks()[self.at()],
                None => self.at() == self.toks().len(),
            },
    {
        if self.current < self.tokens.len() {
            Some(self.tokens[self.current].clone())
        } else {
            None
        }
    }

    /// The token under the cursor, if any, moving past it.
    fn next(&mut self) -> (t: Option<Token>)
        requires
            old(self).wf(),
        ensures
            final(self).wf(),
            final(self).tokens == old(self).tokens,
            match t {
                Some(tok) => {
                    &&& old(self).at() < old(self).toks().len()
                    &&& tok@ == old(self).toks()[old(self).at()]
                    &&& final(self).at() == old(self).at() + 1
                },
                None => old(self).at() == old(self).toks().len() && final(self).at() == old(
                    self,
                ).at(),
            },
    {
        if self.current < self.tokens.len() {
            let token = self.tokens[self.current].clone();
            self.current = self.current + 1;
            Some(token)
        } else {
            None
        }
    }

    /// Moves the cursor past the token under it.
    fn advance(&mut self)
        requires
            old(self).wf(),
            old(self).at() < old(self).toks().len(),
        ensures
            final(self).wf(),
            final(self).tokens == old(self).tokens,
            final(self).at() == old(self).at() + 1,
    {
        let bound = self.tokens.len();
        proof {
            assert(self.current < bound);
        }
        self.current = self.current + 1;
    }
}

} // verus!
