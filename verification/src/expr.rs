use crate::numtext::{i32_dec_string, int_text, is_float_text, push_char};
use crate::token::{Operator, TokenModel};
use vstd::prelude::*;

verus! {

/// The abstract syntax tree of an expression. The tree is finite and owned
/// exclusively along its edges; it is built bottom-up by the parser and only
/// read afterwards. Numeric leaves keep the text of the literal.
#[derive(Debug, PartialEq)]
pub enum Expr {
    /// A plain numeric literal, as written.
    Literal(String),
    /// A binary operation.
    BinOp { op: Operator, lhs: Box<Expr>, rhs: Box<Expr> },
    /// Negation of a single operand.
    UnaryMinus(Box<Expr>),
    /// A scientific-notation literal `<base>e<exponent>`, kept distinct from
    /// `Literal` so that rendering preserves the `e`-notation form.
    Scientific { base: String, exponent: i32 },
}

/// The mathematical shape of an expression tree.
#[verifier::ext_equal]
pub enum ExprModel {
    Literal(Seq<char>),
    BinOp { op: Operator, lhs: Box<ExprModel>, rhs: Box<ExprModel> },
    UnaryMinus(Box<ExprModel>),
    Scientific { base: Seq<char>, exponent: int },
}

/// The model of an expression tree.
pub open spec fn expr_model(e: Expr) -> ExprModel
    decreases e,
{
    match e {
        Expr::Literal(text) => ExprModel::Literal(text@),
        Expr::BinOp { op, lhs, rhs } => ExprModel::BinOp {
            op,
            lhs: Box::new(expr_model(*lhs)),
            rhs: Box::new(expr_model(*rhs)),
        },
        Expr::UnaryMinus(operand) => ExprModel::UnaryMinus(Box::new(expr_model(*operand))),
        Expr::Scientific { base, exponent } => ExprModel::Scientific {
            base: base@,
            exponent: exponent as int,
        },
    }
}

impl View for Expr {
    type V = ExprModel;

    open spec fn view(&self) -> ExprModel {
        expr_model(*self)
    }
}

/// Well-formedness of an expression tree: every numeric leaf carries a
/// readable literal text and every exponent fits in a signed 32-bit integer.
/// Trees built by the parser are well-formed.
pub open spec fn wf_expr(e: ExprModel) -> bool
    decreases e,
{
    match e {
        ExprModel::Literal(text) => is_float_text(text),
        ExprModel::BinOp { op, lhs, rhs } => wf_expr(*lhs) && wf_expr(*rhs),
        ExprModel::UnaryMinus(operand) => wf_expr(*operand),
        ExprModel::Scientific { base, exponent } => is_float_text(base) && -0x8000_0000
            <= exponent <= 0x7fff_ffff,
    }
}

/// A left child is parenthesized when its own operator binds strictly less
/// tightly than the parent's.
pub open spec fn parens_on_left(child: ExprModel, op: Operator) -> bool {
    match child {
        ExprModel::BinOp { op: inner, lhs: _, rhs: _ } => inner.spec_precedence()
            < op.spec_precedence(),
        _ => false,
    }
}

/// A right child is parenthesized already at equal binding strength, which is
/// what left associativity requires.
pub open spec fn parens_on_right(child: ExprModel, op: Operator) -> bool {
    match child {
        ExprModel::BinOp { op: inner, lhs: _, rhs: _ } => inner.spec_precedence()
            <= op.spec_precedence(),
        _ => false,
    }
}

/// The canonical text of an expression: literals as written, unary minus as
/// `-(operand)`, binary operations infix with one space around the operator
/// and the least parenthesization that reflects precedence and left
/// associativity.
pub open spec fn spec_render(e: ExprModel) -> Seq<char>
    decreases e,
{
    match e {
        ExprModel::Literal(text) => text,
        ExprModel::Scientific { base, exponent } => base + seq!['e'] + int_text(exponent),
        ExprModel::UnaryMinus(operand) => seq!['-', '('] + spec_render(*operand) + seq![')'],
        ExprModel::BinOp { op, lhs, rhs } => {
            let left = if parens_on_left(*lhs, op) {
                seq!['('] + spec_render(*lhs) + seq![')']
            } else {
                spec_render(*lhs)
            };
            let right = if parens_on_right(*rhs, op) {
                seq!['('] + spec_render(*rhs) + seq![')']
            } else {
                spec_render(*rhs)
            };
            left + seq![' ', op.spec_symbol(), ' '] + right
        },
    }
}

/// The token spelling of an expression: the tokens its canonical text reads
/// as, with the parenthesization that rendering chooses.
pub open spec fn toks_of(e: ExprModel) -> Seq<TokenModel>
    decreases e,
{
    match e {
        ExprModel::Literal(text) => seq![TokenModel::Number(text)],
        ExprModel::Scientific { base, exponent } => seq![
            TokenModel::Scientific { base, exponent },
        ],
        ExprModel::UnaryMinus(operand) => seq![
            TokenModel::Operator(Operator::Subtract),
            TokenModel::LParen,
        ] + toks_of(*operand) + seq![TokenModel::RParen],
        ExprModel::BinOp { op, lhs, rhs } => {
            let left = if parens_on_left(*lhs, op) {
                seq![TokenModel::LParen] + toks_of(*lhs) + seq![TokenModel::RParen]
            } else {
                toks_of(*lhs)
            };
            let right = if parens_on_right(*rhs, op) {
                seq![TokenModel::LParen] + toks_of(*rhs) + seq![TokenModel::RParen]
            } else {
                toks_of(*rhs)
            };
            left + seq![TokenModel::Operator(op)] + right
        },
    }
}

pub proof fn lemma_toks_of_nonempty(e: ExprModel)
    ensures
        toks_of(e).len() >= 1,
    decreases e,
{
}

impl Clone for Expr {
    fn clone(&self) -> (e: Expr)
        ensures
            e@ == self@,
        decreases self,
    {
        match self {
            Expr::Literal(text) => Expr::Literal(text.clone()),
            Expr::BinOp { op, lhs, rhs } => Expr::BinOp {
                op: *op,
                lhs: Box::new((**lhs).clone()),
                rhs: Box::new((**rhs).clone()),
            },
            Expr::UnaryMinus(operand) => Expr::UnaryMinus(Box::new((**operand).clone())),
            Expr::Scientific { base, exponent } => Expr::Scientific {
                base: base.clone(),
                exponent: *exponent,
            },
        }
    }
}

impl Expr {
    /// A literal leaf.
    pub fn literal(value: String) -> (e: Expr)
        ensures
            e@ == ExprModel::Literal(value@),
    {
        Expr::Literal(value)
    }

    /// A binary operation node.
    pub fn binary(op: Operator, lhs: Expr, rhs: Expr) -> (e: Expr)
        ensures
            e@ == (ExprModel::BinOp { op, lhs: Box::new(lhs@), rhs: Box::new(rhs@) }),
    {
        Expr::BinOp { op, lhs: Box::new(lhs), rhs: Box::new(rhs) }
    }

    /// A unary-minus node.
    pub fn unary_minus(expr: Expr) -> (e: Expr)
        ensures
            e@ == ExprModel::UnaryMinus(Box::new(expr@)),
    {
        Expr::UnaryMinus(Box::new(expr))
    }

    /// A scientific-notation leaf.
    pub fn scientific(base: String, exponent: i32) -> (e: Expr)
        ensures
            e@ == (ExprModel::Scientific { base: base@, exponent: exponent as int }),
    {
        Expr::Scientific { base, exponent }
    }

    /// Writes the expression as its canonical text.
    pub fn render(&self) -> (s: String)
        ensures
            s@ == spec_render(self@),
        decreases self,
    {
        match self {
            Expr::Literal(text) => text.clone(),
            Expr::Scientific { base, exponent } => {
                let mut s = base.clone();
                proof {
                    reveal_strlit("e");
                    assert("e"@ =~= seq!['e']);
                }
                s.append("e");
                let exp_text = i32_dec_string(*exponent);
                s.append(exp_text.as_str());
                proof {
                    assert(s@ =~= base@ + seq!['e'] + int_text(*exponent as int));
                }
                s
            },
            Expr::UnaryMinus(operand) => {
                let mut s = String::from_str("-(");
                proof {
                    reveal_strlit("-(");
                    reveal_strlit(")");
                    assert("-("@ =~= seq!['-', '(']);
                    assert(")"@ =~= seq![')']);
                }
                let inner = operand.render();
                s.append(inner.as_str());
                s.append(")");
                proof {
                    assert(s@ =~= seq!['-', '('] + spec_render(operand@) + seq![')']);
                }
                s
            },
            Expr::BinOp { op, lhs, rhs } => {
                proof {
                    reveal_strlit("(");
                    reveal_strlit(")");
                    assert("("@ =~= seq!['(']);
                    assert(")"@ =~= seq![')']);
                }
                let left_parens = match &**lhs {
                    Expr::BinOp { op: inner, lhs: _, rhs: _ } => inner.precedence()
                        < op.precedence(),
                    _ => false,
                };
                let right_parens = match &**rhs {
                    Expr::BinOp { op: inner, lhs: _, rhs: _ } => inner.precedence()
                        <= op.precedence(),
                    _ => false,
                };
                let mut s = String::new();
                let left = lhs.render();
                if left_parens {
                    s.append("(");
                    s.append(left.as_str());
                    s.append(")");
                } else {
                    s.append(left.as_str());
                }
                push_char(&mut s, ' ');
                push_char(&mut s, op.symbol());
                push_char(&mut s, ' ');
                let ghost mid = s@;
                let right = rhs.render();
                if right_parens {
                    s.append("(");
                    s.append(right.as_str());
                    s.append(")");
                } else {
                    s.append(right.as_str());
                }
                proof {
                    let l = if parens_on_left(lhs@, *op) {
                        seq!['('] + spec_render(lhs@) + seq![')']
                    } else {
                        spec_render(lhs@)
                    };
                    let r = if parens_on_right(rhs@, *op) {
                        seq!['('] + spec_render(rhs@) + seq![')']
                    } else {
                        spec_render(rhs@)
                    };
                    assert(mid =~= l + seq![' ', op.spec_symbol(), ' ']);
                    assert(s@ =~= l + seq![' ', op.spec_symbol(), ' '] + r);
                }
                s
            },
        }
    }
}

} // verus!
