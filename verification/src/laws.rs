//! Laws the pipeline obeys, stated over the models that the executable
//! functions are proved to follow.

use crate::error::{ErrorModel, MathError};
use crate::expr::{
    lemma_toks_of_nonempty, parens_on_left, parens_on_right, spec_render, toks_of, wf_expr, Expr,
    ExprModel,
};
use crate::parser::{
    expr_result_matches, spec_parse, spec_parse_climb, spec_parse_expression, spec_parse_primary,
    spec_text_to_expr,
};
use crate::token::{tokens_view, Operator, Token, TokenModel};
use crate::tokenizer::{
    is_number_start, is_symbol_char, is_whitespace_char, lemma_next_number_at,
    lemma_next_scientific_at, lemma_next_symbol, spec_next_token, spec_skip_ws, spec_tokenize,
    spec_tokenize_from, symbol_token, tokens_match, NextOutcome,
};
use vstd::prelude::*;

verus! {

/// Law: lexing is a function of the input text alone. Any two results that
/// `Tokenizer::tokenize` can return for the same text carry identical token
/// sequences, or identical errors — tokenizing twice changes nothing.
pub proof fn lemma_tokenize_deterministic(
    s: Seq<char>,
    r1: Result<Vec<Token>, MathError>,
    r2: Result<Vec<Token>, MathError>,
)
    requires
        tokens_match(r1, spec_tokenize(s)),
        tokens_match(r2, spec_tokenize(s)),
    ensures
        match (r1, r2) {
            (Ok(v1), Ok(v2)) => tokens_view(v1@) == tokens_view(v2@),
            (Err(e1), Err(e2)) => e1@ == e2@,
            _ => false,
        },
{
}

/// Law: the text-to-tree front of the pipeline is deterministic. Any two
/// results of tokenizing and parsing the same text are the same tree, or the
/// same error. Evaluation downstream is a pure function of the tree, so the
/// whole pipeline returns one value per input text.
pub proof fn lemma_front_deterministic(
    s: Seq<char>,
    r1: Result<Expr, MathError>,
    r2: Result<Expr, MathError>,
)
    requires
        expr_result_matches(r1, spec_text_to_expr(s)),
        expr_result_matches(r2, spec_text_to_expr(s)),
    ensures
        match (r1, r2) {
            (Ok(e1), Ok(e2)) => e1@ == e2@,
            (Err(e1), Err(e2)) => e1@ == e2@,
            _ => false,
        },
{
}

/// The climb can stop at position `j`: the end of the tokens, a right
/// parenthesis, or an operator binding no more tightly than `p`.
spec fn stop_le(ts: Seq<TokenModel>, j: int, p: int) -> bool {
    ||| j == ts.len()
    ||| (0 <= j < ts.len() && (ts[j] is RParen || (ts[j] matches TokenModel::Operator(o)
        && o.spec_precedence() <= p)))
}

/// The token spelling of anything but a binary node parses as one primary.
proof fn lemma_parse_primary_part(e: ExprModel, ts: Seq<TokenModel>, i: int)
    requires
        !(e is BinOp),
        0 <= i,
        i + toks_of(e).len() <= ts.len(),
        ts.subrange(i, i + toks_of(e).len()) == toks_of(e),
    ensures
        spec_parse_primary(ts, i) == Ok::<(ExprModel, int), ErrorModel>(
            (e, i + toks_of(e).len()),
        ),
    decreases e, 0int,
{
    let n = toks_of(e).len() as int;
    assert forall|k: int| 0 <= k < n implies #[trigger] ts[i + k] == toks_of(e)[k] by {
        assert(ts.subrange(i, i + n)[k] == ts[i + k]);
    }
    match e {
        ExprModel::Literal(text) => {
            assert(ts[i + 0] == toks_of(e)[0]);
            assert(ts[i] == TokenModel::Number(text));
        },
        ExprModel::Scientific { base, exponent } => {
            assert(ts[i + 0] == toks_of(e)[0]);
            assert(ts[i] == (TokenModel::Scientific { base, exponent }));
        },
        ExprModel::UnaryMinus(operand) => {
            let tx = toks_of(*operand);
            lemma_toks_of_nonempty(*operand);
            let head = seq![TokenModel::Operator(Operator::Subtract), TokenModel::LParen];
            assert(toks_of(e) == head + tx + seq![TokenModel::RParen]);
            assert(n == 3 + tx.len());
            assert(ts[i + 0] == toks_of(e)[0]);
            assert((head + tx + seq![TokenModel::RParen])[0] == head[0]);
            assert(ts[i] == TokenModel::Operator(Operator::Subtract));
            assert(ts[i + 1] == toks_of(e)[1]);
            assert((head + tx + seq![TokenModel::RParen])[1] == head[1]);
            assert(ts[i + 1] == TokenModel::LParen);
            assert(ts.subrange(i + 2, i + 2 + tx.len()) =~= tx) by {
                assert forall|k: int| 0 <= k < tx.len() implies ts.subrange(
                    i + 2,
                    i + 2 + tx.len(),
                )[k] == tx[k] by {
                    assert(ts.subrange(i + 2, i + 2 + tx.len())[k] == ts[i + (2 + k)]);
                    assert(ts[i + (2 + k)] == toks_of(e)[2 + k]);
                    assert((head + tx + seq![TokenModel::RParen])[2 + k] == tx[k]);
                }
            }
            let j = i + 2 + tx.len() as int;
            assert(ts[i + (2 + tx.len())] == toks_of(e)[2 + tx.len() as int]);
            assert((head + tx + seq![TokenModel::RParen])[2 + tx.len() as int]
                == TokenModel::RParen);
            assert(ts[j] == TokenModel::RParen);
            lemma_parse_render_prefix(*operand, ts, i + 2, 0);
            assert(spec_parse_climb(ts, j, 0, *operand) == Ok::<(ExprModel, int), ErrorModel>(
                (*operand, j),
            ));
            assert(spec_parse_expression(ts, i + 2, 0) == Ok::<(ExprModel, int), ErrorModel>(
                (*operand, j),
            ));
            assert(spec_parse_primary(ts, i + 1) == Ok::<(ExprModel, int), ErrorModel>(
                (*operand, j + 1),
            ));
        },
        _ => {},
    }
}

/// Parsing at binding strength `min` from the start of the token spelling of
/// `e` reconstructs exactly `e` and then climbs on from the position after
/// it, provided the spelling is not followed by an operator that binds more
/// tightly than `e`'s own operator.
proof fn lemma_parse_render_prefix(e: ExprModel, ts: Seq<TokenModel>, i: int, min: int)
    requires
        0 <= i,
        i + toks_of(e).len() <= ts.len(),
        ts.subrange(i, i + toks_of(e).len()) == toks_of(e),
        e matches ExprModel::BinOp { op, lhs, rhs } ==> op.spec_precedence() >= min,
        e matches ExprModel::BinOp { op, lhs, rhs } ==> stop_le(
            ts,
            i + toks_of(e).len(),
            op.spec_precedence() as int,
        ),
    ensures
        spec_parse_expression(ts, i, min) == spec_parse_climb(
            ts,
            i + toks_of(e).len(),
            min,
            e,
        ),
    decreases e, 1int,
{
    let n = toks_of(e).len() as int;
    lemma_toks_of_nonempty(e);
    assert forall|k: int| 0 <= k < n implies ts[i + k] == toks_of(e)[k] by {
        assert(ts.subrange(i, i + n)[k] == ts[i + k]);
    }
    if !(e is BinOp) {
        lemma_parse_primary_part(e, ts, i);
    } else {
        match e {
            ExprModel::BinOp { op, lhs, rhs } => {
                let l = *lhs;
                let r = *rhs;
                let lw = parens_on_left(l, op);
                let rw = parens_on_right(r, op);
                let tl = toks_of(l);
                let tr = toks_of(r);
                lemma_toks_of_nonempty(l);
                lemma_toks_of_nonempty(r);
                let left: Seq<TokenModel> = if lw {
                    seq![TokenModel::LParen] + tl + seq![TokenModel::RParen]
                } else {
                    tl
                };
                let right: Seq<TokenModel> = if rw {
                    seq![TokenModel::LParen] + tr + seq![TokenModel::RParen]
                } else {
                    tr
                };
                assert(toks_of(e) == left + seq![TokenModel::Operator(op)] + right);
                assert(n == left.len() + 1 + right.len());
                let p = i + left.len() as int;
                let rpos = p + 1;
                assert(ts[i + left.len()] == toks_of(e)[left.len() as int]);
                assert((left + seq![TokenModel::Operator(op)] + right)[left.len() as int]
                    == TokenModel::Operator(op));
                assert(ts[p] == TokenModel::Operator(op));
                // the left part parses and hands the climb `l` at position `p`
                if lw {
                    assert(ts[i + 0] == toks_of(e)[0]);
                    assert((left + seq![TokenModel::Operator(op)] + right)[0] == left[0]);
                    assert((seq![TokenModel::LParen] + tl + seq![TokenModel::RParen])[0]
                        == TokenModel::LParen);
                    assert(ts[i] == TokenModel::LParen);
                    assert(ts.subrange(i + 1, i + 1 + tl.len()) =~= tl) by {
                        assert forall|k: int| 0 <= k < tl.len() implies ts.subrange(
                            i + 1,
                            i + 1 + tl.len(),
                        )[k] == tl[k] by {
                            assert(ts.subrange(i + 1, i + 1 + tl.len())[k] == ts[i + (1 + k)]);
                            assert(ts[i + (1 + k)] == toks_of(e)[1 + k]);
                            assert((left + seq![TokenModel::Operator(op)] + right)[1 + k]
                                == left[1 + k]);
                            assert((seq![TokenModel::LParen] + tl + seq![TokenModel::RParen])[1 + k] == tl[k]);
                        }
                    }
                    let j_inner = i + 1 + tl.len() as int;
                    assert(ts[i + (1 + tl.len())] == toks_of(e)[1 + tl.len() as int]);
                    assert((left + seq![TokenModel::Operator(op)] + right)[1 + tl.len() as int]
                        == left[1 + tl.len() as int]);
                    assert((seq![TokenModel::LParen] + tl + seq![TokenModel::RParen])[1 + tl.len() as int] == TokenModel::RParen);
                    assert(ts[j_inner] == TokenModel::RParen);
                    lemma_parse_render_prefix(l, ts, i + 1, 0);
                    assert(spec_parse_climb(ts, j_inner, 0, l) == Ok::<
                        (ExprModel, int),
                        ErrorModel,
                    >((l, j_inner)));
                    assert(spec_parse_primary(ts, i) == Ok::<(ExprModel, int), ErrorModel>(
                        (l, p),
                    ));
                    assert(spec_parse_expression(ts, i, min) == spec_parse_climb(
                        ts,
                        p,
                        min,
                        l,
                    ));
                } else {
                    assert(ts.subrange(i, i + tl.len()) =~= tl) by {
                        assert forall|k: int| 0 <= k < tl.len() implies ts.subrange(
                            i,
                            i + tl.len(),
                        )[k] == tl[k] by {
                            assert(ts.subrange(i, i + tl.len())[k] == ts[i + k]);
                            assert(ts[i + k] == toks_of(e)[k]);
                            assert((left + seq![TokenModel::Operator(op)] + right)[k]
                                == left[k]);
                        }
                    }
                    if l is BinOp {
                        lemma_parse_render_prefix(l, ts, i, min);
                    } else {
                        lemma_parse_primary_part(l, ts, i);
                    }
                    assert(spec_parse_expression(ts, i, min) == spec_parse_climb(
                        ts,
                        p,
                        min,
                        l,
                    ));
                }
                // the right part parses on its own, one binding level up
                let minr = op.spec_precedence() as int + 1;
                if rw {
                    assert(ts[i + (left.len() + 1)] == toks_of(e)[left.len() as int + 1]);
                    assert((left + seq![TokenModel::Operator(op)] + right)[left.len() as int + 1]
                        == right[0]);
                    assert((seq![TokenModel::LParen] + tr + seq![TokenModel::RParen])[0]
                        == TokenModel::LParen);
                    assert(ts[rpos] == TokenModel::LParen);
                    assert(ts.subrange(rpos + 1, rpos + 1 + tr.len()) =~= tr) by {
                        assert forall|k: int| 0 <= k < tr.len() implies ts.subrange(
                            rpos + 1,
                            rpos + 1 + tr.len(),
                        )[k] == tr[k] by {
                            assert(ts.subrange(rpos + 1, rpos + 1 + tr.len())[k] == ts[i + (
                            left.len() + 2 + k)]);
                            assert(ts[i + (left.len() + 2 + k)] == toks_of(e)[left.len() + 2
                                + k]);
                            assert((left + seq![TokenModel::Operator(op)] + right)[left.len()
                                + 2 + k] == right[1 + k]);
                            assert((seq![TokenModel::LParen] + tr + seq![TokenModel::RParen])[1 + k] == tr[k]);
                        }
                    }
                    let j_inner = rpos + 1 + tr.len() as int;
                    assert(ts[i + (left.len() + 2 + tr.len())] == toks_of(e)[left.len() as int + 2 + tr.len()]);
                    assert((left + seq![TokenModel::Operator(op)] + right)[left.len() as int + 2 + tr.len()] == right[1 + tr.len() as int]);
                    assert((seq![TokenModel::LParen] + tr + seq![TokenModel::RParen])[1 + tr.len() as int] == TokenModel::RParen);
                    assert(ts[j_inner] == TokenModel::RParen);
                    lemma_parse_render_prefix(r, ts, rpos + 1, 0);
                    assert(spec_parse_climb(ts, j_inner, 0, r) == Ok::<
                        (ExprModel, int),
                        ErrorModel,
                    >((r, j_inner)));
                    assert(spec_parse_primary(ts, rpos) == Ok::<(ExprModel, int), ErrorModel>(
                        (r, i + n),
                    ));
                    assert(spec_parse_expression(ts, rpos, minr) == spec_parse_climb(
                        ts,
                        i + n,
                        minr,
                        r,
                    ));
                } else {
                    assert(ts.subrange(rpos, rpos + tr.len()) =~= tr) by {
                        assert forall|k: int| 0 <= k < tr.len() implies ts.subrange(
                            rpos,
                            rpos + tr.len(),
                        )[k] == tr[k] by {
                            assert(ts.subrange(rpos, rpos + tr.len())[k] == ts[i + (left.len()
                                + 1 + k)]);
                            assert(ts[i + (left.len() + 1 + k)] == toks_of(e)[left.len() + 1
                                + k]);
                            assert((left + seq![TokenModel::Operator(op)] + right)[left.len()
                                + 1 + k] == right[k]);
                        }
                    }
                    if r is BinOp {
                        lemma_parse_render_prefix(r, ts, rpos, minr);
                    } else {
                        lemma_parse_primary_part(r, ts, rpos);
                    }
                    assert(spec_parse_expression(ts, rpos, minr) == spec_parse_climb(
                        ts,
                        i + n,
                        minr,
                        r,
                    ));
                }
                // whatever may follow `e` stops the climb one level up
                assert(spec_parse_climb(ts, i + n, minr, r) == Ok::<
                    (ExprModel, int),
                    ErrorModel,
                >((r, i + n)));
                // one climb step at `p` absorbs the operator and `r`
                assert(spec_parse_climb(ts, p, min, l) == spec_parse_climb(
                    ts,
                    i + n,
                    min,
                    ExprModel::BinOp { op, lhs: Box::new(l), rhs: Box::new(r) },
                ));
                assert(e == (ExprModel::BinOp { op, lhs: Box::new(l), rhs: Box::new(r) }));
            },
            _ => {},
        }
    }
}

/// Law (round trip, parser half): the token spelling of any expression tree
/// parses back to exactly that tree — the parenthesization that rendering
/// chooses is always sufficient under the grammar's precedence and left
/// associativity.
pub proof fn lemma_parse_token_render(e: ExprModel)
    ensures
        spec_parse(toks_of(e)) == Ok::<ExprModel, ErrorModel>(e),
{
    let ts = toks_of(e);
    lemma_toks_of_nonempty(e);
    assert(ts.subrange(0, ts.len() as int) =~= ts);
    lemma_parse_render_prefix(e, ts, 0, 0);
    assert(spec_parse_climb(ts, ts.len() as int, 0, e) == Ok::<(ExprModel, int), ErrorModel>(
        (e, ts.len() as int),
    ));
}

/// Lexing `s` from position `i` finds exactly the tokens `ts`, one after the
/// other, and stands at position `j` after the last of them.
spec fn lexes_to(s: Seq<char>, i: int, ts: Seq<TokenModel>, j: int) -> bool
    decreases ts.len(),
{
    if ts.len() == 0 {
        i == j
    } else {
        match spec_next_token(s, i) {
            NextOutcome::Tok { t, end } => t == ts[0] && i < end <= s.len() && lexes_to(
                s,
                end,
                ts.drop_first(),
                j,
            ),
            _ => false,
        }
    }
}

proof fn lemma_lexes_single(s: Seq<char>, i: int, t: TokenModel, end: int)
    requires
        spec_next_token(s, i) == (NextOutcome::Tok { t, end }),
        i < end <= s.len(),
    ensures
        lexes_to(s, i, seq![t], end),
{
    assert(seq![t].drop_first() =~= Seq::<TokenModel>::empty());
    assert(lexes_to(s, end, Seq::<TokenModel>::empty(), end));
    assert(seq![t][0] == t);
}

proof fn lemma_lexes_concat(s: Seq<char>, i: int, ts1: Seq<TokenModel>, m: int, ts2: Seq<
    TokenModel,
>, j: int)
    requires
        lexes_to(s, i, ts1, m),
        lexes_to(s, m, ts2, j),
    ensures
        lexes_to(s, i, ts1 + ts2, j),
    decreases ts1.len(),
{
    if ts1.len() == 0 {
        assert(ts1 + ts2 =~= ts2);
    } else {
        match spec_next_token(s, i) {
            NextOutcome::Tok { t, end } => {
                lemma_lexes_concat(s, end, ts1.drop_first(), m, ts2, j);
                assert((ts1 + ts2).drop_first() =~= ts1.drop_first() + ts2);
                assert((ts1 + ts2)[0] == ts1[0]);
            },
            _ => {},
        }
    }
}

/// A stretch of tokens found one by one is an initial stretch of the lexing
/// of the whole text.
proof fn lemma_lexes_tokenize(s: Seq<char>, i: int, ts: Seq<TokenModel>, j: int, rest: Seq<
    TokenModel,
>)
    requires
        lexes_to(s, i, ts, j),
        spec_tokenize_from(s, j) == Ok::<Seq<TokenModel>, ErrorModel>(rest),
    ensures
        spec_tokenize_from(s, i) == Ok::<Seq<TokenModel>, ErrorModel>(ts + rest),
    decreases ts.len(),
{
    if ts.len() == 0 {
        assert(ts + rest =~= rest);
    } else {
        match spec_next_token(s, i) {
            NextOutcome::Tok { t, end } => {
                lemma_lexes_tokenize(s, end, ts.drop_first(), j, rest);
                assert(seq![t] + (ts.drop_first() + rest) =~= ts + rest);
            },
            _ => {},
        }
    }
}

/// Lexing is the same from two positions that whitespace-skip to the same
/// place.
proof fn lemma_lexes_skip_front(s: Seq<char>, i: int, i2: int, ts: Seq<TokenModel>, j: int)
    requires
        ts.len() > 0,
        i <= i2,
        lexes_to(s, i2, ts, j),
        spec_skip_ws(s, i) == spec_skip_ws(s, i2),
    ensures
        lexes_to(s, i, ts, j),
{
    assert(spec_next_token(s, i) == spec_next_token(s, i2));
}

/// The operator symbols are one-character tokens and spell themselves back.
proof fn lemma_symbol_of_op(op: Operator)
    ensures
        is_symbol_char(op.spec_symbol()),
        !is_whitespace_char(op.spec_symbol()),
        !is_number_start(op.spec_symbol()),
        symbol_token(op.spec_symbol()) == TokenModel::Operator(op),
{
    match op {
        Operator::Add => {},
        Operator::Subtract => {},
        Operator::Multiply => {},
        Operator::Divide => {},
        Operator::Power => {},
    }
}

/// The canonical text may be followed by a space, a right parenthesis, or the
/// end of the text without disturbing its last token.
spec fn render_follow(s: Seq<char>, j: int) -> bool {
    ||| j == s.len()
    ||| (0 <= j < s.len() && (s[j] == ' ' || s[j] == ')'))
}

/// Lexing the canonical text of a well-formed tree, wherever it stands in a
/// larger text, finds exactly the tree's token spelling.
proof fn lemma_lex_render_at(e: ExprModel, s: Seq<char>, i: int)
    requires
        wf_expr(e),
        0 <= i,
        i + spec_render(e).len() <= s.len(),
        s.subrange(i, i + spec_render(e).len()) == spec_render(e),
        render_follow(s, i + spec_render(e).len()),
    ensures
        lexes_to(s, i, toks_of(e), i + spec_render(e).len()),
    decreases e,
{
    let rl = spec_render(e).len() as int;
    let j = i + rl;
    assert forall|k: int| 0 <= k < rl implies #[trigger] s[i + k] == spec_render(e)[k] by {
        assert(s.subrange(i, i + rl)[k] == s[i + k]);
    }
    match e {
        ExprModel::Literal(text) => {
            lemma_next_number_at(s, i, j);
            lemma_lexes_single(s, i, TokenModel::Number(text), j);
        },
        ExprModel::Scientific { base, exponent } => {
            lemma_next_scientific_at(s, i, j, base, exponent);
            lemma_lexes_single(s, i, (TokenModel::Scientific { base, exponent }), j);
        },
        ExprModel::UnaryMinus(operand) => {
            let rx = spec_render(*operand);
            let head = seq!['-', '('];
            assert(spec_render(e) == head + rx + seq![')']);
            assert(rl == 3 + rx.len());
            assert(s[i + 0] == spec_render(e)[0]);
            assert((head + rx + seq![')'])[0] == '-');
            assert(s[i + 1] == spec_render(e)[1]);
            assert((head + rx + seq![')'])[1] == '(');
            assert(s[i + (2 + rx.len())] == spec_render(e)[2 + rx.len() as int]);
            assert((head + rx + seq![')'])[2 + rx.len() as int] == ')');
            assert(s[j - 1] == ')');
            assert(s.subrange(i + 2, i + 2 + rx.len()) =~= rx) by {
                assert forall|k: int| 0 <= k < rx.len() implies s.subrange(
                    i + 2,
                    i + 2 + rx.len(),
                )[k] == rx[k] by {
                    assert(s.subrange(i + 2, i + 2 + rx.len())[k] == s[i + (2 + k)]);
                    assert(s[i + (2 + k)] == spec_render(e)[2 + k]);
                    assert((head + rx + seq![')'])[2 + k] == rx[k]);
                }
            }
            lemma_lex_render_at(*operand, s, i + 2);
            lemma_next_symbol(s, i);
            lemma_next_symbol(s, i + 1);
            lemma_next_symbol(s, j - 1);
            lemma_lexes_single(s, i, TokenModel::Operator(Operator::Subtract), i + 1);
            lemma_lexes_single(s, i + 1, TokenModel::LParen, i + 2);
            lemma_lexes_single(s, j - 1, TokenModel::RParen, j);
            lemma_lexes_concat(
                s,
                i + 1,
                seq![TokenModel::LParen],
                i + 2,
                toks_of(*operand),
                j - 1,
            );
            lemma_lexes_concat(
                s,
                i,
                seq![TokenModel::Operator(Operator::Subtract)],
                i + 1,
                seq![TokenModel::LParen] + toks_of(*operand),
                j - 1,
            );
            lemma_lexes_concat(
                s,
                i,
                seq![TokenModel::Operator(Operator::Subtract)] + (seq![TokenModel::LParen]
                    + toks_of(*operand)),
                j - 1,
                seq![TokenModel::RParen],
                j,
            );
            assert(toks_of(e) =~= seq![TokenModel::Operator(Operator::Subtract)] + (seq![
                TokenModel::LParen,
            ] + toks_of(*operand)) + seq![TokenModel::RParen]);
        },
        ExprModel::BinOp { op, lhs, rhs } => {
            let l = *lhs;
            let r = *rhs;
            let lw = parens_on_left(l, op);
            let rw = parens_on_right(r, op);
            let rle: Seq<char> = if lw {
                seq!['('] + spec_render(l) + seq![')']
            } else {
                spec_render(l)
            };
            let rri: Seq<char> = if rw {
                seq!['('] + spec_render(r) + seq![')']
            } else {
                spec_render(r)
            };
            let mid = seq![' ', op.spec_symbol(), ' '];
            assert(spec_render(e) == rle + mid + rri);
            assert(rl == rle.len() + 3 + rri.len());
            let p = i + rle.len() as int;
            lemma_symbol_of_op(op);
            assert(s[i + rle.len()] == spec_render(e)[rle.len() as int]);
            assert((rle + mid + rri)[rle.len() as int] == ' ');
            assert(s[p] == ' ');
            assert(s[i + (rle.len() + 1)] == spec_render(e)[rle.len() as int + 1]);
            assert((rle + mid + rri)[rle.len() as int + 1] == op.spec_symbol());
            assert(s[p + 1] == op.spec_symbol());
            assert(s[i + (rle.len() + 2)] == spec_render(e)[rle.len() as int + 2]);
            assert((rle + mid + rri)[rle.len() as int + 2] == ' ');
            assert(s[p + 2] == ' ');
            // the left part
            let ltoks: Seq<TokenModel> = if lw {
                seq![TokenModel::LParen] + toks_of(l) + seq![TokenModel::RParen]
            } else {
                toks_of(l)
            };
            assert(toks_of(e) == ltoks + seq![TokenModel::Operator(op)] + (if rw {
                seq![TokenModel::LParen] + toks_of(r) + seq![TokenModel::RParen]
            } else {
                toks_of(r)
            }));
            if lw {
                let rxl = spec_render(l);
                assert(s[i + 0] == spec_render(e)[0]);
                assert((rle + mid + rri)[0] == rle[0]);
                assert((seq!['('] + rxl + seq![')'])[0] == '(');
                assert(s[i] == '(');
                assert(s[i + (1 + rxl.len())] == spec_render(e)[1 + rxl.len() as int]);
                assert((rle + mid + rri)[1 + rxl.len() as int] == rle[1 + rxl.len() as int]);
                assert((seq!['('] + rxl + seq![')'])[1 + rxl.len() as int] == ')');
                assert(s[p - 1] == ')');
                assert(s.subrange(i + 1, i + 1 + rxl.len()) =~= rxl) by {
                    assert forall|k: int| 0 <= k < rxl.len() implies s.subrange(
                        i + 1,
                        i + 1 + rxl.len(),
                    )[k] == rxl[k] by {
                        assert(s.subrange(i + 1, i + 1 + rxl.len())[k] == s[i + (1 + k)]);
                        assert(s[i + (1 + k)] == spec_render(e)[1 + k]);
                        assert((rle + mid + rri)[1 + k] == rle[1 + k]);
                        assert((seq!['('] + rxl + seq![')'])[1 + k] == rxl[k]);
                    }
                }
                lemma_lex_render_at(l, s, i + 1);
                lemma_next_symbol(s, i);
                lemma_next_symbol(s, p - 1);
                lemma_lexes_single(s, i, TokenModel::LParen, i + 1);
                lemma_lexes_single(s, p - 1, TokenModel::RParen, p);
                lemma_lexes_concat(s, i, seq![TokenModel::LParen], i + 1, toks_of(l), p - 1);
                lemma_lexes_concat(
                    s,
                    i,
                    seq![TokenModel::LParen] + toks_of(l),
                    p - 1,
                    seq![TokenModel::RParen],
                    p,
                );
                assert(ltoks =~= seq![TokenModel::LParen] + toks_of(l) + seq![
                    TokenModel::RParen,
                ]);
                assert(lexes_to(s, i, ltoks, p));
            } else {
                assert(s.subrange(i, i + rle.len()) =~= rle) by {
                    assert forall|k: int| 0 <= k < rle.len() implies s.subrange(
                        i,
                        i + rle.len(),
                    )[k] == rle[k] by {
                        assert(s.subrange(i, i + rle.len())[k] == s[i + k]);
                        assert(s[i + k] == spec_render(e)[k]);
                        assert((rle + mid + rri)[k] == rle[k]);
                    }
                }
                lemma_lex_render_at(l, s, i);
                assert(lexes_to(s, i, ltoks, p));
            }
            // the operator, behind its space
            assert(spec_skip_ws(s, p) == spec_skip_ws(s, p + 1));
            assert(spec_skip_ws(s, p + 1) == p + 1);
            assert(spec_next_token(s, p) == (NextOutcome::Tok {
                t: TokenModel::Operator(op),
                end: p + 2,
            }));
            lemma_lexes_single(s, p, TokenModel::Operator(op), p + 2);
            // the right part, behind its space
            let rtoks: Seq<TokenModel> = if rw {
                seq![TokenModel::LParen] + toks_of(r) + seq![TokenModel::RParen]
            } else {
                toks_of(r)
            };
            if rw {
                let rxr = spec_render(r);
                assert(s[i + (rle.len() + 3)] == spec_render(e)[rle.len() as int + 3]);
                assert((rle + mid + rri)[rle.len() as int + 3] == rri[0]);
                assert((seq!['('] + rxr + seq![')'])[0] == '(');
                assert(s[p + 3] == '(');
                assert(s[i + (rle.len() + 4 + rxr.len())] == spec_render(e)[rle.len() as int + 4
                    + rxr.len()]);
                assert((rle + mid + rri)[rle.len() as int + 4 + rxr.len()] == rri[1 + rxr.len() as int]);
                assert((seq!['('] + rxr + seq![')'])[1 + rxr.len() as int] == ')');
                assert(s[j - 1] == ')');
                assert(s.subrange(p + 4, p + 4 + rxr.len()) =~= rxr) by {
                    assert forall|k: int| 0 <= k < rxr.len() implies s.subrange(
                        p + 4,
                        p + 4 + rxr.len(),
                    )[k] == rxr[k] by {
                        assert(s.subrange(p + 4, p + 4 + rxr.len())[k] == s[i + (rle.len() + 4
                            + k)]);
                        assert(s[i + (rle.len() + 4 + k)] == spec_render(e)[rle.len() as int + 4
                            + k]);
                        assert((rle + mid + rri)[rle.len() as int + 4 + k] == rri[1 + k]);
                        assert((seq!['('] + rxr + seq![')'])[1 + k] == rxr[k]);
                    }
                }
                lemma_lex_render_at(r, s, p + 4);
                lemma_next_symbol(s, p + 3);
                lemma_next_symbol(s, j - 1);
                lemma_lexes_single(s, p + 3, TokenModel::LParen, p + 4);
                lemma_lexes_single(s, j - 1, TokenModel::RParen, j);
                lemma_lexes_concat(
                    s,
                    p + 3,
                    seq![TokenModel::LParen],
                    p + 4,
                    toks_of(r),
                    j - 1,
                );
                lemma_lexes_concat(
                    s,
                    p + 3,
                    seq![TokenModel::LParen] + toks_of(r),
                    j - 1,
                    seq![TokenModel::RParen],
                    j,
                );
                assert(rtoks =~= seq![TokenModel::LParen] + toks_of(r) + seq![
                    TokenModel::RParen,
                ]);
                assert(lexes_to(s, p + 3, rtoks, j));
            } else {
                let rxr = spec_render(r);
                assert(s.subrange(p + 3, p + 3 + rxr.len()) =~= rxr) by {
                    assert forall|k: int| 0 <= k < rxr.len() implies s.subrange(
                        p + 3,
                        p + 3 + rxr.len(),
                    )[k] == rxr[k] by {
                        assert(s.subrange(p + 3, p + 3 + rxr.len())[k] == s[i + (rle.len() + 3
                            + k)]);
                        assert(s[i + (rle.len() + 3 + k)] == spec_render(e)[rle.len() as int + 3
                            + k]);
                        assert((rle + mid + rri)[rle.len() as int + 3 + k] == rri[k]);
                    }
                }
                lemma_lex_render_at(r, s, p + 3);
                assert(lexes_to(s, p + 3, rtoks, j));
            }
            crate::expr::lemma_toks_of_nonempty(r);
            assert(rtoks.len() > 0);
            assert(spec_skip_ws(s, p + 2) == spec_skip_ws(s, p + 3));
            lemma_lexes_skip_front(s, p + 2, p + 3, rtoks, j);
            // the three stretches in a row
            lemma_lexes_concat(s, i, ltoks, p, seq![TokenModel::Operator(op)], p + 2);
            lemma_lexes_concat(
                s,
                i,
                ltoks + seq![TokenModel::Operator(op)],
                p + 2,
                rtoks,
                j,
            );
            assert(toks_of(e) =~= ltoks + seq![TokenModel::Operator(op)] + rtoks);
        },
        _ => {},
    }
}

/// Law (round trip, lexer half): the canonical text of a well-formed tree
/// lexes to exactly the tree's token spelling.
pub proof fn lemma_tokenize_render(e: ExprModel)
    requires
        wf_expr(e),
    ensures
        spec_tokenize(spec_render(e)) == Ok::<Seq<TokenModel>, ErrorModel>(toks_of(e)),
{
    let s = spec_render(e);
    assert(s.subrange(0, s.len() as int) =~= s);
    lemma_lex_render_at(e, s, 0);
    assert(spec_skip_ws(s, s.len() as int) == s.len());
    assert(spec_tokenize_from(s, s.len() as int) == Ok::<Seq<TokenModel>, ErrorModel>(
        Seq::<TokenModel>::empty(),
    ));
    lemma_lexes_tokenize(s, 0, toks_of(e), s.len() as int, Seq::<TokenModel>::empty());
    assert(toks_of(e) + Seq::<TokenModel>::empty() =~= toks_of(e));
}

/// Law (render round trip): rendering any well-formed tree and lexing and
/// parsing the text back reproduces exactly the same tree.
pub proof fn lemma_render_round_trip(e: ExprModel)
    requires
        wf_expr(e),
    ensures
        spec_text_to_expr(spec_render(e)) == Ok::<ExprModel, ErrorModel>(e),
{
    lemma_tokenize_render(e);
    lemma_parse_token_render(e);
}

/// Law: every tree the pipeline builds from a text is well-formed, so the
/// render round trip applies to every tree that parsing ever returns.
pub proof fn lemma_text_to_expr_wf(s: Seq<char>)
    ensures
        spec_text_to_expr(s) matches Ok(e) ==> wf_expr(e),
{
    crate::tokenizer::lemma_tokenize_wf(s, 0);
    match spec_tokenize(s) {
        Ok(ts) => {
            crate::parser::lemma_parse_wf(ts);
        },
        Err(_) => {},
    }
}

} // verus!
