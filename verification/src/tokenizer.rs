use crate::error::{ErrorModel, MathError};
use crate::numtext::{
    check_float_text, copy_range, count_dots, find_exp, is_digit_char, is_exp_char, is_float_char,
    is_float_text,
    lemma_count_dots_concat, lemma_count_dots_nonneg, lemma_count_dots_single, lemma_find_exp,
    parse_i32_text, push_char,
    string_from_chars,
};
use crate::token::{tokens_view, Operator, Token, TokenModel};
use vstd::prelude::*;
use vstd::std_specs::iter::IteratorSpec;

verus! {

broadcast use vstd::string::group_string_axioms;

/// The characters that separate tokens, exactly the Unicode white-space set
/// that `char::is_whitespace` accepts.
pub open spec fn is_whitespace_char(c: char) -> bool {
    ||| c == ' '
    ||| '\u{0009}' <= c && c <= '\u{000D}'
    ||| c == '\u{0085}'
    ||| c == '\u{00A0}'
    ||| c == '\u{1680}'
    ||| '\u{2000}' <= c && c <= '\u{200A}'
    ||| c == '\u{2028}'
    ||| c == '\u{2029}'
    ||| c == '\u{202F}'
    ||| c == '\u{205F}'
    ||| c == '\u{3000}'
}

/// The characters that are one-character tokens.
pub open spec fn is_symbol_char(c: char) -> bool {
    c == '+' || c == '-' || c == '*' || c == '/' || c == '^' || c == '(' || c == ')'
}

/// The characters that begin number scanning.
pub open spec fn is_number_start(c: char) -> bool {
    is_digit_char(c) || c == '.' || c == 'e' || c == 'E'
}

/// The token of a one-character symbol.
pub open spec fn symbol_token(c: char) -> TokenModel {
    if c == '+' {
        TokenModel::Operator(Operator::Add)
    } else if c == '-' {
        TokenModel::Operator(Operator::Subtract)
    } else if c == '*' {
        TokenModel::Operator(Operator::Multiply)
    } else if c == '/' {
        TokenModel::Operator(Operator::Divide)
    } else if c == '^' {
        TokenModel::Operator(Operator::Power)
    } else if c == '(' {
        TokenModel::LParen
    } else {
        TokenModel::RParen
    }
}

/// The first position at or after `i` whose character is not whitespace.
pub open spec fn spec_skip_ws(s: Seq<char>, i: int) -> int
    decreases s.len() - i,
{
    if i < 0 || i >= s.len() {
        i
    } else if is_whitespace_char(s[i]) {
        spec_skip_ws(s, i + 1)
    } else {
        i
    }
}

pub proof fn lemma_skip_ws(s: Seq<char>, i: int)
    requires
        0 <= i <= s.len(),
    ensures
        i <= spec_skip_ws(s, i) <= s.len(),
        spec_skip_ws(s, i) < s.len() ==> !is_whitespace_char(s[spec_skip_ws(s, i)]),
    decreases s.len() - i,
{
    if i < s.len() && is_whitespace_char(s[i]) {
        lemma_skip_ws(s, i + 1);
    }
}

/// What number scanning leaves behind: the accumulated text and the position
/// of the first character after it, or the error that stopped it.
pub enum ScanOutcome {
    Done { text: Seq<char>, end: int },
    Fail(ErrorModel),
}

/// One step of number scanning per character: digits accumulate; a second
/// decimal point or a second `e`/`E` is an error; a `+`/`-` directly after
/// `e`/`E` is taken as the exponent sign; whitespace, a symbol or the end of
/// input stops the scan; anything else fails with the partial text.
pub open spec fn spec_scan_number(
    s: Seq<char>,
    i: int,
    acc: Seq<char>,
    has_decimal: bool,
    has_exp: bool,
) -> ScanOutcome
    decreases s.len() - i,
{
    if i < 0 || i >= s.len() {
        ScanOutcome::Done { text: acc, end: i }
    } else {
        let c = s[i];
        if is_digit_char(c) {
            spec_scan_number(s, i + 1, acc.push(c), has_decimal, has_exp)
        } else if c == '.' {
            if has_decimal {
                ScanOutcome::Fail(
                    ErrorModel::InvalidExpression("Multiple decimal points in number"@),
                )
            } else {
                spec_scan_number(s, i + 1, acc.push(c), true, has_exp)
            }
        } else if is_exp_char(c) {
            if has_exp {
                ScanOutcome::Fail(
                    ErrorModel::InvalidExpression("Multiple scientific notation in number"@),
                )
            } else if i + 1 < s.len() && (s[i + 1] == '+' || s[i + 1] == '-') {
                spec_scan_number(s, i + 2, acc.push(c).push(s[i + 1]), has_decimal, true)
            } else {
                spec_scan_number(s, i + 1, acc.push(c), has_decimal, true)
            }
        } else if is_whitespace_char(c) || is_symbol_char(c) {
            ScanOutcome::Done { text: acc, end: i }
        } else {
            ScanOutcome::Fail(ErrorModel::InvalidNumber(acc))
        }
    }
}

pub proof fn lemma_scan_number(s: Seq<char>, i: int, acc: Seq<char>, has_decimal: bool, has_exp: bool)
    requires
        0 <= i <= s.len(),
    ensures
        match spec_scan_number(s, i, acc, has_decimal, has_exp) {
            ScanOutcome::Done { text, end } => i <= end <= s.len(),
            ScanOutcome::Fail(_) => true,
        },
    decreases s.len() - i,
{
    if i < s.len() {
        let c = s[i];
        if is_digit_char(c) {
            lemma_scan_number(s, i + 1, acc.push(c), has_decimal, has_exp);
        } else if c == '.' {
            if !has_decimal {
                lemma_scan_number(s, i + 1, acc.push(c), true, has_exp);
            }
        } else if is_exp_char(c) {
            if !has_exp {
                if i + 1 < s.len() && (s[i + 1] == '+' || s[i + 1] == '-') {
                    lemma_scan_number(s, i + 2, acc.push(c).push(s[i + 1]), has_decimal, true);
                } else {
                    lemma_scan_number(s, i + 1, acc.push(c), has_decimal, true);
                }
            }
        }
    }
}

/// Scanning walks straight through a stretch of digits and decimal points,
/// accumulating it, as long as it does not bring a second decimal point.
pub proof fn lemma_scan_region(
    s: Seq<char>,
    i: int,
    j: int,
    acc: Seq<char>,
    has_decimal: bool,
    has_exp: bool,
)
    requires
        0 <= i <= j <= s.len(),
        forall|m: int| i <= m < j ==> is_float_char(#[trigger] s[m]),
        has_decimal <==> count_dots(acc) >= 1,
        count_dots(acc) + count_dots(s.subrange(i, j)) <= 1,
    ensures
        spec_scan_number(s, i, acc, has_decimal, has_exp) == spec_scan_number(
            s,
            j,
            acc + s.subrange(i, j),
            count_dots(acc + s.subrange(i, j)) >= 1,
            has_exp,
        ),
    decreases j - i,
{
    if i == j {
        assert(acc + s.subrange(i, j) =~= acc);
    } else {
        let c = s[i];
        let tail = s.subrange(i + 1, j);
        assert(s.subrange(i, j) =~= seq![c] + tail);
        lemma_count_dots_concat(seq![c], tail);
        lemma_count_dots_single(c);
        lemma_count_dots_concat(acc, seq![c]);
        crate::numtext::lemma_count_dots_nonneg(tail);
        crate::numtext::lemma_count_dots_nonneg(acc);
        assert(acc.push(c) =~= acc + seq![c]);
        assert(!is_exp_char(c) && !is_whitespace_char(c) && !is_symbol_char(c));
        if is_digit_char(c) {
            lemma_scan_region(s, i + 1, j, acc.push(c), has_decimal, has_exp);
        } else {
            assert(c == '.');
            assert(!has_decimal);
            lemma_scan_region(s, i + 1, j, acc.push(c), true, has_exp);
        }
        assert(acc.push(c) + tail =~= acc + s.subrange(i, j));
    }
}

/// A well-formed float literal is nonempty.
pub proof fn lemma_float_text_nonempty(t: Seq<char>)
    requires
        is_float_text(t),
    ensures
        t.len() >= 1,
{
    if t.len() == 0 {
        assert(crate::numtext::count_digits(t) == 0);
    }
}

/// At a position where a well-formed float literal runs up to a stopping
/// character (whitespace, a symbol, or the end of input), the next token is
/// that number.
pub proof fn lemma_next_number_at(s: Seq<char>, i: int, j: int)
    requires
        0 <= i <= j <= s.len(),
        is_float_text(s.subrange(i, j)),
        j == s.len() || is_whitespace_char(s[j]) || is_symbol_char(s[j]),
    ensures
        spec_next_token(s, i) == (NextOutcome::Tok {
            t: TokenModel::Number(s.subrange(i, j)),
            end: j,
        }),
{
    let t = s.subrange(i, j);
    lemma_float_text_nonempty(t);
    assert(s[i] == t[0]);
    assert(is_float_char(t[0]));
    assert(spec_skip_ws(s, i) == i);
    assert forall|m: int| i <= m < j implies is_float_char(#[trigger] s[m]) by {
        assert(s[m] == t[m - i]);
    }
    lemma_scan_region(s, i, j, Seq::<char>::empty(), false, false);
    assert(Seq::<char>::empty() + t =~= t);
    assert(spec_scan_number(s, i, Seq::<char>::empty(), false, false) == (ScanOutcome::Done {
        text: t,
        end: j,
    }));
    lemma_find_exp(t, 0);
    assert(find_exp(t, 0) == t.len()) by {
        let f = find_exp(t, 0);
        if f < t.len() {
            assert(is_float_char(t[f]));
        }
    }
    assert(spec_classify_number(t) == Ok::<TokenModel, ErrorModel>(TokenModel::Number(t)));
}

/// At a position where the text `<base>e<exponent>` of a well-formed
/// scientific literal runs up to a stopping character, the next token is that
/// scientific literal.
pub proof fn lemma_next_scientific_at(s: Seq<char>, i: int, j: int, b: Seq<char>, x: int)
    requires
        0 <= i <= j <= s.len(),
        is_float_text(b),
        -0x8000_0000 <= x <= 0x7fff_ffff,
        s.subrange(i, j) == b + seq!['e'] + crate::numtext::int_text(x),
        j == s.len() || is_whitespace_char(s[j]) || is_symbol_char(s[j]),
    ensures
        spec_next_token(s, i) == (NextOutcome::Tok {
            t: TokenModel::Scientific { base: b, exponent: x },
            end: j,
        }),
{
    let d = crate::numtext::int_text(x);
    let t = s.subrange(i, j);
    crate::numtext::lemma_int_text(x);
    lemma_float_text_nonempty(b);
    assert(t.len() == b.len() + 1 + d.len());
    assert(j - i == t.len());
    assert forall|m: int| 0 <= m < t.len() implies #[trigger] s[i + m] == t[m] by {
        assert(t[m] == s.subrange(i, j)[m]);
    }
    assert forall|m: int| 0 <= m < b.len() implies t[m] == b[m] by {}
    assert(t[b.len() as int] == 'e');
    assert forall|m: int| 0 <= m < d.len() implies t[b.len() + 1 + m] == d[m] by {}
    // lexing begins right at the base
    assert(s[i + 0] == t[0]);
    assert(is_float_char(t[0]));
    assert(spec_skip_ws(s, i) == i);
    // the scan walks through the base
    let ib = i + b.len() as int;
    assert(s.subrange(i, ib) =~= b) by {
        assert forall|m: int| 0 <= m < b.len() implies s.subrange(i, ib)[m] == b[m] by {
            assert(s.subrange(i, ib)[m] == s[i + m]);
            assert(s[i + m] == t[m]);
        }
    }
    lemma_count_dots_nonneg(b);
    assert forall|m: int| i <= m < ib implies is_float_char(#[trigger] s[m]) by {
        assert(s[m] == t[m - i]);
        assert(t[m - i] == b[m - i]);
    }
    lemma_scan_region(s, i, ib, Seq::<char>::empty(), false, false);
    let acc1 = Seq::<char>::empty() + s.subrange(i, ib);
    assert(acc1 =~= b);
    let hd = count_dots(b) >= 1;
    assert(spec_scan_number(s, i, Seq::<char>::empty(), false, false) == spec_scan_number(
        s,
        ib,
        b,
        hd,
        false,
    ));
    // then takes the `e`, and the sign when the exponent has one
    assert(s[ib] == t[b.len() as int]);
    assert(s[ib + 1] == t[b.len() as int + 1]);
    assert(t[b.len() as int + 1] == d[0]);
    let i2: int = if d[0] == '-' {
        ib + 2
    } else {
        ib + 1
    };
    let acc2: Seq<char> = if d[0] == '-' {
        b.push('e').push('-')
    } else {
        b.push('e')
    };
    lemma_count_dots_concat(b, seq!['e']);
    lemma_count_dots_single('e');
    assert(b.push('e') =~= b + seq!['e']);
    lemma_count_dots_concat(b.push('e'), seq!['-']);
    lemma_count_dots_single('-');
    assert(b.push('e').push('-') =~= b.push('e') + seq!['-']);
    assert(count_dots(acc2) == count_dots(b));
    if d[0] == '-' {
        assert(spec_scan_number(s, ib, b, hd, false) == spec_scan_number(s, i2, acc2, hd, true));
    } else {
        assert(is_digit_char(d[0]));
        assert(spec_scan_number(s, ib, b, hd, false) == spec_scan_number(s, i2, acc2, hd, true));
    }
    // and walks through the exponent digits to the stopping character
    let region = s.subrange(i2, j);
    assert forall|m: int| i2 <= m < j implies is_digit_char(#[trigger] s[m]) by {
        assert(s[m] == t[m - i]);
        assert(t[m - i] == d[m - i - b.len() - 1]);
    }
    assert(crate::numtext::all_digits(region)) by {
        assert forall|m: int| 0 <= m < region.len() implies is_digit_char(
            #[trigger] region[m],
        ) by {
            assert(region[m] == s[i2 + m]);
        }
    }
    crate::numtext::lemma_count_dots_all_digits(region);
    lemma_scan_region(s, i2, j, acc2, hd, true);
    let acc3 = acc2 + region;
    assert(acc3 =~= t) by {
        assert forall|m: int| 0 <= m < t.len() implies acc3[m] == t[m] by {
            if m < acc2.len() {
            } else {
                assert(acc3[m] == region[m - acc2.len()]);
                assert(region[m - acc2.len()] == s[i2 + (m - acc2.len())]);
                assert(s[i2 + (m - acc2.len())] == t[m]);
            }
        }
    }
    assert(spec_scan_number(s, i, Seq::<char>::empty(), false, false) == (ScanOutcome::Done {
        text: t,
        end: j,
    }));
    // the text splits back at the `e`
    lemma_find_exp(t, 0);
    assert(find_exp(t, 0) == b.len()) by {
        let f = find_exp(t, 0);
        if f < b.len() {
            assert(is_float_char(t[f]));
        }
        if b.len() < f {
            assert(!is_exp_char(t[b.len() as int]));
        }
    }
    assert(t.subrange(0, b.len() as int) =~= b);
    assert(t.subrange(b.len() as int + 1, t.len() as int) =~= d);
    assert(spec_classify_number(t) == Ok::<TokenModel, ErrorModel>(TokenModel::Scientific {
        base: b,
        exponent: x,
    }));
}

/// At a non-whitespace symbol character, the next token is that symbol.
pub proof fn lemma_next_symbol(s: Seq<char>, i: int)
    requires
        0 <= i < s.len(),
        is_symbol_char(s[i]),
    ensures
        spec_next_token(s, i) == (NextOutcome::Tok { t: symbol_token(s[i]), end: i + 1 }),
{
    assert(!is_whitespace_char(s[i]));
    assert(spec_skip_ws(s, i) == i);
    assert(!is_number_start(s[i]));
}

/// Reads a scanned text as a token. A text with an `e`/`E` splits there into
/// a float base and a signed 32-bit exponent, and either part failing makes
/// the whole text an invalid number; a plain text must be a well-formed float
/// literal.
pub open spec fn spec_classify_number(text: Seq<char>) -> Result<TokenModel, ErrorModel> {
    if text.len() == 0 {
        Err(ErrorModel::InvalidExpression("Empty number"@))
    } else if find_exp(text, 0) < text.len() {
        let k = find_exp(text, 0);
        let base = text.subrange(0, k);
        let exponent_text = text.subrange(k + 1, text.len() as int);
        if !is_float_text(base) {
            Err(ErrorModel::InvalidNumber(text))
        } else if !crate::numtext::is_i32_text(exponent_text) {
            Err(ErrorModel::InvalidNumber(text))
        } else {
            Ok(
                TokenModel::Scientific {
                    base,
                    exponent: crate::numtext::i32_text_value(exponent_text),
                },
            )
        }
    } else if is_float_text(text) {
        Ok(TokenModel::Number(text))
    } else {
        Err(ErrorModel::InvalidNumber(text))
    }
}

/// What one lexing step finds at position `i`: the end of input, one token
/// and the position after it, or an error.
pub enum NextOutcome {
    Eof,
    Tok { t: TokenModel, end: int },
    Fail(ErrorModel),
}

pub open spec fn spec_next_token(s: Seq<char>, i: int) -> NextOutcome {
    let j = spec_skip_ws(s, i);
    if j >= s.len() {
        NextOutcome::Eof
    } else {
        let c = s[j];
        if is_number_start(c) {
            match spec_scan_number(s, j, Seq::<char>::empty(), false, false) {
                ScanOutcome::Fail(e) => NextOutcome::Fail(e),
                ScanOutcome::Done { text, end } => match spec_classify_number(text) {
                    Ok(t) => NextOutcome::Tok { t, end },
                    Err(e) => NextOutcome::Fail(e),
                },
            }
        } else if is_symbol_char(c) {
            NextOutcome::Tok { t: symbol_token(c), end: j + 1 }
        } else {
            NextOutcome::Fail(ErrorModel::InvalidExpression("Unexpected character: "@.push(c)))
        }
    }
}

/// The tokens of the input from position `i` on: the unique token sequence
/// the lexer yields, or the first error it meets.
pub open spec fn spec_tokenize_from(s: Seq<char>, i: int) -> Result<Seq<TokenModel>, ErrorModel>
    decreases s.len() - i,
{
    match spec_next_token(s, i) {
        NextOutcome::Eof => Ok(Seq::<TokenModel>::empty()),
        NextOutcome::Fail(e) => Err(e),
        NextOutcome::Tok { t, end } => if i < end && end <= s.len() {
            match spec_tokenize_from(s, end) {
                Ok(rest) => Ok(seq![t] + rest),
                Err(e) => Err(e),
            }
        } else {
            // a token always ends right of where it began, so this arm is
            // never the value of a lexing step
            Err(ErrorModel::UnmatchedParenthesis)
        },
    }
}

/// The tokens of a whole input text.
pub open spec fn spec_tokenize(s: Seq<char>) -> Result<Seq<TokenModel>, ErrorModel> {
    spec_tokenize_from(s, 0)
}

/// The lexer only yields well-formed tokens: readable literal texts and
/// exponents that fit in a signed 32-bit integer.
pub proof fn lemma_tokenize_wf(s: Seq<char>, i: int)
    ensures
        spec_tokenize_from(s, i) matches Ok(ts) ==> crate::token::wf_tokens(ts),
    decreases s.len() - i,
{
    match spec_next_token(s, i) {
        NextOutcome::Eof => {
            assert(crate::token::wf_tokens(Seq::<TokenModel>::empty()));
        },
        NextOutcome::Fail(_) => {},
        NextOutcome::Tok { t, end } => {
            if i < end && end <= s.len() {
                lemma_tokenize_wf(s, end);
                assert(crate::token::wf_token(t)) by {
                    let j = spec_skip_ws(s, i);
                    if j < s.len() && is_number_start(s[j]) {
                        match spec_scan_number(s, j, Seq::<char>::empty(), false, false) {
                            ScanOutcome::Done { text, end: _ } => {
                                if text.len() > 0 && find_exp(text, 0) < text.len() {
                                    let k = find_exp(text, 0);
                                    let exponent_text = text.subrange(k + 1, text.len() as int);
                                    if is_float_text(text.subrange(0, k))
                                        && crate::numtext::is_i32_text(exponent_text) {
                                        crate::numtext::lemma_digits_value_nonneg(
                                            crate::numtext::exponent_digits(exponent_text),
                                        );
                                    }
                                }
                            },
                            ScanOutcome::Fail(_) => {},
                        }
                    }
                }
                match spec_tokenize_from(s, end) {
                    Ok(rest) => {
                        assert forall|k: int|
                            0 <= k < (seq![t] + rest).len() implies #[trigger] crate::token::wf_token(
                            (seq![t] + rest)[k],
                        ) by {
                            if k == 0 {
                                assert((seq![t] + rest)[0] == t);
                            } else {
                                assert((seq![t] + rest)[k] == rest[k - 1]);
                            }
                        }
                    },
                    Err(_) => {},
                }
            }
        },
    }
}

/// How an executable lexing result corresponds to its model.
pub open spec fn tokens_match(
    r: Result<Vec<Token>, MathError>,
    m: Result<Seq<TokenModel>, ErrorModel>,
) -> bool {
    match r {
        Ok(v) => m matches Ok(ts) && tokens_view(v@) == ts,
        Err(e) => m matches Err(em) && e@ == em,
    }
}

spec fn lift_tokens(
    prefix: Seq<TokenModel>,
    rest: Result<Seq<TokenModel>, ErrorModel>,
) -> Result<Seq<TokenModel>, ErrorModel> {
    match rest {
        Ok(ts) => Ok(prefix + ts),
        Err(e) => Err(e),
    }
}

/// The lexer: walks the input characters left to right with one character of
/// lookahead and yields the token sequence.
pub struct Tokenizer {
    chars: Vec<char>,
    position: usize,
}

fn char_is_whitespace(c: char) -> (b: bool)
    ensures
        b == is_whitespace_char(c),
{
    c == ' ' || ('\u{0009}' <= c && c <= '\u{000D}') || c == '\u{0085}' || c == '\u{00A0}' || c
        == '\u{1680}' || ('\u{2000}' <= c && c <= '\u{200A}') || c == '\u{2028}' || c == '\u{2029}'
        || c == '\u{202F}' || c == '\u{205F}' || c == '\u{3000}'
}

/// The characters of a string, in order.
fn chars_of(s: &str) -> (v: Vec<char>)
    ensures
        v@ == s@,
{
    let mut iter = s.chars();
    let mut v: Vec<char> = Vec::new();
    proof {
        assert(v@ + iter.remaining() =~= s@);
    }
    loop
        invariant
            iter.obeys_prophetic_iter_laws(),
            iter.decrease() is Some,
            v@ + iter.remaining() == s@,
        ensures
            v@ == s@,
        decreases iter.decrease()->0,
    {
        let ghost prev = iter;
        match iter.next() {
            Some(c) => {
                v.push(c);
                proof {
                    assert(v@ + iter.remaining() =~= s@);
                }
            },
            None => {
                proof {
                    assert(v@ =~= s@);
                }
                break ;
            },
        }
    }
    v
}

impl Tokenizer {
    /// The input text.
    pub closed spec fn input(&self) -> Seq<char> {
        self.chars@
    }

    /// The current position in the input.
    pub closed spec fn at(&self) -> int {
        self.position as int
    }

    pub open spec fn wf(&self) -> bool {
        0 <= self.at() <= self.input().len()
    }

    /// Makes a tokenizer that stands at the start of the input.
    pub fn new(input: &str) -> (t: Tokenizer)
        ensures
            t.wf(),
            t.input() == input@,
            t.at() == 0,
    {
        Tokenizer { chars: chars_of(input), position: 0 }
    }

    /// Tokenizes an entire input text.
    pub fn tokenize(input: &str) -> (r: Result<Vec<Token>, MathError>)
        ensures
            tokens_match(r, spec_tokenize(input@)),
    {
        let mut tokenizer = Tokenizer::new(input);
        tokenizer.tokenize_all()
    }

    /// Tokenizes everything from the current position to the end of the
    /// input.
    #[verifier::loop_isolation(false)]
    pub fn tokenize_all(&mut self) -> (r: Result<Vec<Token>, MathError>)
        requires
            old(self).wf(),
        ensures
            tokens_match(r, spec_tokenize_from(old(self).input(), old(self).at())),
    {
        let ghost s = self.chars@;
        let ghost start = self.position as int;
        let mut tokens: Vec<Token> = Vec::new();
        loop
            invariant
                self.wf(),
                self.chars == old(self).chars,
                lift_tokens(tokens_view(tokens@), spec_tokenize_from(s, self.at()))
                    == spec_tokenize_from(s, start),
            decreases s.len() - self.at(),
        {
            let ghost pos = self.at();
            let step = self.next_token();
            match step {
                Err(e) => {
                    proof {
                        assert(spec_tokenize_from(s, pos) == Err::<Seq<TokenModel>, ErrorModel>(
                            e@,
                        ));
                    }
                    return Err(e);
                },
                Ok(None) => {
                    proof {
                        assert(spec_tokenize_from(s, pos) == Ok::<Seq<TokenModel>, ErrorModel>(
                            Seq::<TokenModel>::empty(),
                        ));
                        assert(tokens_view(tokens@) + Seq::<TokenModel>::empty() =~= tokens_view(
                            tokens@,
                        ));
                    }
                    return Ok(tokens);
                },
                Ok(Some(tok)) => {
                    let ghost old_views = tokens_view(tokens@);
                    tokens.push(tok);
                    proof {
                        let end = self.at();
                        assert(spec_tokenize_from(s, pos) == lift_tokens(
                            seq![tok@],
                            spec_tokenize_from(s, end),
                        ));
                        assert(tokens_view(tokens@) =~= old_views + seq![tok@]);
                        match spec_tokenize_from(s, end) {
                            Ok(rest) => {
                                assert(old_views + (seq![tok@] + rest) =~= (old_views + seq![tok@])
                                    + rest);
                            },
                            Err(_) => {},
                        }
                    }
                },
            }
        }
    }

    /// Finds the next token: `Ok(None)` at the end of the input, one token,
    /// or the error that the input shows at this position.
    fn next_token(&mut self) -> (r: Result<Option<Token>, MathError>)
        requires
            old(self).wf(),
        ensures
            final(self).wf(),
            final(self).chars == old(self).chars,
            match spec_next_token(old(self).input(), old(self).at()) {
                NextOutcome::Eof => r == Ok::<Option<Token>, MathError>(None),
                NextOutcome::Tok { t, end } => {
                    &&& r matches Ok(inner) && inner matches Some(tok) && tok@ == t
                    &&& final(self).at() == end
                    &&& old(self).at() < end
                },
                NextOutcome::Fail(e) => r matches Err(err) && err@ == e,
            },
    {
        let ghost s = self.chars@;
        let ghost start = self.position as int;
        self.skip_whitespace();
        let ghost j = self.at();
        proof {
            lemma_skip_ws(s, start);
        }
        if self.position >= self.chars.len() {
            return Ok(None);
        }
        let c = self.chars[self.position];
        if ('0' <= c && c <= '9') || c == '.' || c == 'e' || c == 'E' {
            proof {
                if is_digit_char(c) {
                    lemma_scan_number(s, j + 1, Seq::<char>::empty().push(c), false, false);
                } else if c == '.' {
                    lemma_scan_number(s, j + 1, Seq::<char>::empty().push(c), true, false);
                } else if j + 1 < s.len() && (s[j + 1] == '+' || s[j + 1] == '-') {
                    lemma_scan_number(
                        s,
                        j + 2,
                        Seq::<char>::empty().push(c).push(s[j + 1]),
                        false,
                        true,
                    );
                } else {
                    lemma_scan_number(s, j + 1, Seq::<char>::empty().push(c), false, true);
                }
            }
            self.tokenize_number()
        } else if c == '+' {
            self.position = self.position + 1;
            Ok(Some(Token::Operator(Operator::Add)))
        } else if c == '-' {
            self.position = self.position + 1;
            Ok(Some(Token::Operator(Operator::Subtract)))
        } else if c == '*' {
            self.position = self.position + 1;
            Ok(Some(Token::Operator(Operator::Multiply)))
        } else if c == '/' {
            self.position = self.position + 1;
            Ok(Some(Token::Operator(Operator::Divide)))
        } else if c == '^' {
            self.position = self.position + 1;
            Ok(Some(Token::Operator(Operator::Power)))
        } else if c == '(' {
            self.position = self.position + 1;
            Ok(Some(Token::LParen))
        } else if c == ')' {
            self.position = self.position + 1;
            Ok(Some(Token::RParen))
        } else {
            let mut msg = String::from_str("Unexpected character: ");
            push_char(&mut msg, c);
            Err(MathError::InvalidExpression(msg))
        }
    }

    /// Scans one numeric literal beginning at the current position.
    fn tokenize_number(&mut self) -> (r: Result<Option<Token>, MathError>)
        requires
            old(self).wf(),
            old(self).at() < old(self).input().len(),
        ensures
            final(self).wf(),
            final(self).chars == old(self).chars,
            match spec_scan_number(
                old(self).input(),
                old(self).at(),
                Seq::<char>::empty(),
                false,
                false,
            ) {
                ScanOutcome::Fail(e) => r matches Err(err) && err@ == e,
                ScanOutcome::Done { text, end } => {
                    &&& final(self).at() == end
                    &&& match spec_classify_number(text) {
                        Ok(t) => r matches Ok(inner) && inner matches Some(tok) && tok@ == t,
                        Err(e) => r matches Err(err) && err@ == e,
                    }
                },
            },
    {
        let ghost s = self.chars@;
        let ghost start = self.position as int;
        let mut number: Vec<char> = Vec::new();
        let mut has_decimal: bool = false;
        let mut is_scientific: bool = false;
        loop
            invariant
                s == old(self).input(),
                start == old(self).at(),
                self.wf(),
                self.chars == old(self).chars,
                start <= self.at(),
                spec_scan_number(s, start, Seq::<char>::empty(), false, false)
                    == spec_scan_number(s, self.at(), number@, has_decimal, is_scientific),
                is_scientific ==> exists|k: int|
                    0 <= k < number@.len() && is_exp_char(#[trigger] number@[k]),
                !is_scientific ==> forall|k: int|
                    0 <= k < number@.len() ==> !is_exp_char(#[trigger] number@[k]),
            ensures
                self.wf(),
                self.chars == old(self).chars,
                spec_scan_number(s, start, Seq::<char>::empty(), false, false)
                    == (ScanOutcome::Done { text: number@, end: self.at() }),
                is_scientific ==> exists|k: int|
                    0 <= k < number@.len() && is_exp_char(#[trigger] number@[k]),
                !is_scientific ==> forall|k: int|
                    0 <= k < number@.len() ==> !is_exp_char(#[trigger] number@[k]),
            decreases s.len() - self.at(),
        {
            if self.position >= self.chars.len() {
                break ;
            }
            let c = self.chars[self.position];
            let ghost pos0 = self.at();
            let ghost before = number@;
            if '0' <= c && c <= '9' {
                number.push(c);
                self.position = self.position + 1;
                proof {
                    assert(spec_scan_number(s, pos0, before, has_decimal, is_scientific)
                        == spec_scan_number(s, self.at(), number@, has_decimal, is_scientific));
                    if is_scientific {
                        let w = choose|w: int|
                            0 <= w < before.len() && is_exp_char(#[trigger] before[w]);
                        assert(is_exp_char(number@[w]));
                    } else {
                        assert forall|k: int| 0 <= k < number@.len() implies !is_exp_char(
                            #[trigger] number@[k],
                        ) by {
                            if k < before.len() {
                                assert(!is_exp_char(before[k]));
                            } else {
                                assert(number@[k] == c);
                            }
                        }
                    }
                }
            } else if c == '.' {
                if has_decimal {
                    return Err(
                        MathError::InvalidExpression(
                            String::from_str("Multiple decimal points in number"),
                        ),
                    );
                }
                has_decimal = true;
                number.push(c);
                self.position = self.position + 1;
                proof {
                    assert(spec_scan_number(s, pos0, before, false, is_scientific)
                        == spec_scan_number(s, self.at(), number@, true, is_scientific));
                    if is_scientific {
                        let w = choose|w: int|
                            0 <= w < before.len() && is_exp_char(#[trigger] before[w]);
                        assert(is_exp_char(number@[w]));
                    } else {
                        assert forall|k: int| 0 <= k < number@.len() implies !is_exp_char(
                            #[trigger] number@[k],
                        ) by {
                            if k < before.len() {
                                assert(!is_exp_char(before[k]));
                            } else {
                                assert(number@[k] == c);
                            }
                        }
                    }
                }
            } else if c == 'e' || c == 'E' {
                if is_scientific {
                    return Err(
                        MathError::InvalidExpression(
                            String::from_str("Multiple scientific notation in number"),
                        ),
                    );
                }
                is_scientific = true;
                number.push(c);
                self.position = self.position + 1;
                if self.position < self.chars.len() {
                    let next_char = self.chars[self.position];
                    if next_char == '+' || next_char == '-' {
                        number.push(next_char);
                        self.position = self.position + 1;
                    }
                }
                proof {
                    assert(is_exp_char(number@[before.len() as int]));
                    if pos0 + 1 < s.len() && (s[pos0 + 1] == '+' || s[pos0 + 1] == '-') {
                        assert(spec_scan_number(s, pos0, before, has_decimal, false)
                            == spec_scan_number(s, pos0 + 2, before.push(c).push(s[pos0 + 1]),
                            has_decimal, true));
                        assert(number@ == before.push(c).push(s[pos0 + 1]));
                    } else {
                        assert(spec_scan_number(s, pos0, before, has_decimal, false)
                            == spec_scan_number(s, pos0 + 1, before.push(c), has_decimal, true));
                        assert(number@ == before.push(c));
                    }
                }
            } else if char_is_whitespace(c) || c == '+' || c == '-' || c == '*' || c == '/' || c
                == '^' || c == '(' || c == ')' {
                break ;
            } else {
                return Err(MathError::InvalidNumber(string_from_chars(&number)));
            }
        }
        if number.len() == 0 {
            return Err(MathError::InvalidExpression(String::from_str("Empty number")));
        }
        if is_scientific {
            self.parse_scientific_notation(&number)
        } else {
            proof {
                lemma_find_exp(number@, 0);
            }
            if check_float_text(&number) {
                Ok(Some(Token::Number(string_from_chars(&number))))
            } else {
                Err(MathError::InvalidNumber(string_from_chars(&number)))
            }
        }
    }

    /// Splits a scanned text at its `e`/`E` into a float base and a signed
    /// 32-bit exponent and builds the scientific token.
    #[verifier::loop_isolation(false)]
    fn parse_scientific_notation(&self, number: &Vec<char>) -> (r: Result<Option<Token>, MathError>)
        requires
            exists|k: int| 0 <= k < number@.len() && is_exp_char(#[trigger] number@[k]),
        ensures
            match spec_classify_number(number@) {
                Ok(t) => r matches Ok(inner) && inner matches Some(tok) && tok@ == t,
                Err(e) => r matches Err(err) && err@ == e,
            },
    {
        proof {
            lemma_find_exp(number@, 0);
        }
        let mut k: usize = 0;
        while k < number.len() && !(number[k] == 'e' || number[k] == 'E')
            invariant
                0 <= k <= number@.len(),
                forall|j: int| 0 <= j < k ==> !is_exp_char(#[trigger] number@[j]),
            decreases number@.len() - k,
        {
            k += 1;
        }
        proof {
            if k as int == number@.len() {
                let w = choose|w: int| 0 <= w < number@.len() && is_exp_char(number@[w]);
                assert(!is_exp_char(number@[w]));
            }
            assert(k as int == find_exp(number@, 0)) by {
                let f = find_exp(number@, 0);
                if f < k {
                    assert(!is_exp_char(number@[f]));
                }
                if f > k {
                    assert(!is_exp_char(number@[k as int]));
                }
            }
        }
        let base = copy_range(number, 0, k);
        let exponent_part = copy_range(number, k + 1, number.len());
        if !check_float_text(&base) {
            return Err(MathError::InvalidNumber(string_from_chars(number)));
        }
        match parse_i32_text(&exponent_part) {
            None => Err(MathError::InvalidNumber(string_from_chars(number))),
            Some(exponent) => Ok(
                Some(Token::Scientific { base: string_from_chars(&base), exponent }),
            ),
        }
    }

    /// Moves the position past any whitespace.
    #[verifier::loop_isolation(false)]
    fn skip_whitespace(&mut self)
        requires
            old(self).wf(),
        ensures
            final(self).wf(),
            final(self).chars == old(self).chars,
            final(self).at() == spec_skip_ws(old(self).input(), old(self).at()),
    {
        let ghost s = self.chars@;
        let ghost start = self.position as int;
        while self.position < self.chars.len() && char_is_whitespace(self.chars[self.position])
            invariant
                self.wf(),
                self.chars == old(self).chars,
                spec_skip_ws(s, start) == spec_skip_ws(s, self.at()),
            decreases s.len() - self.at(),
        {
            self.position = self.position + 1;
        }
    }
}

} // verus!
