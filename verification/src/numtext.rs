//! The texts of numeric literals. A literal travels through the pipeline as
//! the exact text it was written with; this module says which texts are
//! well-formed, reads signed 32-bit exponents off such texts, and writes
//! integers back as decimal text.

use vstd::prelude::*;

verus! {

pub open spec fn is_digit_char(c: char) -> bool {
    '0' <= c && c <= '9'
}

pub open spec fn digit_value(c: char) -> int {
    c as int - '0' as int
}

pub open spec fn is_float_char(c: char) -> bool {
    is_digit_char(c) || c == '.'
}

pub open spec fn is_exp_char(c: char) -> bool {
    c == 'e' || c == 'E'
}

pub open spec fn count_dots(t: Seq<char>) -> int
    decreases t.len(),
{
    if t.len() == 0 {
        0
    } else {
        count_dots(t.drop_last()) + if t.last() == '.' {
            1int
        } else {
            0int
        }
    }
}

pub open spec fn count_digits(t: Seq<char>) -> int
    decreases t.len(),
{
    if t.len() == 0 {
        0
    } else {
        count_digits(t.drop_last()) + if is_digit_char(t.last()) {
            1int
        } else {
            0int
        }
    }
}

/// The texts accepted as a plain (non-scientific) numeric literal: digits and
/// at most one decimal point, with at least one digit. These are exactly the
/// texts of the lexer's number alphabet on which 64-bit float parsing
/// succeeds.
pub open spec fn is_float_text(t: Seq<char>) -> bool {
    &&& forall|k: int| 0 <= k < t.len() ==> is_float_char(#[trigger] t[k])
    &&& count_dots(t) <= 1
    &&& count_digits(t) >= 1
}

pub open spec fn all_digits(t: Seq<char>) -> bool {
    forall|k: int| 0 <= k < t.len() ==> is_digit_char(#[trigger] t[k])
}

/// The value of a string of decimal digits, most significant first.
pub open spec fn digits_value(t: Seq<char>) -> int
    decreases t.len(),
{
    if t.len() == 0 {
        0
    } else {
        digits_value(t.drop_last()) * 10 + digit_value(t.last())
    }
}

/// The digit part of an exponent text: what follows an optional leading sign.
pub open spec fn exponent_digits(t: Seq<char>) -> Seq<char> {
    if t.len() > 0 && (t[0] == '+' || t[0] == '-') {
        t.drop_first()
    } else {
        t
    }
}

pub open spec fn exponent_negative(t: Seq<char>) -> bool {
    t.len() > 0 && t[0] == '-'
}

/// The texts on which signed 32-bit integer parsing succeeds: an optional
/// sign, then at least one digit, all digits, with the value in range.
pub open spec fn is_i32_text(t: Seq<char>) -> bool {
    let d = exponent_digits(t);
    &&& d.len() > 0
    &&& all_digits(d)
    &&& if exponent_negative(t) {
        digits_value(d) <= 0x8000_0000
    } else {
        digits_value(d) <= 0x7fff_ffff
    }
}

pub open spec fn i32_text_value(t: Seq<char>) -> int {
    if exponent_negative(t) {
        -digits_value(exponent_digits(t))
    } else {
        digits_value(exponent_digits(t))
    }
}

/// Index of the first `e`/`E` in `t` at or after `i`, or `t.len()` when there
/// is none.
pub open spec fn find_exp(t: Seq<char>, i: int) -> int
    decreases t.len() - i,
{
    if i < 0 || i >= t.len() {
        t.len() as int
    } else if is_exp_char(t[i]) {
        i
    } else {
        find_exp(t, i + 1)
    }
}

pub proof fn lemma_find_exp(t: Seq<char>, i: int)
    requires
        0 <= i <= t.len(),
    ensures
        i <= find_exp(t, i) <= t.len(),
        find_exp(t, i) < t.len() ==> is_exp_char(t[find_exp(t, i)]),
        forall|k: int| i <= k < find_exp(t, i) ==> !is_exp_char(#[trigger] t[k]),
        find_exp(t, i) == t.len() ==> forall|k: int|
            i <= k < t.len() ==> !is_exp_char(#[trigger] t[k]),
    decreases t.len() - i,
{
    if i < t.len() && !is_exp_char(t[i]) {
        lemma_find_exp(t, i + 1);
    }
}

pub proof fn lemma_digits_value_nonneg(t: Seq<char>)
    requires
        all_digits(t),
    ensures
        digits_value(t) >= 0,
    decreases t.len(),
{
    if t.len() > 0 {
        assert(all_digits(t.drop_last()));
        lemma_digits_value_nonneg(t.drop_last());
    }
}

pub proof fn lemma_count_dots_nonneg(t: Seq<char>)
    ensures
        count_dots(t) >= 0,
    decreases t.len(),
{
    if t.len() > 0 {
        lemma_count_dots_nonneg(t.drop_last());
    }
}

pub proof fn lemma_count_dots_concat(a: Seq<char>, b: Seq<char>)
    ensures
        count_dots(a + b) == count_dots(a) + count_dots(b),
    decreases b.len(),
{
    if b.len() == 0 {
        assert(a + b =~= a);
    } else {
        lemma_count_dots_concat(a, b.drop_last());
        assert((a + b).drop_last() =~= a + b.drop_last());
    }
}

pub proof fn lemma_count_dots_single(c: char)
    ensures
        count_dots(seq![c]) == if c == '.' {
            1int
        } else {
            0int
        },
{
    reveal_with_fuel(count_dots, 2);
    assert(seq![c].drop_last() =~= Seq::<char>::empty());
}

pub proof fn lemma_count_dots_all_digits(t: Seq<char>)
    requires
        all_digits(t),
    ensures
        count_dots(t) == 0,
    decreases t.len(),
{
    if t.len() > 0 {
        assert(all_digits(t.drop_last()));
        lemma_count_dots_all_digits(t.drop_last());
    }
}

pub proof fn lemma_digit_char_value(d: int)
    requires
        0 <= d <= 9,
    ensures
        is_digit_char(spec_digit_char(d)),
        digit_value(spec_digit_char(d)) == d,
{
}

/// The decimal text of a nonnegative integer is nonempty, consists of digits
/// and reads back to the integer itself.
pub proof fn lemma_dec_digits(n: int)
    requires
        0 <= n,
    ensures
        dec_digits(n).len() >= 1,
        all_digits(dec_digits(n)),
        digits_value(dec_digits(n)) == n,
    decreases n,
{
    if n < 10 {
        reveal_with_fuel(digits_value, 2);
        lemma_digit_char_value(n);
        assert(seq![spec_digit_char(n)].drop_last() =~= Seq::<char>::empty());
        assert(all_digits(dec_digits(n)));
    } else {
        lemma_dec_digits(n / 10);
        lemma_digit_char_value(n % 10);
        let prefix = dec_digits(n / 10);
        let c = spec_digit_char(n % 10);
        assert(prefix.push(c).drop_last() =~= prefix);
        assert(digits_value(dec_digits(n)) == n);
        assert forall|k: int| 0 <= k < dec_digits(n).len() implies is_digit_char(
            #[trigger] dec_digits(n)[k],
        ) by {
            if k < prefix.len() {
                assert(dec_digits(n)[k] == prefix[k]);
            } else {
                assert(dec_digits(n)[k] == c);
            }
        }
    }
}

/// The decimal text of a signed 32-bit integer reads back as the integer: it
/// is accepted by the exponent parse and yields the same value.
pub proof fn lemma_int_text(n: int)
    requires
        -0x8000_0000 <= n <= 0x7fff_ffff,
    ensures
        int_text(n).len() >= 1,
        is_i32_text(int_text(n)),
        i32_text_value(int_text(n)) == n,
        forall|k: int| 0 <= k < int_text(n).len() ==> !is_exp_char(#[trigger] int_text(n)[k]),
        int_text(n)[0] == '-' || is_digit_char(int_text(n)[0]),
        forall|k: int| 1 <= k < int_text(n).len() ==> is_digit_char(#[trigger] int_text(n)[k]),
{
    if n < 0 {
        lemma_dec_digits(-n);
        let d = dec_digits(-n);
        assert(int_text(n) == seq!['-'] + d);
        assert((seq!['-'] + d).drop_first() =~= d);
        assert(exponent_negative(int_text(n)));
        assert(exponent_digits(int_text(n)) == d);
        assert forall|k: int| 1 <= k < int_text(n).len() implies is_digit_char(
            #[trigger] int_text(n)[k],
        ) by {
            assert(int_text(n)[k] == d[k - 1]);
        }
        assert forall|k: int| 0 <= k < int_text(n).len() implies !is_exp_char(
            #[trigger] int_text(n)[k],
        ) by {
            if k >= 1 {
                assert(is_digit_char(int_text(n)[k]));
            }
        }
    } else {
        lemma_dec_digits(n);
        assert(int_text(n) == dec_digits(n));
        assert(!exponent_negative(int_text(n)));
        assert(exponent_digits(int_text(n)) == dec_digits(n));
        assert forall|k: int| 0 <= k < int_text(n).len() implies !is_exp_char(
            #[trigger] int_text(n)[k],
        ) by {
            assert(is_digit_char(int_text(n)[k]));
        }
    }
}

/// Checks whether `v` is a well-formed plain numeric literal.
pub fn check_float_text(v: &Vec<char>) -> (b: bool)
    ensures
        b == is_float_text(v@),
{
    let mut i: usize = 0;
    let mut dots: usize = 0;
    let mut digits_seen: bool = false;
    while i < v.len()
        invariant
            0 <= i <= v@.len(),
            dots <= i,
            dots as int == count_dots(v@.take(i as int)),
            digits_seen == (count_digits(v@.take(i as int)) >= 1),
            count_digits(v@.take(i as int)) >= 0,
            forall|k: int| 0 <= k < i ==> is_float_char(#[trigger] v@[k]),
        decreases v@.len() - i,
    {
        let c = v[i];
        proof {
            assert(v@.take(i + 1).drop_last() =~= v@.take(i as int));
            assert(v@.take(i + 1).last() == v@[i as int]);
        }
        if c == '.' {
            dots += 1;
        } else if '0' <= c && c <= '9' {
            digits_seen = true;
        } else {
            proof {
                assert(!is_float_char(v@[i as int]));
            }
            return false;
        }
        i += 1;
    }
    proof {
        assert(v@.take(v@.len() as int) =~= v@);
    }
    dots <= 1 && digits_seen
}

/// Reads `v` as a signed 32-bit integer, exactly as the standard decimal
/// parse does: `None` on an empty digit part, a stray character, or a value
/// out of range.
pub fn parse_i32_text(v: &Vec<char>) -> (r: Option<i32>)
    ensures
        match r {
            Some(x) => is_i32_text(v@) && x as int == i32_text_value(v@),
            None => !is_i32_text(v@),
        },
{
    let mut start: usize = 0;
    let mut negative: bool = false;
    if v.len() > 0 && (v[0] == '+' || v[0] == '-') {
        negative = v[0] == '-';
        start = 1;
    }
    let ghost d = exponent_digits(v@);
    proof {
        assert(d =~= v@.subrange(start as int, v@.len() as int));
    }
    if start >= v.len() {
        return None;
    }
    let mut i: usize = start;
    let mut acc: u64 = 0;
    while i < v.len()
        invariant
            start <= i <= v@.len(),
            d == exponent_digits(v@),
            d =~= v@.subrange(start as int, v@.len() as int),
            forall|k: int| start <= k < i ==> is_digit_char(#[trigger] v@[k]),
            acc <= 0x8000_0001,
            if digits_value(v@.subrange(start as int, i as int)) <= 0x8000_0000 {
                acc == digits_value(v@.subrange(start as int, i as int))
            } else {
                acc == 0x8000_0001
            },
        decreases v@.len() - i,
    {
        let c = v[i];
        if !('0' <= c && c <= '9') {
            proof {
                let k = i - start as int;
                assert(exponent_digits(v@) == v@.subrange(start as int, v@.len() as int));
                assert(v@.subrange(start as int, v@.len() as int)[k] == v@[i as int]);
                assert(!is_digit_char(exponent_digits(v@)[k]));
            }
            return None;
        }
        let ghost prev = v@.subrange(start as int, i as int);
        let ghost cur = v@.subrange(start as int, i + 1);
        proof {
            assert(cur.drop_last() =~= prev);
            assert(cur.last() == v@[i as int]);
        }
        let digit: u64 = (c as u32 - 48) as u64;
        proof {
            assert(digit == digit_value(v@[i as int]));
        }
        let mut next: u64 = acc * 10 + digit;
        if next > 0x8000_0000 {
            next = 0x8000_0001;
        }
        acc = next;
        i += 1;
    }
    proof {
        assert(exponent_digits(v@) == v@.subrange(start as int, v@.len() as int));
        assert forall|k: int|
            0 <= k < exponent_digits(v@).len() implies is_digit_char(
            #[trigger] exponent_digits(v@)[k],
        ) by {
            assert(exponent_digits(v@)[k] == v@.subrange(start as int, v@.len() as int)[k]);
            assert(v@.subrange(start as int, v@.len() as int)[k] == v@[start + k]);
        }
        assert(all_digits(exponent_digits(v@)));
        assert(digits_value(exponent_digits(v@)) == digits_value(
            v@.subrange(start as int, i as int),
        ));
    }
    if negative {
        if acc > 0x8000_0000 {
            None
        } else {
            Some((-(acc as i64)) as i32)
        }
    } else {
        if acc > 0x7fff_ffff {
            None
        } else {
            Some(acc as i32)
        }
    }
}

/// The decimal digits of a nonnegative integer, most significant first.
pub open spec fn spec_digit_char(d: int) -> char {
    if d == 0 {
        '0'
    } else if d == 1 {
        '1'
    } else if d == 2 {
        '2'
    } else if d == 3 {
        '3'
    } else if d == 4 {
        '4'
    } else if d == 5 {
        '5'
    } else if d == 6 {
        '6'
    } else if d == 7 {
        '7'
    } else if d == 8 {
        '8'
    } else {
        '9'
    }
}

pub open spec fn dec_digits(n: int) -> Seq<char>
    decreases n,
{
    if n < 10 {
        seq![spec_digit_char(n)]
    } else {
        dec_digits(n / 10).push(spec_digit_char(n % 10))
    }
}

/// An integer as decimal text, with a leading `-` when negative.
pub open spec fn int_text(n: int) -> Seq<char> {
    if n < 0 {
        seq!['-'] + dec_digits(-n)
    } else {
        dec_digits(n)
    }
}

fn digit_str(d: u32) -> (s: &'static str)
    requires
        d < 10,
    ensures
        s@ == seq![spec_digit_char(d as int)],
{
    if d == 0 {
        let s = "0";
        proof {
            reveal_strlit("0");
            assert(s@ =~= seq!['0']);
        }
        s
    } else if d == 1 {
        let s = "1";
        proof {
            reveal_strlit("1");
            assert(s@ =~= seq!['1']);
        }
        s
    } else if d == 2 {
        let s = "2";
        proof {
            reveal_strlit("2");
            assert(s@ =~= seq!['2']);
        }
        s
    } else if d == 3 {
        let s = "3";
        proof {
            reveal_strlit("3");
            assert(s@ =~= seq!['3']);
        }
        s
    } else if d == 4 {
        let s = "4";
        proof {
            reveal_strlit("4");
            assert(s@ =~= seq!['4']);
        }
        s
    } else if d == 5 {
        let s = "5";
        proof {
            reveal_strlit("5");
            assert(s@ =~= seq!['5']);
        }
        s
    } else if d == 6 {
        let s = "6";
        proof {
            reveal_strlit("6");
            assert(s@ =~= seq!['6']);
        }
        s
    } else if d == 7 {
        let s = "7";
        proof {
            reveal_strlit("7");
            assert(s@ =~= seq!['7']);
        }
        s
    } else if d == 8 {
        let s = "8";
        proof {
            reveal_strlit("8");
            assert(s@ =~= seq!['8']);
        }
        s
    } else {
        let s = "9";
        proof {
            reveal_strlit("9");
            assert(s@ =~= seq!['9']);
        }
        s
    }
}

/// Writes a nonnegative integer as decimal text.
pub fn u32_dec_string(n: u32) -> (s: String)
    ensures
        s@ == dec_digits(n as int),
    decreases n,
{
    if n < 10 {
        String::from_str(digit_str(n))
    } else {
        let mut s = u32_dec_string(n / 10);
        s.append(digit_str(n % 10));
        proof {
            assert(s@ =~= dec_digits((n / 10) as int).push(spec_digit_char((n % 10) as int)));
        }
        s
    }
}

/// Writes a signed 32-bit integer as decimal text.
pub fn i32_dec_string(n: i32) -> (s: String)
    ensures
        s@ == int_text(n as int),
{
    if n >= 0 {
        u32_dec_string(n as u32)
    } else {
        let mut s = String::from_str("-");
        proof {
            reveal_strlit("-");
            assert(s@ =~= seq!['-']);
        }
        let magnitude: u32 = (-(n as i64)) as u32;
        let t = u32_dec_string(magnitude);
        s.append(t.as_str());
        s
    }
}

/// Relies on `String::push` from std: it appends exactly the one character.
#[verifier::external_body]
pub(crate) fn push_char(s: &mut String, c: char)
    ensures
        final(s)@ == old(s)@.push(c),
{
    s.push(c);
}

/// Builds a `String` holding exactly the given characters.
pub(crate) fn string_from_chars(v: &Vec<char>) -> (s: String)
    ensures
        s@ == v@,
{
    let mut s = String::new();
    let mut i: usize = 0;
    while i < v.len()
        invariant
            0 <= i <= v@.len(),
            s@ == v@.take(i as int),
        decreases v@.len() - i,
    {
        push_char(&mut s, v[i]);
        proof {
            assert(v@.take(i as int).push(v@[i as int]) =~= v@.take(i + 1));
        }
        i += 1;
    }
    proof {
        assert(v@.take(v@.len() as int) =~= v@);
    }
    s
}

/// Copies the characters of `v` between `from` and `to`.
pub(crate) fn copy_range(v: &Vec<char>, from: usize, to: usize) -> (r: Vec<char>)
    requires
        from <= to <= v@.len(),
    ensures
        r@ == v@.subrange(from as int, to as int),
{
    let mut r: Vec<char> = Vec::new();
    let mut i: usize = from;
    while i < to
        invariant
            from <= i <= to <= v@.len(),
            r@ == v@.subrange(from as int, i as int),
        decreases to - i,
    {
        r.push(v[i]);
        proof {
            assert(v@.subrange(from as int, i as int).push(v@[i as int]) =~= v@.subrange(
                from as int,
                i + 1,
            ));
        }
        i += 1;
    }
    r
}

} // verus!
