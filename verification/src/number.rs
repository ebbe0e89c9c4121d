//! The two kinds of number that a probe may print, as grammars over
//! characters: an unsigned decimal integer that fits 64 bits, and a decimal
//! floating-point literal.
//!
//! A floating-point literal is only recognised here, never evaluated: its
//! text is carried to whoever turns it into a machine number.

use crate::text::{chars_of, eq_ignoring_ascii_case, same_ignoring_ascii_case, Span};
use vstd::prelude::*;

verus! {

/// An ASCII decimal digit.
pub open spec fn digit(c: char) -> bool {
    '0' <= c <= '9'
}

/// The number that a digit stands for.
pub open spec fn digit_value(c: char) -> nat {
    (c as u32 - '0' as u32) as nat
}

/// `Digit*`
pub open spec fn all_digits(s: Seq<char>) -> bool {
    forall|i: int| 0 <= i < s.len() ==> digit(#[trigger] s[i])
}

/// `Digit+`
pub open spec fn digits(s: Seq<char>) -> bool {
    s.len() > 0 && all_digits(s)
}

/// The number that a run of digits writes in base ten.
pub open spec fn decimal_value(s: Seq<char>) -> nat
    decreases s.len(),
{
    if s.len() == 0 {
        0
    } else {
        10 * decimal_value(s.drop_last()) + digit_value(s.last())
    }
}

/// `s` without a leading plus sign.
pub open spec fn without_plus(s: Seq<char>) -> Seq<char> {
    if s.len() > 0 && s[0] == '+' {
        s.skip(1)
    } else {
        s
    }
}

/// The unsigned integer that `s` writes: an optional plus sign, then one or
/// more digits whose value fits 64 bits. `None` for any other text.
pub open spec fn unsigned_of(s: Seq<char>) -> Option<u64> {
    let d = without_plus(s);
    if digits(d) && decimal_value(d) <= u64::MAX {
        Some(decimal_value(d) as u64)
    } else {
        None
    }
}

/// `Sign ::= '+' | '-'`
pub open spec fn sign(c: char) -> bool {
    c == '+' || c == '-'
}

/// `s` without a leading sign.
pub open spec fn without_sign(s: Seq<char>) -> Seq<char> {
    if s.len() > 0 && sign(s[0]) {
        s.skip(1)
    } else {
        s
    }
}

/// `Number ::= Digit+ | Digit+ '.' Digit* | Digit* '.' Digit+`
pub open spec fn mantissa(s: Seq<char>) -> bool {
    ||| digits(s)
    ||| exists|dot: int|
        0 <= dot < s.len() && #[trigger] s[dot] == '.' && s.len() > 1 && all_digits(s.take(dot))
            && all_digits(s.skip(dot + 1))
}

/// `Exp ::= ('e' | 'E') Sign? Digit+`
pub open spec fn exponent(s: Seq<char>) -> bool {
    s.len() > 0 && (s[0] == 'e' || s[0] == 'E') && digits(without_sign(s.skip(1)))
}

/// `s` is a mantissa up to `cut`, and an exponent from there on unless
/// nothing is left.
pub open spec fn decimal_at(s: Seq<char>, cut: int) -> bool {
    0 <= cut <= s.len() && mantissa(s.take(cut)) && (cut == s.len() || exponent(s.skip(cut)))
}

/// `Number Exp?`
pub open spec fn decimal(s: Seq<char>) -> bool {
    exists|cut: int| decimal_at(s, cut)
}

/// `'inf' | 'infinity' | 'nan'`, in any mix of upper and lower case.
pub open spec fn special(s: Seq<char>) -> bool {
    ||| same_ignoring_ascii_case(s, "inf"@)
    ||| same_ignoring_ascii_case(s, "infinity"@)
    ||| same_ignoring_ascii_case(s, "nan"@)
}

/// `Float ::= Sign? ( 'inf' | 'infinity' | 'nan' | Number Exp? )`
///
/// The whole of `s` has to match: no whitespace, no digit separators, no
/// suffix.
pub open spec fn float_literal(s: Seq<char>) -> bool {
    special(without_sign(s)) || decimal(without_sign(s))
}

/// A longer run of digits writes no smaller a number than its beginning.
pub proof fn lemma_decimal_value_grows(s: Seq<char>, n: int)
    requires
        0 <= n <= s.len(),
    ensures
        decimal_value(s.take(n)) <= decimal_value(s),
    decreases s.len(),
{
    if n < s.len() {
        assert(s.drop_last().take(n) == s.take(n));
        lemma_decimal_value_grows(s.drop_last(), n);
    } else {
        assert(s.take(n) == s);
    }
}

/// Whether `c` is an ASCII decimal digit.
pub fn is_digit(c: char) -> (b: bool)
    ensures
        b == digit(c),
{
    '0' <= c && c <= '9'
}

/// The end of the run of digits that begins at `from`.
fn skip_digits(text: &Vec<char>, from: usize, end: usize) -> (to: usize)
    requires
        from <= end <= text@.len(),
    ensures
        from <= to <= end,
        all_digits(text@.subrange(from as int, to as int)),
        to == end || !digit(text@[to as int]),
{
    let mut to = from;
    while to < end && is_digit(text[to])
        invariant
            from <= to <= end <= text@.len(),
            all_digits(text@.subrange(from as int, to as int)),
        decreases end - to,
    {
        to += 1;
    }
    to
}

/// Reads the part of `text` under `span` as an unsigned integer.
pub fn parse_unsigned(text: &Vec<char>, span: Span) -> (r: Option<u64>)
    requires
        span.within(text@.len()),
    ensures
        r == unsigned_of(span.of(text@)),
{
    let mut start = span.start;
    if start < span.end && text[start] == '+' {
        start += 1;
    }
    let ghost d = text@.subrange(start as int, span.end as int);
    assert(d == without_plus(span.of(text@)));
    if start == span.end {
        return None;
    }
    let mut value: u64 = 0;
    let mut i = start;
    while i < span.end
        invariant
            span.within(text@.len()),
            span.start <= start <= i <= span.end,
            d == text@.subrange(start as int, span.end as int),
            d == without_plus(span.of(text@)),
            all_digits(d.take(i - start)),
            value == decimal_value(d.take(i - start)),
        decreases span.end - i,
    {
        let c = text[i];
        assert(d[i - start] == c);
        assert(d.take(i - start + 1).drop_last() == d.take(i - start));
        if !is_digit(c) {
            return None;
        }
        let v: u64 = (c as u32 - 48) as u64;
        if value > (u64::MAX - v) / 10 {
            proof {
                lemma_decimal_value_grows(d, i - start + 1);
            }
            return None;
        }
        value = value * 10 + v;
        i += 1;
    }
    assert(d.take(i - start) == d);
    Some(value)
}

/// A decimal literal has one place only where its mantissa can end: where
/// the digits, with at most one point among them, stop.
proof fn lemma_cut_is_where_digits_stop(
    s: Seq<char>,
    whole_end: int,
    fraction_end: int,
    cut: int,
)
    requires
        0 <= whole_end <= fraction_end <= s.len(),
        all_digits(s.take(whole_end)),
        whole_end == s.len() || !digit(s[whole_end]),
        whole_end < s.len() && s[whole_end] == '.' ==> {
            &&& whole_end < fraction_end
            &&& all_digits(s.subrange(whole_end + 1, fraction_end))
            &&& fraction_end == s.len() || !digit(s[fraction_end])
        },
        !(whole_end < s.len() && s[whole_end] == '.') ==> fraction_end == whole_end,
        decimal_at(s, cut),
    ensures
        cut == fraction_end,
{
    let m = s.take(cut);
    assert(forall|i: int| 0 <= i < cut ==> m[i] == s[i]);
    if digits(m) {
        if whole_end < cut {
            assert(digit(m[whole_end]));
        }
        if cut < whole_end {
            assert(digit(s.take(whole_end)[cut]));
            assert(s.skip(cut)[0] == s[cut]);
        }
        if cut < s.len() {
            assert(s.skip(cut)[0] == s[cut]);
        }
    } else {
        let dot = choose|dot: int|
            0 <= dot < m.len() && #[trigger] m[dot] == '.' && m.len() > 1 && all_digits(m.take(dot))
                && all_digits(m.skip(dot + 1));
        if whole_end < dot {
            assert(digit(m.take(dot)[whole_end]));
        }
        if dot < whole_end {
            assert(digit(s.take(whole_end)[dot]));
        }
        assert(dot == whole_end);
        if fraction_end < cut {
            assert(m.skip(dot + 1)[fraction_end - dot - 1] == s[fraction_end]);
            assert(digit(m.skip(dot + 1)[fraction_end - dot - 1]));
        }
        if cut < fraction_end {
            assert(s.subrange(whole_end + 1, fraction_end)[cut - whole_end - 1] == s[cut]);
            assert(digit(s.subrange(whole_end + 1, fraction_end)[cut - whole_end - 1]));
            assert(s.skip(cut)[0] == s[cut]);
        }
    }
}

/// Whether the part of `text` under `span` is `Number Exp?`.
fn is_decimal(text: &Vec<char>, span: Span) -> (b: bool)
    requires
        span.within(text@.len()),
    ensures
        b == decimal(span.of(text@)),
{
    let ghost s = span.of(text@);
    let whole_end = skip_digits(text, span.start, span.end);
    let pointed = whole_end < span.end && text[whole_end] == '.';
    let fraction_end = if pointed {
        skip_digits(text, whole_end + 1, span.end)
    } else {
        whole_end
    };
    let ghost whole_cut = whole_end - span.start;
    let ghost fraction_cut = fraction_end - span.start;
    proof {
        assert(s.take(whole_cut) == text@.subrange(span.start as int, whole_end as int));
        if pointed {
            assert(s.subrange(whole_cut + 1, fraction_cut) == text@.subrange(
                whole_end + 1,
                fraction_end as int,
            ));
            assert(s.take(fraction_cut).skip(whole_cut + 1) == s.subrange(
                whole_cut + 1,
                fraction_cut,
            ));
            assert(s.take(fraction_cut).take(whole_cut) == s.take(whole_cut));
        } else {
            assert(s.take(fraction_cut) == s.take(whole_cut));
        }
        assert forall|cut: int| decimal_at(s, cut) implies cut == fraction_cut by {
            lemma_cut_is_where_digits_stop(s, whole_cut, fraction_cut, cut);
        }
    }
    let written = if pointed {
        fraction_end - span.start - 1
    } else {
        whole_end - span.start
    };
    if written == 0 {
        proof {
            let m = s.take(fraction_cut);
            assert(m.len() <= 1);
            if pointed {
                assert(m[0] == '.');
            }
            assert(!mantissa(m));
        }
        return false;
    }
    proof {
        if pointed {
            assert(s.take(fraction_cut)[whole_cut] == '.');
        }
        assert(mantissa(s.take(fraction_cut)));
    }
    if fraction_end == span.end {
        assert(decimal_at(s, fraction_cut));
        return true;
    }
    if text[fraction_end] != 'e' && text[fraction_end] != 'E' {
        assert(s.skip(fraction_cut)[0] == text@[fraction_end as int]);
        return false;
    }
    let mut q = fraction_end + 1;
    if q < span.end && (text[q] == '+' || text[q] == '-') {
        q += 1;
    }
    let r = skip_digits(text, q, span.end);
    proof {
        let x = s.skip(fraction_cut);
        assert(x[0] == text@[fraction_end as int]);
        assert(x.skip(1) == text@.subrange(fraction_end + 1, span.end as int));
        let d = without_sign(x.skip(1));
        assert(d == text@.subrange(q as int, span.end as int));
        if r < span.end {
            assert(d[r - q] == text@[r as int]);
            assert(!all_digits(d));
        } else {
            assert(all_digits(d));
        }
        if r > q && r == span.end {
            assert(decimal_at(s, fraction_cut));
        }
    }
    r > q && r == span.end
}

/// Whether the part of `text` under `span` is a floating-point literal.
pub fn is_float_literal(text: &Vec<char>, span: Span) -> (b: bool)
    requires
        span.within(text@.len()),
    ensures
        b == float_literal(span.of(text@)),
{
    let mut body = span;
    if body.start < body.end && (text[body.start] == '+' || text[body.start] == '-') {
        body = Span { start: span.start + 1, end: span.end };
    }
    assert(body.of(text@) == without_sign(span.of(text@)));
    if eq_ignoring_ascii_case(text, body, &chars_of("inf")) || eq_ignoring_ascii_case(
        text,
        body,
        &chars_of("infinity"),
    ) || eq_ignoring_ascii_case(text, body, &chars_of("nan")) {
        return true;
    }
    is_decimal(text, body)
}

/// The text of a floating-point number: a stand-in for the number itself,
/// which this library never computes. Whatever holds one holds a text that
/// matches [`float_literal`].
#[derive(Debug, PartialEq, Eq)]
pub struct FloatLiteral {
    text: String,
}

impl Clone for FloatLiteral {
    fn clone(&self) -> (r: Self)
        ensures
            r@ == self@,
    {
        proof {
            use_type_invariant(self);
        }
        FloatLiteral { text: self.text.clone() }
    }
}

impl View for FloatLiteral {
    type V = Seq<char>;

    closed spec fn view(&self) -> Seq<char> {
        self.text@
    }
}

impl FloatLiteral {
    #[verifier::type_invariant]
    spec fn well_formed(self) -> bool {
        float_literal(self.text@)
    }

    /// The literal that stands for "not a number".
    pub fn nan() -> (r: FloatLiteral)
        ensures
            r@ == "NaN"@,
    {
        proof {
            reveal_strlit("NaN");
            reveal_strlit("nan");
            assert(without_sign("NaN"@) == "NaN"@);
            assert(crate::text::ascii_lower('N') == 'n');
            assert(same_ignoring_ascii_case("NaN"@, "nan"@));
        }
        FloatLiteral { text: "NaN".to_owned() }
    }

    /// Wraps a text that is known to be a floating-point literal.
    pub(crate) fn from_checked(text: String) -> (r: FloatLiteral)
        requires
            float_literal(text@),
        ensures
            r@ == text@,
    {
        FloatLiteral { text }
    }

    /// Accepts `text` where it is a floating-point literal.
    pub fn parse(text: &str) -> (r: Option<FloatLiteral>)
        ensures
            r is Some <==> float_literal(text@),
            r matches Some(literal) ==> literal@ == text@,
    {
        let chars = chars_of(text);
        let whole = Span { start: 0, end: chars.len() };
        assert(whole.of(chars@) == text@);
        if is_float_literal(&chars, whole) {
            Some(FloatLiteral { text: text.to_owned() })
        } else {
            None
        }
    }

    /// The literal as it was written.
    pub fn as_str(&self) -> (r: &str)
        ensures
            r@ == self@,
            float_literal(r@),
    {
        proof {
            use_type_invariant(self);
        }
        self.text.as_str()
    }
}

/// Reads `text` as an unsigned integer.
pub fn parse_u64(text: &str) -> (r: Option<u64>)
    ensures
        r == unsigned_of(text@),
{
    let chars = chars_of(text);
    let whole = Span { start: 0, end: chars.len() };
    assert(whole.of(chars@) == text@);
    parse_unsigned(&chars, whole)
}

} // verus!
