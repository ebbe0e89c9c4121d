//! Text primitives over sequences of characters.
//!
//! Every function here works on a text held as a `Vec<char>` and on [`Span`]s
//! of it, so that no piece of text is copied while it is being cut up. The
//! specifications speak of `Seq<char>` alone.

use vstd::prelude::*;

verus! {

/// A half-open range of positions in a text.
#[derive(Clone, Copy, Debug, PartialEq, Eq)]
pub struct Span {
    pub start: usize,
    pub end: usize,
}

impl Span {
    /// The span lies inside a text of `len` characters.
    pub open spec fn within(self, len: nat) -> bool {
        self.start <= self.end <= len
    }

    /// The characters of `text` that the span covers.
    pub open spec fn of(self, text: Seq<char>) -> Seq<char> {
        text.subrange(self.start as int, self.end as int)
    }

    /// The span covers nothing.
    pub fn is_empty(&self) -> (b: bool)
        ensures
            b == (self.start >= self.end),
    {
        self.start >= self.end
    }
}

/// `spans` cuts `text` into exactly the pieces `parts`, in order.
pub open spec fn spans_cut(text: Seq<char>, spans: Seq<Span>, parts: Seq<Seq<char>>) -> bool {
    &&& spans.len() == parts.len()
    &&& forall|k: int|
        0 <= k < spans.len() ==> (#[trigger] spans[k]).within(text.len()) && spans[k].of(text)
            == parts[k]
}

/// `spans` cover `span` from its start to its end, with one character left
/// out between each and the next.
pub open spec fn spans_tile(spans: Seq<Span>, span: Span) -> bool {
    &&& spans.len() > 0
    &&& spans.first().start == span.start
    &&& spans.last().end == span.end
    &&& forall|k: int|
        0 <= k < spans.len() - 1 ==> (#[trigger] spans[k]).end + 1 == spans[k + 1].start
}

/// Each of `spans` ends before the next begins.
pub open spec fn spans_ascend(spans: Seq<Span>) -> bool {
    forall|k: int| 0 <= k < spans.len() - 1 ==> (#[trigger] spans[k]).end < spans[k + 1].start
}

/// Whether `c` has the Unicode property `White_Space`.
pub open spec fn whitespace(c: char) -> bool {
    let u = c as u32;
    ||| 0x09 <= u <= 0x0D
    ||| u == 0x20
    ||| u == 0x85
    ||| u == 0xA0
    ||| u == 0x1680
    ||| 0x2000 <= u <= 0x200A
    ||| u == 0x2028
    ||| u == 0x2029
    ||| u == 0x202F
    ||| u == 0x205F
    ||| u == 0x3000
}

/// `s` without its leading whitespace.
pub open spec fn trimmed_start(s: Seq<char>) -> Seq<char>
    decreases s.len(),
{
    if s.len() > 0 && whitespace(s.first()) {
        trimmed_start(s.drop_first())
    } else {
        s
    }
}

/// `s` without its trailing whitespace.
pub open spec fn trimmed_end(s: Seq<char>) -> Seq<char>
    decreases s.len(),
{
    if s.len() > 0 && whitespace(s.last()) {
        trimmed_end(s.drop_last())
    } else {
        s
    }
}

/// `s` without the whitespace that surrounds it.
pub open spec fn trimmed(s: Seq<char>) -> Seq<char> {
    trimmed_end(trimmed_start(s))
}

/// The position just behind the last `sep` in `s`, or 0 where `s` holds none.
pub open spec fn tail_start(s: Seq<char>, sep: char) -> int
    decreases s.len(),
{
    if s.len() == 0 {
        0
    } else if s.last() == sep {
        s.len() as int
    } else {
        tail_start(s.drop_last(), sep)
    }
}

/// What follows the last `sep` in `s`: all of `s` where it holds none.
pub open spec fn tail_after(s: Seq<char>, sep: char) -> Seq<char> {
    s.skip(tail_start(s, sep))
}

/// The pieces of `s` between occurrences of `sep`. There is always at least
/// one piece, and a piece may be empty: a text of n separators has n + 1
/// pieces.
pub open spec fn segments(s: Seq<char>, sep: char) -> Seq<Seq<char>>
    decreases s.len(),
{
    if s.len() == 0 {
        seq![Seq::empty()]
    } else {
        let before = segments(s.drop_last(), sep);
        if s.last() == sep {
            before.push(Seq::empty())
        } else {
            before.drop_last().push(before.last().push(s.last()))
        }
    }
}

/// `s` without one trailing carriage return.
pub open spec fn without_cr(s: Seq<char>) -> Seq<char> {
    if s.len() > 0 && s.last() == '\r' {
        s.drop_last()
    } else {
        s
    }
}

/// The lines of `s`. A line ends at a line feed, or at a carriage return
/// directly followed by a line feed; neither belongs to the line. The last
/// line needs no line ending, and an empty text has no line. A carriage
/// return elsewhere is an ordinary character.
pub open spec fn lines_of(s: Seq<char>) -> Seq<Seq<char>> {
    let pieces = segments(s, '\n');
    let ended = pieces.len() - 1;
    let count = if pieces.last().len() == 0 {
        ended
    } else {
        pieces.len() as int
    };
    Seq::new(
        count as nat,
        |k: int|
            if k < ended {
                without_cr(pieces[k])
            } else {
                pieces[k]
            },
    )
}

/// The lower-case form of an ASCII capital; any other character unchanged.
pub open spec fn ascii_lower(c: char) -> char {
    if 'A' <= c <= 'Z' {
        ((c as u32) + 32) as char
    } else {
        c
    }
}

/// `s` and `word` agree but for the case of ASCII letters.
pub open spec fn same_ignoring_ascii_case(s: Seq<char>, word: Seq<char>) -> bool {
    &&& s.len() == word.len()
    &&& forall|i: int| 0 <= i < s.len() ==> ascii_lower(#[trigger] s[i]) == ascii_lower(word[i])
}

/// The characters of `s`, in order.
pub fn chars_of(s: &str) -> (v: Vec<char>)
    ensures
        v@ == s@,
{
    let mut v: Vec<char> = Vec::new();
    for c in it: s.chars()
        invariant
            v@ == it.seq().take(it.index() as int),
    {
        v.push(c);
    }
    v
}

/// A copy of the part of `source` that `span` covers.
pub fn text_of(source: &str, span: Span) -> (r: String)
    requires
        span.within(source@.len()),
    ensures
        r@ == span.of(source@),
{
    source.substring_char(span.start, span.end).to_owned()
}

/// Whether `c` is whitespace.
pub fn is_whitespace(c: char) -> (b: bool)
    ensures
        b == whitespace(c),
{
    let u: u32 = c as u32;
    (0x09 <= u && u <= 0x0D) || u == 0x20 || u == 0x85 || u == 0xA0 || u == 0x1680 || (0x2000 <= u
        && u <= 0x200A) || u == 0x2028 || u == 0x2029 || u == 0x202F || u == 0x205F || u == 0x3000
}

/// The lower-case form of an ASCII capital; any other character unchanged.
pub fn to_ascii_lower(c: char) -> (r: char)
    ensures
        r == ascii_lower(c),
{
    if 'A' <= c && c <= 'Z' {
        let u: u32 = c as u32 + 32;
        let lower: u8 = u as u8;
        lower as char
    } else {
        c
    }
}

/// Narrows `span` past the whitespace at both of its ends.
pub fn trim(text: &Vec<char>, span: Span) -> (r: Span)
    requires
        span.within(text@.len()),
    ensures
        r.within(text@.len()),
        span.start <= r.start,
        r.end <= span.end,
        r.of(text@) == trimmed(span.of(text@)),
        span.end - r.start == trimmed_start(span.of(text@)).len(),
{
    let mut start = span.start;
    while start < span.end && is_whitespace(text[start])
        invariant
            span.within(text@.len()),
            span.start <= start <= span.end,
            trimmed_start(span.of(text@)) == trimmed_start(
                text@.subrange(start as int, span.end as int),
            ),
        decreases span.end - start,
    {
        assert(text@.subrange(start as int, span.end as int).drop_first() == text@.subrange(
            start + 1,
            span.end as int,
        ));
        start += 1;
    }
    assert(trimmed_start(span.of(text@)) == text@.subrange(start as int, span.end as int));
    let mut end = span.end;
    while start < end && is_whitespace(text[end - 1])
        invariant
            span.within(text@.len()),
            span.start <= start <= end <= span.end,
            trimmed(span.of(text@)) == trimmed_end(text@.subrange(start as int, end as int)),
        decreases end - start,
    {
        assert(text@.subrange(start as int, end as int).drop_last() == text@.subrange(
            start as int,
            end - 1,
        ));
        end -= 1;
    }
    Span { start, end }
}

/// Whether the part of `text` under `span` begins with `prefix`.
pub fn starts_with(text: &Vec<char>, span: Span, prefix: &Vec<char>) -> (b: bool)
    requires
        span.within(text@.len()),
    ensures
        b == prefix@.is_prefix_of(span.of(text@)),
{
    if prefix.len() > span.end - span.start {
        return false;
    }
    let mut i: usize = 0;
    while i < prefix.len()
        invariant
            span.within(text@.len()),
            prefix@.len() <= span.end - span.start,
            i <= prefix@.len(),
            forall|k: int| 0 <= k < i ==> prefix@[k] == text@[span.start + k],
        decreases prefix@.len() - i,
    {
        if prefix[i] != text[span.start + i] {
            assert(span.of(text@).subrange(0, prefix@.len() as int)[i as int] != prefix@[i as int]);
            return false;
        }
        i += 1;
    }
    true
}

/// Whether the part of `text` under `span` is `word` but for the case of
/// ASCII letters.
pub fn eq_ignoring_ascii_case(text: &Vec<char>, span: Span, word: &Vec<char>) -> (b: bool)
    requires
        span.within(text@.len()),
    ensures
        b == same_ignoring_ascii_case(span.of(text@), word@),
{
    if word.len() != span.end - span.start {
        return false;
    }
    let mut i: usize = 0;
    while i < word.len()
        invariant
            span.within(text@.len()),
            word@.len() == span.end - span.start,
            i <= word@.len(),
            forall|k: int|
                0 <= k < i ==> ascii_lower(#[trigger] span.of(text@)[k]) == ascii_lower(word@[k]),
        decreases word@.len() - i,
    {
        if to_ascii_lower(word[i]) != to_ascii_lower(text[span.start + i]) {
            assert(span.of(text@)[i as int] == text@[span.start + i]);
            return false;
        }
        i += 1;
    }
    true
}

/// Whether the part of `text` under `span` ends with `suffix`.
pub fn ends_with(text: &Vec<char>, span: Span, suffix: &Vec<char>) -> (b: bool)
    requires
        span.within(text@.len()),
    ensures
        b == suffix@.is_suffix_of(span.of(text@)),
{
    if suffix.len() > span.end - span.start {
        return false;
    }
    let from = span.end - suffix.len();
    let ghost tail = span.of(text@).subrange(
        span.of(text@).len() - suffix@.len(),
        span.of(text@).len() as int,
    );
    assert(tail == text@.subrange(from as int, span.end as int));
    let mut i: usize = 0;
    while i < suffix.len()
        invariant
            span.within(text@.len()),
            suffix@.len() <= span.end - span.start,
            from == span.end - suffix@.len(),
            tail == text@.subrange(from as int, span.end as int),
            i <= suffix@.len(),
            forall|k: int| 0 <= k < i ==> suffix@[k] == text@[from + k],
        decreases suffix@.len() - i,
    {
        if suffix[i] != text[from + i] {
            assert(tail[i as int] != suffix@[i as int]);
            return false;
        }
        i += 1;
    }
    assert(tail =~= suffix@);
    true
}

/// Whether `a` and `b` hold the same text.
pub fn same_text(a: &str, b: &str) -> (r: bool)
    ensures
        r == (a@ == b@),
{
    let left = chars_of(a);
    let right = chars_of(b);
    if left.len() != right.len() {
        return false;
    }
    let mut i: usize = 0;
    while i < left.len()
        invariant
            left@ == a@,
            right@ == b@,
            left@.len() == right@.len(),
            i <= left@.len(),
            forall|k: int| 0 <= k < i ==> left@[k] == right@[k],
        decreases left@.len() - i,
    {
        if left[i] != right[i] {
            return false;
        }
        i += 1;
    }
    assert(left@ =~= right@);
    true
}

/// The part of `span` that follows the last `sep` in it: all of it where it
/// holds none.
pub fn after_last(text: &Vec<char>, span: Span, sep: char) -> (r: Span)
    requires
        span.within(text@.len()),
    ensures
        r.within(text@.len()),
        span.start <= r.start,
        r.end == span.end,
        r.of(text@) == tail_after(span.of(text@), sep),
{
    let mut end = span.end;
    while span.start < end && text[end - 1] != sep
        invariant
            span.within(text@.len()),
            span.start <= end <= span.end,
            tail_start(span.of(text@), sep) == tail_start(
                text@.subrange(span.start as int, end as int),
                sep,
            ),
        decreases end,
    {
        assert(text@.subrange(span.start as int, end as int).drop_last() == text@.subrange(
            span.start as int,
            end - 1,
        ));
        end -= 1;
    }
    assert(tail_start(span.of(text@), sep) == end - span.start);
    assert(span.of(text@).skip(end - span.start) == text@.subrange(end as int, span.end as int));
    Span { start: end, end: span.end }
}

/// Cuts the part of `text` under `span` at every `sep`.
pub fn split(text: &Vec<char>, span: Span, sep: char) -> (spans: Vec<Span>)
    requires
        span.within(text@.len()),
    ensures
        spans_cut(text@, spans@, segments(span.of(text@), sep)),
        spans_tile(spans@, span),
{
    let mut spans: Vec<Span> = Vec::new();
    let mut open = span.start;
    let mut i = span.start;
    while i < span.end
        invariant
            span.within(text@.len()),
            span.start <= open <= i <= span.end,
            segments(text@.subrange(span.start as int, i as int), sep).len() == spans@.len() + 1,
            segments(text@.subrange(span.start as int, i as int), sep).last() == text@.subrange(
                open as int,
                i as int,
            ),
            forall|k: int|
                0 <= k < spans@.len() ==> (#[trigger] spans@[k]).within(text@.len())
                    && spans@[k].of(text@) == segments(
                    text@.subrange(span.start as int, i as int),
                    sep,
                )[k],
            spans@.len() == 0 ==> open == span.start,
            spans@.len() > 0 ==> spans@.first().start == span.start && spans@.last().end + 1
                == open,
            forall|k: int|
                0 <= k < spans@.len() - 1 ==> (#[trigger] spans@[k]).end + 1 == spans@[k + 1].start,
        decreases span.end - i,
    {
        let ghost before = text@.subrange(span.start as int, i as int);
        let ghost now = text@.subrange(span.start as int, i + 1);
        assert(now.drop_last() == before);
        assert(now.last() == text@[i as int]);
        if text[i] == sep {
            spans.push(Span { start: open, end: i });
            open = i + 1;
            assert(text@.subrange(open as int, i + 1) == Seq::<char>::empty());
        } else {
            assert(text@.subrange(open as int, i + 1) == text@.subrange(
                open as int,
                i as int,
            ).push(text@[i as int]));
        }
        i += 1;
    }
    spans.push(Span { start: open, end: i });
    spans
}

/// Cuts `text` into its lines.
pub fn lines(text: &Vec<char>) -> (spans: Vec<Span>)
    ensures
        spans_cut(text@, spans@, lines_of(text@)),
        spans_ascend(spans@),
        spans@.len() > 0 ==> spans@.first().start == 0,
{
    let whole = Span { start: 0, end: text.len() };
    assert(whole.of(text@) == text@);
    let mut spans = split(text, whole, '\n');
    let ghost pieces = segments(text@, '\n');
    let ended = spans.len() - 1;
    if spans[ended].is_empty() {
        spans.pop();
    }
    let mut k: usize = 0;
    while k < ended
        invariant
            ended == pieces.len() - 1,
            k <= ended,
            spans@.len() == lines_of(text@).len(),
            ended <= spans@.len() <= ended + 1,
            spans@.len() > 0 ==> spans@.first().start == 0,
            forall|j: int|
                0 <= j < spans@.len() - 1 ==> (#[trigger] spans@[j]).end < spans@[j + 1].start
                    && (k <= j ==> spans@[j].end + 1 == spans@[j + 1].start),
            forall|j: int|
                0 <= j < spans@.len() ==> (#[trigger] spans@[j]).within(text@.len()) && spans@[j].of(
                    text@,
                ) == (if j < k {
                    without_cr(pieces[j])
                } else {
                    pieces[j]
                }),
        decreases ended - k,
    {
        let line = spans[k];
        if line.start < line.end && text[line.end - 1] == '\r' {
            spans.set(k, Span { start: line.start, end: (line.end - 1) as usize });
            assert(text@.subrange(line.start as int, line.end - 1) == line.of(text@).drop_last());
        }
        k += 1;
    }
    spans
}

} // verus!
