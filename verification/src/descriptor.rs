//! Probe descriptors: the header of directives at the top of a probe script.
//!
//! ```text
//! #label=<metric name>
//! #description=<help text>
//! #type=counter|gauge|histogram|info
//! #null=<float>
//! ```
//!
//! A directive is a line that begins with one of the four keys; its value is
//! what follows the last `=` on the line, without surrounding whitespace.
//! Directives may come in any order and any number of times: the last one
//! read wins. Reading stops at the first line that is not empty once a
//! description, a type and a null directive have all been read, so a
//! directive below that line is not read at all.

use crate::number::{float_literal, is_float_literal, FloatLiteral};
use crate::text::{
    after_last, chars_of, eq_ignoring_ascii_case, lines, lines_of, same_ignoring_ascii_case,
    starts_with, tail_after, text_of, trim, trimmed, Span,
};
use vstd::prelude::*;

verus! {

/// How a sample is framed when it is exposed.
#[derive(Clone, Copy, Debug, PartialEq, Eq, Structural)]
pub enum MetricType {
    Counter,
    Gauge,
    Histogram,
    Info,
    Unknown,
}

/// What a probe script declares about the metric it measures.
#[derive(Clone, Debug, PartialEq, Eq)]
pub struct Descriptor {
    /// The metric's name. Empty where the script declares none.
    pub label: String,
    pub metric_type: MetricType,
    /// The help text.
    pub description: String,
    /// The value served when the script yields none: not-a-number unless
    /// the script declares another.
    pub fallback: FloatLiteral,
}

/// A descriptor as plain text.
pub struct DescriptorModel {
    pub label: Seq<char>,
    pub metric_type: MetricType,
    pub description: Seq<char>,
    pub fallback: Seq<char>,
}

impl View for Descriptor {
    type V = DescriptorModel;

    open spec fn view(&self) -> DescriptorModel {
        DescriptorModel {
            label: self.label@,
            metric_type: self.metric_type,
            description: self.description@,
            fallback: self.fallback@,
        }
    }
}

/// Why a descriptor could not be read.
#[derive(Clone, Copy, Debug, PartialEq, Eq, Structural)]
pub enum ParseDefect {
    /// The null directive on line `line` (counted from 0) holds no
    /// floating-point literal.
    MalformedFallback { line: usize },
}

/// The key of the directive that names the metric.
pub open spec fn label_key() -> Seq<char> {
    "#label="@
}

/// The key of the directive that gives the help text.
pub open spec fn description_key() -> Seq<char> {
    "#description="@
}

/// The key of the directive that names the metric type.
pub open spec fn type_key() -> Seq<char> {
    "#type="@
}

/// The key of the directive that gives the fallback value.
pub open spec fn null_key() -> Seq<char> {
    "#null="@
}

/// The fallback value of a script that declares none.
pub open spec fn not_a_number() -> Seq<char> {
    "NaN"@
}

/// `line` is a directive with the key `key`.
pub open spec fn directive(line: Seq<char>, key: Seq<char>) -> bool {
    key.is_prefix_of(line)
}

/// The value that a directive line assigns.
pub open spec fn value_of(line: Seq<char>) -> Seq<char> {
    trimmed(tail_after(line, '='))
}

/// The value of the last directive with the key `key` among `lines`.
pub open spec fn last_value(lines: Seq<Seq<char>>, key: Seq<char>) -> Option<Seq<char>>
    decreases lines.len(),
{
    if lines.len() == 0 {
        None
    } else if directive(lines.last(), key) {
        Some(value_of(lines.last()))
    } else {
        last_value(lines.drop_last(), key)
    }
}

/// The metric type that the value of a type directive names: one of the four
/// names in any mix of upper and lower case, `Unknown` for anything else.
pub open spec fn metric_type_of(value: Seq<char>) -> MetricType {
    if same_ignoring_ascii_case(value, "counter"@) {
        MetricType::Counter
    } else if same_ignoring_ascii_case(value, "gauge"@) {
        MetricType::Gauge
    } else if same_ignoring_ascii_case(value, "histogram"@) {
        MetricType::Histogram
    } else if same_ignoring_ascii_case(value, "info"@) {
        MetricType::Info
    } else {
        MetricType::Unknown
    }
}

/// A description, a type and a null directive all occur among `lines`.
pub open spec fn header_complete(lines: Seq<Seq<char>>) -> bool {
    &&& last_value(lines, description_key()) is Some
    &&& last_value(lines, type_key()) is Some
    &&& last_value(lines, null_key()) is Some
}

/// Reading stops at line `i`, which is then not read: it is not empty, and
/// the lines above it complete the header.
pub open spec fn stops_at(lines: Seq<Seq<char>>, i: int) -> bool {
    0 <= i < lines.len() && lines[i].len() > 0 && header_complete(lines.take(i))
}

/// Exactly the first `n` of `lines` are read.
pub open spec fn reads_exactly(lines: Seq<Seq<char>>, n: int) -> bool {
    &&& 0 <= n <= lines.len()
    &&& n == lines.len() || stops_at(lines, n)
    &&& forall|i: int| 0 <= i < n ==> !stops_at(lines, i)
}

/// The lines that are read, in order.
pub open spec fn header_of(lines: Seq<Seq<char>>) -> Seq<Seq<char>> {
    lines.take(choose|n: int| reads_exactly(lines, n))
}

/// `line` is a null directive whose value is no floating-point literal.
pub open spec fn malformed(line: Seq<char>) -> bool {
    directive(line, null_key()) && !float_literal(value_of(line))
}

/// Line `i` is the first malformed one among `lines`.
pub open spec fn first_malformed(lines: Seq<Seq<char>>, i: int) -> bool {
    &&& 0 <= i < lines.len()
    &&& malformed(lines[i])
    &&& forall|j: int| 0 <= j < i ==> !malformed(#[trigger] lines[j])
}

/// What the lines of a header declare, each field by its last directive.
pub open spec fn declared(header: Seq<Seq<char>>) -> DescriptorModel {
    DescriptorModel {
        label: match last_value(header, label_key()) {
            Some(v) => v,
            None => Seq::empty(),
        },
        metric_type: match last_value(header, type_key()) {
            Some(v) => metric_type_of(v),
            None => MetricType::Unknown,
        },
        description: match last_value(header, description_key()) {
            Some(v) => v,
            None => Seq::empty(),
        },
        fallback: match last_value(header, null_key()) {
            Some(v) => v,
            None => not_a_number(),
        },
    }
}

/// The lines of the script `contents` that are read.
pub open spec fn header(contents: Seq<char>) -> Seq<Seq<char>> {
    header_of(lines_of(contents))
}

/// No line that is read of the script `contents` is malformed.
pub open spec fn well_formed(contents: Seq<char>) -> bool {
    forall|i: int| 0 <= i < header(contents).len() ==> !malformed(#[trigger] header(contents)[i])
}

/// The descriptor that the script `contents` declares.
pub open spec fn descriptor_of(contents: Seq<char>) -> DescriptorModel {
    declared(header(contents))
}

/// Some number of lines is always read.
pub proof fn lemma_header_exists(lines: Seq<Seq<char>>)
    ensures
        reads_exactly(lines, choose|n: int| reads_exactly(lines, n)),
{
    lemma_reads_up_to(lines, lines.len() as int);
    let n = choose|n: int|
        0 <= n <= lines.len() && #[trigger] reads_within(lines, n, lines.len() as int);
    assert(reads_exactly(lines, n));
}

/// Either reading stops within the first `k` lines, or it reaches line `k`.
proof fn lemma_reads_up_to(lines: Seq<Seq<char>>, k: int)
    requires
        0 <= k <= lines.len(),
    ensures
        exists|n: int| 0 <= n <= k && #[trigger] reads_within(lines, n, k),
    decreases k,
{
    if k == 0 {
        assert(reads_within(lines, 0, 0));
    } else {
        lemma_reads_up_to(lines, k - 1);
        let n = choose|n: int| 0 <= n <= k - 1 && #[trigger] reads_within(lines, n, k - 1);
        if n < k - 1 || stops_at(lines, k - 1) {
            assert(reads_within(lines, n, k));
        } else {
            assert(reads_within(lines, k, k));
        }
    }
}

/// Reading has stopped at line `n`, or has come to line `n == k` unstopped.
spec fn reads_within(lines: Seq<Seq<char>>, n: int, k: int) -> bool {
    &&& 0 <= n <= k <= lines.len()
    &&& n == k || stops_at(lines, n)
    &&& forall|i: int| 0 <= i < n ==> !stops_at(lines, i)
}

/// The number of lines read is determined by the lines.
pub proof fn lemma_reads_exactly_once(lines: Seq<Seq<char>>, n: int)
    requires
        reads_exactly(lines, n),
    ensures
        header_of(lines) == lines.take(n),
{
    let m = choose|m: int| reads_exactly(lines, m);
    if m < n {
        assert(stops_at(lines, m));
    }
    if n < m {
        assert(stops_at(lines, n));
    }
}

/// Of several directives with one key, the last one that is read decides.
pub proof fn lemma_last_directive_decides(lines: Seq<Seq<char>>, key: Seq<char>, i: int)
    requires
        0 <= i < lines.len(),
        directive(lines[i], key),
        forall|j: int| i < j < lines.len() ==> !directive(#[trigger] lines[j], key),
    ensures
        last_value(lines, key) == Some(value_of(lines[i])),
    decreases lines.len(),
{
    if i < lines.len() - 1 {
        lemma_last_directive_decides(lines.drop_last(), key, i);
    }
}

/// The last assignment wins: where line `i` is the last line read of the
/// script `contents` that is a directive with its key, the value of line `i`
/// is what the descriptor holds for that key. (A directive below the line
/// at which reading stops is not read, and does not count.)
pub proof fn lemma_last_assignment_wins(contents: Seq<char>, key: Seq<char>, i: int)
    requires
        0 <= i < header(contents).len(),
        directive(header(contents)[i], key),
        forall|j: int|
            i < j < header(contents).len() ==> !directive(#[trigger] header(contents)[j], key),
    ensures
        key == label_key() ==> descriptor_of(contents).label == value_of(header(contents)[i]),
        key == description_key() ==> descriptor_of(contents).description == value_of(
            header(contents)[i],
        ),
        key == type_key() ==> descriptor_of(contents).metric_type == metric_type_of(
            value_of(header(contents)[i]),
        ),
        key == null_key() ==> descriptor_of(contents).fallback == value_of(header(contents)[i]),
{
    lemma_last_directive_decides(header(contents), key, i);
}

/// While no line completes the header, every line is read: a script in
/// which one of description, type and null is never declared is read to its
/// end.
pub proof fn lemma_incomplete_header_reads_all(contents: Seq<char>)
    requires
        !header_complete(lines_of(contents)),
    ensures
        header(contents) == lines_of(contents),
{
    let lines = lines_of(contents);
    assert forall|i: int| 0 <= i < lines.len() implies !stops_at(lines, i) by {
        if header_complete(lines.take(i)) {
            lemma_complete_stays_complete(lines, i);
        }
    }
    lemma_reads_exactly_once(lines, lines.len() as int);
    assert(lines.take(lines.len() as int) == lines);
}

/// A directive that occurs among the first lines occurs among all.
proof fn lemma_declared_stays_declared(lines: Seq<Seq<char>>, key: Seq<char>, n: int)
    requires
        0 <= n <= lines.len(),
        last_value(lines.take(n), key) is Some,
    ensures
        last_value(lines, key) is Some,
    decreases lines.len() - n,
{
    if n < lines.len() {
        assert(lines.take(n + 1).drop_last() == lines.take(n));
        lemma_declared_stays_declared(lines, key, n + 1);
    } else {
        assert(lines.take(n) == lines);
    }
}

/// A header that is complete after some lines is complete after all.
proof fn lemma_complete_stays_complete(lines: Seq<Seq<char>>, n: int)
    requires
        0 <= n <= lines.len(),
        header_complete(lines.take(n)),
    ensures
        header_complete(lines),
{
    lemma_declared_stays_declared(lines, description_key(), n);
    lemma_declared_stays_declared(lines, type_key(), n);
    lemma_declared_stays_declared(lines, null_key(), n);
}

/// A key that no line begins with is not declared.
proof fn lemma_absent_key_declares_nothing(lines: Seq<Seq<char>>, key: Seq<char>)
    requires
        forall|j: int| 0 <= j < lines.len() ==> !directive(#[trigger] lines[j], key),
    ensures
        last_value(lines, key) is None,
    decreases lines.len(),
{
    if lines.len() > 0 {
        lemma_absent_key_declares_nothing(lines.drop_last(), key);
    }
}

/// What is not declared has its default: where no line read of the script
/// `contents` is a directive with one of the four keys, the label or the
/// description is empty, the type is unknown, or the fallback is
/// not-a-number.
pub proof fn lemma_undeclared_key_defaults(contents: Seq<char>, key: Seq<char>)
    requires
        forall|j: int|
            0 <= j < header(contents).len() ==> !directive(#[trigger] header(contents)[j], key),
    ensures
        key == label_key() ==> descriptor_of(contents).label == Seq::<char>::empty(),
        key == description_key() ==> descriptor_of(contents).description == Seq::<char>::empty(),
        key == type_key() ==> descriptor_of(contents).metric_type == MetricType::Unknown,
        key == null_key() ==> descriptor_of(contents).fallback == not_a_number(),
{
    lemma_absent_key_declares_nothing(header(contents), key);
}

/// There is one first malformed line at most.
pub proof fn lemma_first_malformed_once(lines: Seq<Seq<char>>, i: int, j: int)
    requires
        first_malformed(lines, i),
        first_malformed(lines, j),
    ensures
        i == j,
{
    if i < j {
        assert(malformed(lines[i]));
    }
    if j < i {
        assert(malformed(lines[j]));
    }
}

/// The metric type that the text under `span` names.
fn metric_type_named(text: &Vec<char>, span: Span) -> (r: MetricType)
    requires
        span.within(text@.len()),
    ensures
        r == metric_type_of(span.of(text@)),
{
    if eq_ignoring_ascii_case(text, span, &chars_of("counter")) {
        MetricType::Counter
    } else if eq_ignoring_ascii_case(text, span, &chars_of("gauge")) {
        MetricType::Gauge
    } else if eq_ignoring_ascii_case(text, span, &chars_of("histogram")) {
        MetricType::Histogram
    } else if eq_ignoring_ascii_case(text, span, &chars_of("info")) {
        MetricType::Info
    } else {
        MetricType::Unknown
    }
}

/// The span of the value that the directive under `line` assigns.
fn value_span(text: &Vec<char>, line: Span) -> (r: Span)
    requires
        line.within(text@.len()),
    ensures
        r.within(text@.len()),
        r.of(text@) == value_of(line.of(text@)),
{
    trim(text, after_last(text, line, '='))
}

/// The text under `span`, or `absent` where there is no span.
fn text_or(contents: &str, span: Option<Span>, absent: &str) -> (r: String)
    requires
        span matches Some(s) ==> s.within(contents@.len()),
    ensures
        r@ == match span {
            Some(s) => s.of(contents@),
            None => absent@,
        },
{
    match span {
        Some(s) => text_of(contents, s),
        None => absent.to_owned(),
    }
}

/// Reads the descriptor that the script `contents` declares.
pub fn read_infos(contents: &str) -> (result: Result<Descriptor, ParseDefect>)
    ensures
        match result {
            Ok(descriptor) => well_formed(contents@) && descriptor@ == descriptor_of(contents@),
            Err(ParseDefect::MalformedFallback { line }) => first_malformed(
                header(contents@),
                line as int,
            ),
        },
{
    let text = chars_of(contents);
    let rows = lines(&text);
    let ghost all = lines_of(contents@);
    let label_key = chars_of("#label=");
    let description_key = chars_of("#description=");
    let type_key = chars_of("#type=");
    let null_key = chars_of("#null=");

    let mut label: Option<Span> = None;
    let mut description: Option<Span> = None;
    let mut metric_type: Option<MetricType> = None;
    let mut null: Option<Span> = None;
    let mut i: usize = 0;
    while i < rows.len()
        invariant
            text@ == contents@,
            all == lines_of(text@),
            crate::text::spans_cut(text@, rows@, all),
            label_key@ == self::label_key(),
            description_key@ == self::description_key(),
            type_key@ == self::type_key(),
            null_key@ == self::null_key(),
            0 <= i <= all.len(),
            forall|j: int| 0 <= j < i ==> !stops_at(all, j),
            forall|j: int| 0 <= j < i ==> !malformed(#[trigger] all[j]),
            label matches Some(s) ==> s.within(text@.len()),
            description matches Some(s) ==> s.within(text@.len()),
            null matches Some(s) ==> s.within(text@.len()) && float_literal(s.of(text@)),
            last_value(all.take(i as int), self::label_key()) == match label {
                Some(s) => Some(s.of(text@)),
                None => None,
            },
            last_value(all.take(i as int), self::description_key()) == match description {
                Some(s) => Some(s.of(text@)),
                None => None,
            },
            last_value(all.take(i as int), self::null_key()) == match null {
                Some(s) => Some(s.of(text@)),
                None => None,
            },
            match last_value(all.take(i as int), self::type_key()) {
                Some(v) => metric_type == Some(metric_type_of(v)),
                None => metric_type is None,
            },
        ensures
            reads_exactly(all, i as int),
        decreases rows@.len() - i,
    {
        let line = rows[i];
        assert(line.of(text@) == all[i as int]);
        if !line.is_empty() && description.is_some() && metric_type.is_some() && null.is_some() {
            assert(stops_at(all, i as int));
            break;
        }
        assert(!stops_at(all, i as int));
        proof {
            assert(all.take(i + 1).drop_last() == all.take(i as int));
            assert(all.take(i + 1).last() == all[i as int]);
        }
        if starts_with(&text, line, &label_key) {
            label = Some(value_span(&text, line));
        }
        if starts_with(&text, line, &description_key) {
            description = Some(value_span(&text, line));
        }
        if starts_with(&text, line, &type_key) {
            metric_type = Some(metric_type_named(&text, value_span(&text, line)));
        }
        if starts_with(&text, line, &null_key) {
            let value = value_span(&text, line);
            if !is_float_literal(&text, value) {
                proof {
                    assert(malformed(all[i as int]));
                    lemma_header_exists(all);
                    let n = choose|n: int| reads_exactly(all, n);
                    if n <= i {
                        assert(stops_at(all, n));
                    }
                    assert(header_of(all)[i as int] == all[i as int]);
                }
                return Err(ParseDefect::MalformedFallback { line: i });
            }
            null = Some(value);
        }
        i += 1;
    }
    proof {
        lemma_reads_exactly_once(all, i as int);
        reveal_strlit("");
        assert(""@ =~= Seq::<char>::empty());
    }
    let ghost header = all.take(i as int);
    let fallback = match null {
        Some(s) => FloatLiteral::from_checked(text_of(contents, s)),
        None => FloatLiteral::nan(),
    };
    let descriptor = Descriptor {
        label: text_or(contents, label, ""),
        metric_type: match metric_type {
            Some(t) => t,
            None => MetricType::Unknown,
        },
        description: text_or(contents, description, ""),
        fallback,
    };
    proof {
        assert(descriptor@.label == declared(header).label);
        assert(descriptor@.description == declared(header).description);
        assert(descriptor@.metric_type == declared(header).metric_type);
        assert(descriptor@.fallback == declared(header).fallback);
        assert(forall|j: int| 0 <= j < header.len() ==> header[j] == all[j]);
    }
    Ok(descriptor)
}

} // verus!
