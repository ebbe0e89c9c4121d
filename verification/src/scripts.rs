//! Script collectors: what one run of a probe script is worth as a sample.
//!
//! A collector is asked once per scrape. Running the script is the caller's
//! business; the collector is handed how the run ended and decides the
//! sample:
//!
//! 1. the script could not be started: the fallback value;
//! 2. it ended with a failure status: the fallback value;
//! 3. it ended well: its standard output is trimmed and cut at line feeds,
//!    lines that begin with `#` are dropped, and the first line left is read
//!    as an unsigned integer or else as a floating-point literal. Where no
//!    line is left, or the line is neither, the fallback value.
//!
//! Anything on standard error is remarked upon and changes nothing.

use crate::descriptor::MetricType;
use crate::number::{
    float_literal, is_float_literal, parse_unsigned, unsigned_of, FloatLiteral,
};
use crate::text::{chars_of, segments, split, text_of, trim, trimmed, Span};
use vstd::prelude::*;

verus! {

/// One probe script with what its descriptor declares for its samples.
#[derive(Clone, Debug, PartialEq, Eq)]
pub struct ScraperScript {
    /// The path of the script, which is run as it stands.
    pub script: String,
    pub metric_type: MetricType,
    /// The value served whenever a run yields none.
    pub failure_value: FloatLiteral,
}

/// How one run of a script ended.
#[derive(Clone, Debug, PartialEq, Eq)]
pub enum Execution {
    /// The script could not be started.
    SpawnFailed,
    /// The script ran and ended with a status other than success: with the
    /// exit code `code`, or with none where a signal ended it.
    Failed { code: Option<i32> },
    /// The script ran and ended with success.
    Succeeded { stdout: String, stderr: String },
}

/// A single scalar, with the kind of number it is to be encoded as.
#[derive(Clone, Debug, PartialEq, Eq)]
pub enum Sample {
    Integer(u64),
    Float(FloatLiteral),
}

/// A sample as plain values.
pub enum SampleModel {
    Integer(u64),
    Float(Seq<char>),
}

impl View for Sample {
    type V = SampleModel;

    open spec fn view(&self) -> SampleModel {
        match self {
            Sample::Integer(v) => SampleModel::Integer(*v),
            Sample::Float(literal) => SampleModel::Float(literal@),
        }
    }
}

/// How grave a remark is.
#[derive(Clone, Copy, Debug, PartialEq, Eq, Structural)]
pub enum Severity {
    Warning,
    Error,
}

/// Why a run yielded no sample of its own.
#[derive(Clone, Copy, Debug, PartialEq, Eq, Structural)]
pub enum Defect {
    /// The script could not be started.
    SpawnFailed,
    /// The script ended with a failure status: with the exit code `code`,
    /// or with none where a signal ended it.
    NonZeroExit { code: Option<i32> },
    /// Standard output holds nothing but comments.
    NoUsableOutput,
    /// The first line of output that is no comment is not a number.
    NotNumeric,
}

impl Defect {
    pub open spec fn severity_of(self) -> Severity {
        match self {
            Defect::SpawnFailed => Severity::Warning,
            _ => Severity::Error,
        }
    }

    /// How grave the defect is: a script that cannot be started is worth a
    /// warning, every other defect an error.
    pub fn severity(&self) -> (r: Severity)
        ensures
            r == self.severity_of(),
    {
        match self {
            Defect::SpawnFailed => Severity::Warning,
            _ => Severity::Error,
        }
    }
}

/// What a collector makes of one run.
#[derive(Clone, Debug, PartialEq, Eq)]
pub struct Encoded {
    /// The sample to expose.
    pub sample: Sample,
    /// The defect that made the sample the fallback value, if any did.
    pub defect: Option<Defect>,
    /// The script wrote to standard error: worth a warning.
    pub stderr_noise: bool,
}

/// `line` is a comment: it begins with `#`.
pub open spec fn comment(line: Seq<char>) -> bool {
    line.len() > 0 && line[0] == '#'
}

/// The test that keeps the lines that are no comments.
pub open spec fn no_comment() -> spec_fn(Seq<char>) -> bool {
    |line: Seq<char>| !comment(line)
}

/// The lines of an output that count: the output is trimmed and cut at line
/// feeds, and comments are dropped.
pub open spec fn data_lines(stdout: Seq<char>) -> Seq<Seq<char>> {
    segments(trimmed(stdout), '\n').filter(no_comment())
}

/// The number that `line` writes: an unsigned integer where it is one, else a
/// floating-point number where it is one.
pub open spec fn number_of(line: Seq<char>) -> Option<SampleModel> {
    match unsigned_of(line) {
        Some(v) => Some(SampleModel::Integer(v)),
        None => if float_literal(line) {
            Some(SampleModel::Float(line))
        } else {
            None
        },
    }
}

/// What the standard output of a successful run is worth.
pub open spec fn reading(stdout: Seq<char>) -> Result<SampleModel, Defect> {
    let data = data_lines(stdout);
    if data.len() == 0 {
        Err(Defect::NoUsableOutput)
    } else {
        match number_of(data[0]) {
            Some(sample) => Ok(sample),
            None => Err(Defect::NotNumeric),
        }
    }
}

/// What a run is worth.
pub open spec fn outcome(execution: Execution) -> Result<SampleModel, Defect> {
    match execution {
        Execution::SpawnFailed => Err(Defect::SpawnFailed),
        Execution::Failed { code } => Err(Defect::NonZeroExit { code }),
        Execution::Succeeded { stdout, stderr } => reading(stdout@),
    }
}

/// The run ended well and left more than whitespace on standard error.
pub open spec fn noisy(execution: Execution) -> bool {
    execution matches Execution::Succeeded { stdout, stderr } && trimmed(stderr@).len() > 0
}

/// Where the first `k` of `lines` are comments, the first line kept is line
/// `k` if that is no comment, and none is kept if there is no line `k`.
proof fn lemma_first_data_line(lines: Seq<Seq<char>>, k: int)
    requires
        0 <= k <= lines.len(),
        forall|j: int| 0 <= j < k ==> comment(#[trigger] lines[j]),
    ensures
        k == lines.len() ==> lines.filter(no_comment()).len() == 0,
        k < lines.len() && !comment(lines[k]) ==> lines.filter(no_comment()).len() > 0
            && lines.filter(no_comment())[0] == lines[k],
    decreases lines.len(),
{
    reveal(Seq::filter);
    if lines.len() > 0 {
        let front = lines.drop_last();
        if k == lines.len() {
            lemma_first_data_line(front, k - 1);
        } else {
            lemma_first_data_line(front, k);
        }
    }
}

/// Whether the part of `text` under `line` begins with `#`.
fn is_comment(text: &Vec<char>, line: Span) -> (b: bool)
    requires
        line.within(text@.len()),
    ensures
        b == comment(line.of(text@)),
{
    line.start < line.end && text[line.start] == '#'
}

/// Reads the standard output of a successful run.
pub fn read_output(stdout: &str) -> (r: Result<Sample, Defect>)
    ensures
        match r {
            Ok(sample) => reading(stdout@) == Ok::<SampleModel, Defect>(sample@),
            Err(defect) => reading(stdout@) == Err::<SampleModel, Defect>(defect),
        },
{
    let text = chars_of(stdout);
    let whole = Span { start: 0, end: text.len() };
    assert(whole.of(text@) == stdout@);
    let body = trim(&text, whole);
    let rows = split(&text, body, '\n');
    let ghost pieces = segments(trimmed(stdout@), '\n');
    let mut k: usize = 0;
    while k < rows.len() && is_comment(&text, rows[k])
        invariant
            crate::text::spans_cut(text@, rows@, pieces),
            k <= rows@.len(),
            forall|j: int| 0 <= j < k ==> comment(#[trigger] pieces[j]),
        decreases rows@.len() - k,
    {
        k += 1;
    }
    proof {
        lemma_first_data_line(pieces, k as int);
    }
    if k == rows.len() {
        return Err(Defect::NoUsableOutput);
    }
    let line = rows[k];
    assert(line.of(text@) == data_lines(stdout@)[0]);
    match parse_unsigned(&text, line) {
        Some(v) => Ok(Sample::Integer(v)),
        None => {
            if is_float_literal(&text, line) {
                Ok(Sample::Float(FloatLiteral::from_checked(text_of(stdout, line))))
            } else {
                Err(Defect::NotNumeric)
            }
        },
    }
}

/// Whether `text` holds more than whitespace.
pub fn has_content(text: &str) -> (b: bool)
    ensures
        b == (trimmed(text@).len() > 0),
{
    let chars = chars_of(text);
    let whole = Span { start: 0, end: chars.len() };
    assert(whole.of(chars@) == text@);
    !trim(&chars, whole).is_empty()
}

impl ScraperScript {
    /// The sample that a run is worth to this collector: the number that the
    /// run yielded, or this collector's fallback value together with the
    /// defect that kept the run from yielding one.
    pub fn encode(&self, execution: &Execution) -> (r: Encoded)
        ensures
            r.sample@ == match outcome(*execution) {
                Ok(sample) => sample,
                Err(_) => SampleModel::Float(self.failure_value@),
            },
            r.defect == match outcome(*execution) {
                Ok(_) => None,
                Err(defect) => Some(defect),
            },
            r.stderr_noise == noisy(*execution),
    {
        let (measured, stderr_noise) = match execution {
            Execution::SpawnFailed => (Err(Defect::SpawnFailed), false),
            Execution::Failed { code } => (Err(Defect::NonZeroExit { code: *code }), false),
            Execution::Succeeded { stdout, stderr } => (
                read_output(stdout.as_str()),
                has_content(stderr.as_str()),
            ),
        };
        match measured {
            Ok(sample) => Encoded { sample, defect: None, stderr_noise },
            Err(defect) => Encoded {
                sample: Sample::Float(self.failure_value.clone()),
                defect: Some(defect),
                stderr_noise,
            },
        }
    }

    /// How the samples of this collector are framed.
    pub fn metric_type(&self) -> (r: MetricType)
        ensures
            r == self.metric_type,
    {
        self.metric_type
    }
}

} // verus!
