use pink_lady::descriptor::MetricType;
use pink_lady::number::FloatLiteral;
use pink_lady::scripts::{
    has_content, read_output, Defect, Encoded, Execution, Sample, ScraperScript, Severity,
};

fn collector(fallback: &str) -> ScraperScript {
    ScraperScript {
        script: "/probes/load.prom".to_string(),
        metric_type: MetricType::Gauge,
        failure_value: FloatLiteral::parse(fallback).unwrap(),
    }
}

fn succeeded(stdout: &str, stderr: &str) -> Execution {
    Execution::Succeeded { stdout: stdout.to_string(), stderr: stderr.to_string() }
}

fn float(text: &str) -> Sample {
    Sample::Float(FloatLiteral::parse(text).unwrap())
}

/// The same reading, written with the text functions of the standard
/// library.
fn read_with_std(stdout: &str) -> Result<(bool, String), Defect> {
    let line = stdout.trim().split('\n').filter(|line| !line.starts_with('#')).next();
    match line {
        None => Err(Defect::NoUsableOutput),
        Some(line) => {
            if line.parse::<u64>().is_ok() {
                Ok((true, line.to_string()))
            } else if line.parse::<f64>().is_ok() {
                Ok((false, line.to_string()))
            } else {
                Err(Defect::NotNumeric)
            }
        }
    }
}

const OUTPUTS: [&str; 28] = [
    "",
    "\n",
    "42\n",
    "42.5\n",
    "# comment\n7\n",
    "not-a-number\n",
    "#only\n#comments\n",
    "#",
    "  \n\t42\n  ",
    "42\n43\n",
    "42\r\n",
    "42\r\n43\r\n",
    "\n\n42",
    "#a\n\n42",
    " # not a comment\n42\n",
    "4 2\n",
    "+7\n",
    "-7\n",
    "18446744073709551615",
    "18446744073709551616",
    "1e3",
    "NaN",
    "-inf\n#trailer",
    "0x10",
    "#c\r\n5",
    "5 #c",
    "\u{a0}9\u{3000}",
    "٣",
];

#[test]
fn reading_output_agrees_with_the_standard_library() {
    for output in OUTPUTS {
        let ours = read_output(output);
        match read_with_std(output) {
            Ok((true, line)) => {
                assert_eq!(ours, Ok(Sample::Integer(line.parse::<u64>().unwrap())), "{:?}", output)
            }
            Ok((false, line)) => assert_eq!(ours, Ok(float(&line)), "{:?}", output),
            Err(defect) => assert_eq!(ours, Err(defect), "{:?}", output),
        }
    }
}

#[test]
fn an_integer_is_an_integer_sample() {
    let encoded = collector("0").encode(&succeeded("42\n", ""));
    assert_eq!(encoded, Encoded { sample: Sample::Integer(42), defect: None, stderr_noise: false });
}

#[test]
fn a_float_is_a_float_sample() {
    let encoded = collector("0").encode(&succeeded("42.5\n", ""));
    assert_eq!(encoded, Encoded { sample: float("42.5"), defect: None, stderr_noise: false });
    match encoded.sample {
        Sample::Float(literal) => assert_eq!(literal.as_str().parse::<f64>().unwrap(), 42.5),
        Sample::Integer(_) => panic!("an integer sample"),
    }
}

#[test]
fn comments_are_skipped() {
    let encoded = collector("0").encode(&succeeded("# comment\n7\n", ""));
    assert_eq!(encoded, Encoded { sample: Sample::Integer(7), defect: None, stderr_noise: false });
}

#[test]
fn a_failure_status_gives_the_fallback() {
    let encoded = collector("-1").encode(&Execution::Failed { code: Some(1) });
    assert_eq!(
        encoded,
        Encoded {
            sample: float("-1"),
            defect: Some(Defect::NonZeroExit { code: Some(1) }),
            stderr_noise: false
        }
    );
    let killed = collector("-1").encode(&Execution::Failed { code: None });
    assert_eq!(killed.sample, float("-1"));
    assert_eq!(killed.defect, Some(Defect::NonZeroExit { code: None }));
}

#[test]
fn a_script_that_cannot_be_started_gives_the_fallback() {
    let encoded = collector("-1").encode(&Execution::SpawnFailed);
    assert_eq!(
        encoded,
        Encoded { sample: float("-1"), defect: Some(Defect::SpawnFailed), stderr_noise: false }
    );
}

#[test]
fn output_that_is_no_number_gives_the_fallback() {
    let encoded = collector("-1").encode(&succeeded("not-a-number\n", ""));
    assert_eq!(
        encoded,
        Encoded { sample: float("-1"), defect: Some(Defect::NotNumeric), stderr_noise: false }
    );
}

#[test]
fn output_of_comments_alone_gives_the_fallback() {
    let encoded = collector("2.5").encode(&succeeded("# one\n# two\n", ""));
    assert_eq!(
        encoded,
        Encoded { sample: float("2.5"), defect: Some(Defect::NoUsableOutput), stderr_noise: false }
    );
}

#[test]
fn empty_output_is_no_number() {
    assert_eq!(read_output(""), Err(Defect::NotNumeric));
    assert_eq!(read_output(" \n\t\n"), Err(Defect::NotNumeric));
}

#[test]
fn the_fallback_is_the_declared_one_exactly() {
    for fallback in ["NaN", "0", "-0.0", "1e-9", "+Infinity"] {
        for execution in [
            Execution::SpawnFailed,
            Execution::Failed { code: Some(1) },
            Execution::Failed { code: Some(-7) },
            Execution::Failed { code: None },
            succeeded("oops", ""),
            succeeded("#", "trouble"),
        ] {
            let encoded = collector(fallback).encode(&execution);
            assert_eq!(encoded.sample, float(fallback));
            assert!(encoded.defect.is_some());
        }
    }
}

#[test]
fn only_the_first_line_that_counts_is_read() {
    assert_eq!(read_output("1\n2\n3\n"), Ok(Sample::Integer(1)));
    assert_eq!(read_output("#1\n2\noops\n"), Ok(Sample::Integer(2)));
    assert_eq!(read_output("oops\n2\n"), Err(Defect::NotNumeric));
    assert_eq!(read_output("\n2\n"), Ok(Sample::Integer(2)));
    assert_eq!(read_output("#c\n\n2\n"), Err(Defect::NotNumeric));
}

#[test]
fn the_output_is_trimmed_as_a_whole_and_not_line_by_line() {
    assert_eq!(read_output("  42  "), Ok(Sample::Integer(42)));
    assert_eq!(read_output("\n\n 42 \n\n"), Ok(Sample::Integer(42)));
    assert_eq!(read_output("42 \n43"), Err(Defect::NotNumeric));
    assert_eq!(read_output("42\r\n43"), Err(Defect::NotNumeric));
    assert_eq!(read_output("# c\n 42"), Err(Defect::NotNumeric));
}

#[test]
fn an_integer_is_preferred_to_a_float() {
    assert_eq!(read_output("7"), Ok(Sample::Integer(7)));
    assert_eq!(read_output("+7"), Ok(Sample::Integer(7)));
    assert_eq!(read_output("7."), Ok(float("7.")));
    assert_eq!(read_output("-7"), Ok(float("-7")));
    assert_eq!(read_output("7e0"), Ok(float("7e0")));
}

#[test]
fn an_integer_too_large_for_64_bits_is_a_float() {
    assert_eq!(read_output("18446744073709551615"), Ok(Sample::Integer(u64::MAX)));
    assert_eq!(read_output("18446744073709551616"), Ok(float("18446744073709551616")));
}

#[test]
fn standard_error_is_remarked_upon_and_changes_nothing() {
    let quiet = collector("0").encode(&succeeded("42\n", " \n"));
    let noisy = collector("0").encode(&succeeded("42\n", "warning: disk\n"));
    assert_eq!(quiet, Encoded { sample: Sample::Integer(42), defect: None, stderr_noise: false });
    assert_eq!(noisy, Encoded { sample: Sample::Integer(42), defect: None, stderr_noise: true });
    let failed = collector("0").encode(&succeeded("oops", "warning: disk\n"));
    assert_eq!(
        failed,
        Encoded { sample: float("0"), defect: Some(Defect::NotNumeric), stderr_noise: true }
    );
}

#[test]
fn has_content_is_about_more_than_whitespace() {
    assert!(!has_content(""));
    assert!(!has_content(" \t\r\n\u{a0}"));
    assert!(has_content(" x "));
    assert!(has_content("\n.\n"));
}

#[test]
fn nothing_is_remembered_between_runs() {
    let script = collector("0");
    assert_eq!(script.encode(&succeeded("1", "")).sample, Sample::Integer(1));
    assert_eq!(script.encode(&Execution::Failed { code: Some(2) }).sample, float("0"));
    assert_eq!(script.encode(&succeeded("2", "")).sample, Sample::Integer(2));
}

#[test]
fn only_a_failed_start_is_a_warning() {
    assert_eq!(Defect::SpawnFailed.severity(), Severity::Warning);
    assert_eq!(Defect::NonZeroExit { code: Some(1) }.severity(), Severity::Error);
    assert_eq!(Defect::NonZeroExit { code: None }.severity(), Severity::Error);
    assert_eq!(Defect::NoUsableOutput.severity(), Severity::Error);
    assert_eq!(Defect::NotNumeric.severity(), Severity::Error);
}

#[test]
fn a_collector_knows_its_metric_type() {
    let mut script = collector("0");
    assert_eq!(script.metric_type(), MetricType::Gauge);
    script.metric_type = MetricType::Counter;
    assert_eq!(script.metric_type(), MetricType::Counter);
}

/// Every text of at most `len` characters out of `alphabet`.
fn texts(alphabet: &[char], len: usize) -> Vec<String> {
    let mut all = vec![String::new()];
    let mut from = 0;
    for _ in 0..len {
        let upto = all.len();
        for i in from..upto {
            for c in alphabet {
                let mut longer = all[i].clone();
                longer.push(*c);
                all.push(longer);
            }
        }
        from = upto;
    }
    all
}

#[test]
fn every_short_output_is_read_as_with_the_standard_library() {
    for output in texts(&['#', '\n', '1', '.', ' ', 'x', '\r'], 6) {
        let ours = read_output(&output);
        match read_with_std(&output) {
            Ok((true, line)) => {
                assert_eq!(ours, Ok(Sample::Integer(line.parse::<u64>().unwrap())), "{:?}", output)
            }
            Ok((false, line)) => assert_eq!(ours, Ok(float(&line)), "{:?}", output),
            Err(defect) => assert_eq!(ours, Err(defect), "{:?}", output),
        }
        assert_eq!(has_content(&output), !output.trim().is_empty(), "{:?}", output);
    }
}
