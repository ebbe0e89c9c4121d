use pink_lady::text::{
    after_last, chars_of, ends_with, eq_ignoring_ascii_case, is_whitespace, lines, same_text,
    split, starts_with, text_of, to_ascii_lower, trim, Span,
};

fn whole(text: &Vec<char>) -> Span {
    Span { start: 0, end: text.len() }
}

fn cut(text: &Vec<char>, span: Span) -> String {
    text[span.start..span.end].iter().collect()
}

fn pieces(text: &Vec<char>, spans: &Vec<Span>) -> Vec<String> {
    spans.iter().map(|span| cut(text, *span)).collect()
}

/// Every text of at most `len` characters out of `alphabet`.
fn texts(alphabet: &[char], len: usize) -> Vec<String> {
    let mut all = vec![String::new()];
    let mut from = 0;
    for _ in 0..len {
        let upto = all.len();
        for i in from..upto {
            for c in alphabet {
                let mut longer = all[i].clone();
                longer.push(*c);
                all.push(longer);
            }
        }
        from = upto;
    }
    all
}

const SAMPLES: [&str; 24] = [
    "",
    "a",
    "\n",
    "\r",
    "\r\n",
    "a\n",
    "a\r\n",
    "a\r",
    "a\nb",
    "a\r\nb\r\n",
    "a\n\nb",
    "\n\n",
    "a\r\r\n",
    "\ra\n",
    "a\n\rb",
    "  padded  ",
    "\t\u{a0}x\u{3000}\n",
    "\u{2028}line\u{2029}",
    "#label=cpu\n#type=gauge\n",
    "k=v=w",
    "===",
    "no separator",
    "é\nü\r\n",
    "\u{85}\u{1680}mid dle\u{205f}\u{202f}",
];

#[test]
fn chars_of_gives_every_character() {
    for sample in SAMPLES {
        let expected: Vec<char> = sample.chars().collect();
        assert_eq!(chars_of(sample), expected);
    }
}

#[test]
fn whitespace_is_the_unicode_property() {
    let mut code: u32 = 0;
    while code <= 0x10FFFF {
        if let Some(c) = char::from_u32(code) {
            assert_eq!(is_whitespace(c), c.is_whitespace(), "U+{:04X}", code);
        }
        code += 1;
    }
}

#[test]
fn ascii_lower_touches_capitals_only() {
    let mut code: u32 = 0;
    while code <= 0x10FFFF {
        if let Some(c) = char::from_u32(code) {
            assert_eq!(to_ascii_lower(c), c.to_ascii_lowercase(), "U+{:04X}", code);
        }
        code += 1;
    }
}

#[test]
fn trim_is_trim_of_the_standard_library() {
    for sample in SAMPLES {
        let text = chars_of(sample);
        let span = trim(&text, whole(&text));
        assert_eq!(cut(&text, span), sample.trim(), "{:?}", sample);
    }
}

#[test]
fn trim_keeps_inner_whitespace_and_stays_in_its_span() {
    let text = chars_of("xx  a b  yy");
    let span = trim(&text, Span { start: 2, end: 9 });
    assert_eq!(span, Span { start: 4, end: 7 });
    assert_eq!(cut(&text, span), "a b");
}

#[test]
fn trim_of_whitespace_alone_is_empty() {
    let text = chars_of(" \t\r\n ");
    let span = trim(&text, whole(&text));
    assert!(span.is_empty());
    assert_eq!(cut(&text, span), "");
}

#[test]
fn split_is_split_of_the_standard_library() {
    for sample in SAMPLES {
        let text = chars_of(sample);
        for sep in ['\n', '=', ' '] {
            let spans = split(&text, whole(&text), sep);
            let expected: Vec<String> = sample.split(sep).map(|piece| piece.to_string()).collect();
            assert_eq!(pieces(&text, &spans), expected, "{:?} at {:?}", sample, sep);
        }
    }
}

#[test]
fn split_of_nothing_is_one_empty_piece() {
    let text = chars_of("");
    let spans = split(&text, whole(&text), '\n');
    assert_eq!(spans, vec![Span { start: 0, end: 0 }]);
}

#[test]
fn split_counts_one_piece_more_than_separators() {
    let text = chars_of("a,,b,");
    let spans = split(&text, whole(&text), ',');
    assert_eq!(pieces(&text, &spans), vec!["a", "", "b", ""]);
}

#[test]
fn lines_are_lines_of_the_standard_library() {
    for sample in SAMPLES {
        let text = chars_of(sample);
        let spans = lines(&text);
        let expected: Vec<String> = sample.lines().map(|line| line.to_string()).collect();
        assert_eq!(pieces(&text, &spans), expected, "{:?}", sample);
    }
}

#[test]
fn lines_end_at_line_feed_with_or_without_carriage_return() {
    let text = chars_of("one\r\ntwo\n\nfour");
    let spans = lines(&text);
    assert_eq!(pieces(&text, &spans), vec!["one", "two", "", "four"]);
}

#[test]
fn a_carriage_return_alone_ends_no_line() {
    let text = chars_of("a\rb\r");
    let spans = lines(&text);
    assert_eq!(pieces(&text, &spans), vec!["a\rb\r"]);
}

#[test]
fn an_empty_text_has_no_line() {
    let text = chars_of("");
    assert_eq!(lines(&text).len(), 0);
}

#[test]
fn after_last_is_the_last_piece_of_a_split() {
    for sample in SAMPLES {
        let text = chars_of(sample);
        let span = after_last(&text, whole(&text), '=');
        assert_eq!(cut(&text, span), sample.split('=').last().unwrap(), "{:?}", sample);
    }
}

#[test]
fn after_last_without_separator_is_everything() {
    let text = chars_of("plain");
    assert_eq!(after_last(&text, whole(&text), '='), Span { start: 0, end: 5 });
}

#[test]
fn after_last_takes_the_last_separator() {
    let text = chars_of("#label=a=b");
    let span = after_last(&text, whole(&text), '=');
    assert_eq!(cut(&text, span), "b");
}

#[test]
fn starts_with_and_ends_with_agree_with_the_standard_library() {
    let needles = ["", "a", "#label=", ".prom", "\n", "no separator", "padded  ", "  pad"];
    for sample in SAMPLES {
        let text = chars_of(sample);
        for needle in needles {
            let pattern = chars_of(needle);
            assert_eq!(
                starts_with(&text, whole(&text), &pattern),
                sample.starts_with(needle),
                "{:?} starts with {:?}",
                sample,
                needle
            );
            assert_eq!(
                ends_with(&text, whole(&text), &pattern),
                sample.ends_with(needle),
                "{:?} ends with {:?}",
                sample,
                needle
            );
        }
    }
}

#[test]
fn starts_with_looks_at_the_span_only() {
    let text = chars_of("ab#null=1");
    let key = chars_of("#null=");
    assert!(!starts_with(&text, whole(&text), &key));
    assert!(starts_with(&text, Span { start: 2, end: 9 }, &key));
    assert!(!starts_with(&text, Span { start: 2, end: 7 }, &key));
}

#[test]
fn case_is_ignored_for_ascii_letters_only() {
    let word = chars_of("gauge");
    for (sample, expected) in [
        ("gauge", true),
        ("GAUGE", true),
        ("GaUgE", true),
        ("gauges", false),
        ("gaug", false),
        ("", false),
        ("gäuge", false),
    ] {
        let text = chars_of(sample);
        assert_eq!(eq_ignoring_ascii_case(&text, whole(&text), &word), expected, "{:?}", sample);
    }
    let kelvin = chars_of("\u{212a}");
    assert!(!eq_ignoring_ascii_case(&kelvin, whole(&kelvin), &chars_of("k")));
}

#[test]
fn same_text_is_equality() {
    assert!(same_text("", ""));
    assert!(same_text("/metrics", "/metrics"));
    assert!(!same_text("/metrics", "/metrics/"));
    assert!(!same_text("/metrics", "/Metrics"));
    assert!(!same_text("a", ""));
}

#[test]
fn text_of_counts_characters_not_bytes() {
    let source = "é=ü ß";
    assert_eq!(text_of(source, Span { start: 2, end: 5 }), "ü ß");
    assert_eq!(text_of(source, Span { start: 0, end: 0 }), "");
    assert_eq!(text_of(source, Span { start: 0, end: 5 }), source);
}

#[test]
fn every_short_text_is_cut_as_the_standard_library_cuts_it() {
    for sample in texts(&['\n', '\r', 'a', ' ', '='], 6) {
        let text = chars_of(&sample);
        let everything = whole(&text);
        let expected: Vec<String> = sample.lines().map(|line| line.to_string()).collect();
        assert_eq!(pieces(&text, &lines(&text)), expected, "lines of {:?}", sample);
        let expected: Vec<String> = sample.split('\n').map(|piece| piece.to_string()).collect();
        assert_eq!(pieces(&text, &split(&text, everything, '\n')), expected, "split of {:?}", sample);
        assert_eq!(cut(&text, trim(&text, everything)), sample.trim(), "trim of {:?}", sample);
        assert_eq!(
            cut(&text, after_last(&text, everything, '=')),
            sample.split('=').last().unwrap(),
            "tail of {:?}",
            sample
        );
    }
}

#[test]
fn the_pieces_of_a_split_lie_one_separator_apart() {
    for sample in texts(&[',', 'a'], 7) {
        let text = chars_of(&sample);
        let spans = split(&text, whole(&text), ',');
        assert_eq!(spans[0].start, 0);
        assert_eq!(spans[spans.len() - 1].end, text.len());
        for pair in spans.windows(2) {
            assert_eq!(pair[0].end + 1, pair[1].start);
            assert_eq!(text[pair[0].end], ',');
        }
    }
}

#[test]
fn trim_gives_the_place_of_what_is_left() {
    let text = chars_of("  ab  ");
    assert_eq!(trim(&text, whole(&text)), Span { start: 2, end: 4 });
    let blank = chars_of("    ");
    assert_eq!(trim(&blank, Span { start: 1, end: 3 }), Span { start: 3, end: 3 });
}
