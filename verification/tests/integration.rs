use patcho::{parse, Diagnostic, Error, Expected, FilePatch, Hunk, HunkLine, LineRange, ParseError, UnifiedDiff};

fn run(input: &str, files: Vec<FilePatch>) {
    assert_eq!(
        parse(input).unwrap_or_else(|errors| panic!("parse errors: {errors:#?}")),
        UnifiedDiff { files }
    );
}

#[test]
fn parses_git_diff_metadata_and_hunk_lines() {
    run(
        "diff --git a/foo b/bar\nindex foo..bar 100644\n--- a/foo\n+++ b/bar\n@@ -1,2 +1,2 @@ baz\n foo\n-bar\n+baz\n",
        vec![FilePatch {
            metadata: vec![
                "diff --git a/foo b/bar".to_string(),
                "index foo..bar 100644".to_string(),
            ],
            old: "a/foo".to_string(),
            new: "b/bar".to_string(),
            hunks: vec![Hunk {
                old: LineRange { start: 1, count: 2 },
                new: LineRange { start: 1, count: 2 },
                section: Some("baz".to_string()),
                lines: vec![
                    HunkLine::Context("foo".to_string()),
                    HunkLine::Remove("bar".to_string()),
                    HunkLine::Add("baz".to_string()),
                ],
            }],
        }],
    );
}

#[test]
fn parses_default_ranges_and_no_newline_marker() {
    run(
        "--- foo\n+++ bar\n@@ -1 +1 @@\n-foo\n+bar\n\\ No newline at end of file\n",
        vec![FilePatch {
            metadata: vec![],
            old: "foo".to_string(),
            new: "bar".to_string(),
            hunks: vec![Hunk {
                old: LineRange { start: 1, count: 1 },
                new: LineRange { start: 1, count: 1 },
                section: None,
                lines: vec![
                    HunkLine::Remove("foo".to_string()),
                    HunkLine::Add("bar".to_string()),
                    HunkLine::NoNewlineAtEndOfFile,
                ],
            }],
        }],
    );
}

fn one_hunk(old: LineRange, new: LineRange, section: Option<&str>, lines: Vec<HunkLine>) -> Hunk {
    Hunk { old, new, section: section.map(|s| s.to_string()), lines }
}

fn patch(metadata: Vec<&str>, old: &str, new: &str, hunks: Vec<Hunk>) -> FilePatch {
    FilePatch {
        metadata: metadata.into_iter().map(|m| m.to_string()).collect(),
        old: old.to_string(),
        new: new.to_string(),
        hunks,
    }
}

fn range(start: usize, count: usize) -> LineRange {
    LineRange { start, count }
}

fn errors_of(input: &str) -> Vec<ParseError> {
    parse(input).expect_err("the input is not a unified diff")
}

#[test]
fn omitted_count_is_one_and_zero_count_is_kept() {
    run(
        "--- a\n+++ b\n@@ -3 +4,0 @@\n-x\n",
        vec![patch(vec![], "a", "b", vec![one_hunk(range(3, 1), range(4, 0), None, vec![
            HunkLine::Remove("x".to_string()),
        ])])],
    );
}

#[test]
fn crlf_line_endings_parse_like_lf() {
    let expected = vec![patch(vec!["diff x"], "a", "b", vec![one_hunk(
        range(1, 1),
        range(1, 1),
        Some("s"),
        vec![HunkLine::Remove("x".to_string()), HunkLine::Add("y".to_string())],
    )])];
    run("diff x\n--- a\n+++ b\n@@ -1 +1 @@ s\n-x\n+y\n", expected.clone());
    run("diff x\r\n--- a\r\n+++ b\r\n@@ -1 +1 @@ s\r\n-x\r\n+y\r\n", expected);
}

#[test]
fn timestamp_after_tab_is_dropped_from_paths() {
    run(
        "--- a/f\t2024-01-01 00:00:00\n+++ b/f\t2024-01-02\n@@ -1 +1 @@\n-x\n+y\n",
        vec![patch(vec![], "a/f", "b/f", vec![one_hunk(range(1, 1), range(1, 1), None, vec![
            HunkLine::Remove("x".to_string()),
            HunkLine::Add("y".to_string()),
        ])])],
    );
}

#[test]
fn section_drops_one_leading_space_only() {
    let diff = |header: &str| {
        parse(&format!("--- a\n+++ b\n{header}\n x\n")).unwrap().files[0].hunks[0]
            .section
            .clone()
    };
    assert_eq!(diff("@@ -1 +1 @@  fn main()"), Some(" fn main()".to_string()));
    assert_eq!(diff("@@ -1 +1 @@ fn main()"), Some("fn main()".to_string()));
    assert_eq!(diff("@@ -1 +1 @@fn"), Some("fn".to_string()));
    assert_eq!(diff("@@ -1 +1 @@ "), None);
    assert_eq!(diff("@@ -1 +1 @@"), None);
}

#[test]
fn several_files_with_git_metadata() {
    run(
        "diff --git a/x b/x\n--- a/x\n+++ b/x\n@@ -1 +1 @@\n-1\n+2\ndiff --git a/y b/y\nnew file mode 100644\n--- /dev/null\n+++ b/y\n@@ -0,0 +1,2 @@\n+a\n+b\n",
        vec![
            patch(vec!["diff --git a/x b/x"], "a/x", "b/x", vec![one_hunk(
                range(1, 1),
                range(1, 1),
                None,
                vec![HunkLine::Remove("1".to_string()), HunkLine::Add("2".to_string())],
            )]),
            patch(vec!["diff --git a/y b/y", "new file mode 100644"], "/dev/null", "b/y", vec![
                one_hunk(range(0, 0), range(1, 2), None, vec![
                    HunkLine::Add("a".to_string()),
                    HunkLine::Add("b".to_string()),
                ]),
            ]),
        ],
    );
}

#[test]
fn several_hunks_in_one_file() {
    run(
        "--- a\n+++ b\n@@ -1,2 +1,2 @@\n a\n-b\n+c\n@@ -10 +10 @@ tail\n-z\n",
        vec![patch(vec![], "a", "b", vec![
            one_hunk(range(1, 2), range(1, 2), None, vec![
                HunkLine::Context("a".to_string()),
                HunkLine::Remove("b".to_string()),
                HunkLine::Add("c".to_string()),
            ]),
            one_hunk(range(10, 1), range(10, 1), Some("tail"), vec![HunkLine::Remove("z".to_string())]),
        ])],
    );
}

#[test]
fn header_lines_without_metadata_are_read_as_hunk_lines() {
    run(
        "--- a\n+++ b\n@@ -1 +1 @@\n-x\n--- c\n+++ d\n@@ -1 +1 @@\n-y\n",
        vec![patch(vec![], "a", "b", vec![
            one_hunk(range(1, 1), range(1, 1), None, vec![
                HunkLine::Remove("x".to_string()),
                HunkLine::Remove("-- c".to_string()),
                HunkLine::Add("++ d".to_string()),
            ]),
            one_hunk(range(1, 1), range(1, 1), None, vec![HunkLine::Remove("y".to_string())]),
        ])],
    );
}

#[test]
fn last_line_may_lack_a_line_ending() {
    run(
        "--- a\n+++ b\n@@ -1 +1 @@\n-x\n+y\n\\ No newline at end of file",
        vec![patch(vec![], "a", "b", vec![one_hunk(range(1, 1), range(1, 1), None, vec![
            HunkLine::Remove("x".to_string()),
            HunkLine::Add("y".to_string()),
            HunkLine::NoNewlineAtEndOfFile,
        ])])],
    );
    run(
        "--- a\n+++ b\n@@ -1 +1 @@\n-x",
        vec![patch(vec![], "a", "b", vec![one_hunk(range(1, 1), range(1, 1), None, vec![
            HunkLine::Remove("x".to_string()),
        ])])],
    );
}

#[test]
fn empty_hunk_lines_keep_empty_text() {
    run(
        "--- a\n+++ b\n@@ -1,2 +1,2 @@\n \n-\n+\n",
        vec![patch(vec![], "a", "b", vec![one_hunk(range(1, 2), range(1, 2), None, vec![
            HunkLine::Context(String::new()),
            HunkLine::Remove(String::new()),
            HunkLine::Add(String::new()),
        ])])],
    );
}

#[test]
fn empty_input_expects_old_file_header() {
    assert_eq!(errors_of(""), vec![ParseError::Unexpected {
        span: 0..0,
        found: None,
        expected: Expected::OldFileHeader,
    }]);
}

#[test]
fn unterminated_text_is_not_metadata() {
    assert_eq!(errors_of("hello"), vec![ParseError::Unexpected {
        span: 0..1,
        found: Some('h'),
        expected: Expected::OldFileHeader,
    }]);
    assert_eq!(errors_of("hello\n"), vec![ParseError::Unexpected {
        span: 6..6,
        found: None,
        expected: Expected::OldFileHeader,
    }]);
}

#[test]
fn missing_new_file_header_is_reported() {
    assert_eq!(errors_of("--- a\n@@ -1 +1 @@\n"), vec![ParseError::Unexpected {
        span: 6..7,
        found: Some('@'),
        expected: Expected::NewFileHeader,
    }]);
    assert_eq!(errors_of("--- a\n++ b\n"), vec![ParseError::Unexpected {
        span: 8..9,
        found: Some(' '),
        expected: Expected::NewFileHeader,
    }]);
}

#[test]
fn missing_hunk_is_reported() {
    assert_eq!(errors_of("--- a\n+++ b\n"), vec![ParseError::Unexpected {
        span: 12..12,
        found: None,
        expected: Expected::HunkHeader,
    }]);
    assert_eq!(errors_of("--- a\n+++ b\n@ -1 +1 @@\n"), vec![ParseError::Unexpected {
        span: 13..14,
        found: Some(' '),
        expected: Expected::HunkHeader,
    }]);
}

#[test]
fn malformed_hunk_header_parts_are_reported() {
    assert_eq!(errors_of("--- a\n+++ b\n@@ -x +1 @@\n"), vec![ParseError::Unexpected {
        span: 16..17,
        found: Some('x'),
        expected: Expected::Digit,
    }]);
    assert_eq!(errors_of("--- a\n+++ b\n@@ -1 -1 @@\n"), vec![ParseError::Unexpected {
        span: 18..19,
        found: Some('-'),
        expected: Expected::NewRange,
    }]);
    assert_eq!(errors_of("--- a\n+++ b\n@@ -1 +y @@\n"), vec![ParseError::Unexpected {
        span: 19..20,
        found: Some('y'),
        expected: Expected::Digit,
    }]);
    assert_eq!(errors_of("--- a\n+++ b\n@@ -1 +1 @\n"), vec![ParseError::Unexpected {
        span: 22..23,
        found: Some('\n'),
        expected: Expected::HunkHeaderEnd,
    }]);
    assert_eq!(errors_of("--- a\n+++ b\n@@ -01 +1 @@\n"), vec![ParseError::Unexpected {
        span: 17..18,
        found: Some('1'),
        expected: Expected::NewRange,
    }]);
}

#[test]
fn text_after_the_last_file_is_reported() {
    assert_eq!(errors_of("--- a\n+++ b\n@@ -1 +1 @@\n-x\nfoo"), vec![ParseError::Unexpected {
        span: 27..28,
        found: Some('f'),
        expected: Expected::OldFileHeader,
    }]);
    assert_eq!(errors_of("--- a\n+++ b\n@@ -1 +1 @@\n-x\n\n"), vec![ParseError::Unexpected {
        span: 28..28,
        found: None,
        expected: Expected::OldFileHeader,
    }]);
}

#[test]
fn number_too_large_is_reported_and_parse_goes_on() {
    assert_eq!(errors_of("--- a\n+++ b\n@@ -99999999999999999999 +1 @@\n-x\n"), vec![
        ParseError::NumberTooLarge { span: 16..36 },
    ]);
    assert_eq!(
        errors_of("--- a\n+++ b\n@@ -1,99999999999999999999 +99999999999999999999 @@\n-x\nz"),
        vec![
            ParseError::NumberTooLarge { span: 18..38 },
            ParseError::NumberTooLarge { span: 40..60 },
            ParseError::Unexpected { span: 67..68, found: Some('z'), expected: Expected::OldFileHeader },
        ]
    );
}

#[test]
fn largest_usize_is_accepted() {
    let input = format!("--- a\n+++ b\n@@ -{} +1 @@\n-x\n", usize::MAX);
    assert_eq!(parse(&input).unwrap().files[0].hunks[0].old, range(usize::MAX, 1));
}

#[test]
fn spans_count_bytes() {
    assert_eq!(errors_of("\u{e9}\n--- a\n+++ b\n@@ -x +1 @@\n"), vec![ParseError::Unexpected {
        span: 19..20,
        found: Some('x'),
        expected: Expected::Digit,
    }]);
    assert_eq!(errors_of("\u{fc}"), vec![ParseError::Unexpected {
        span: 0..2,
        found: Some('\u{fc}'),
        expected: Expected::OldFileHeader,
    }]);
}

#[test]
fn unicode_line_separators_end_lines() {
    run(
        "--- a\u{2028}+++ b\u{85}@@ -1 +1 @@\x0c-x\x0b+y\r",
        vec![patch(vec![], "a", "b", vec![one_hunk(range(1, 1), range(1, 1), None, vec![
            HunkLine::Remove("x".to_string()),
            HunkLine::Add("y".to_string()),
        ])])],
    );
}

#[test]
fn diagnostic_from_parse_error() {
    let d = Diagnostic::from(ParseError::Unexpected {
        span: 3..4,
        found: Some('x'),
        expected: Expected::OldFileHeader,
    });
    assert_eq!(d.message(), "found 'x' expected '--- '");
    assert_eq!(d.span(), &(3..4));
    assert_eq!(d.to_text(), "found 'x' expected '--- ' at 3..4");
    let d = Diagnostic::from(ParseError::Unexpected {
        span: 12..12,
        found: None,
        expected: Expected::HunkHeader,
    });
    assert_eq!(d.message(), "found end of input expected '@@ -'");
    let d = Diagnostic::from(ParseError::NumberTooLarge { span: 16..36 });
    assert_eq!(d.message(), "number too large to fit in target type");
    assert_eq!(d.to_text(), "number too large to fit in target type at 16..36");
}

#[test]
fn error_from_parse_errors_keeps_order() {
    let errors = errors_of("--- a\n+++ b\n@@ -1,99999999999999999999 +1 @@\n-x\nz");
    let error = Error::from(errors);
    assert_eq!(error.diagnostics.len(), 2);
    assert_eq!(error.iter().count(), 2);
    assert_eq!(
        error.to_text(),
        "number too large to fit in target type at 18..38\nfound 'z' expected '--- ' at 48..49"
    );
    let messages: Vec<String> = error.clone().into_iter().map(|d| d.message).collect();
    assert_eq!(messages, vec![
        "number too large to fit in target type".to_string(),
        "found 'z' expected '--- '".to_string(),
    ]);
    assert_eq!(error.into_diagnostics().len(), 2);
}

#[test]
fn error_without_diagnostics_has_a_general_message() {
    assert_eq!(Error::from(Vec::new()).to_text(), "failed to parse unified diff");
}

#[test]
fn parsed_text_holds_no_line_endings() {
    let diff = parse("m\r\n--- a\r\n+++ b\r\n@@ -1 +1 @@ s\r\n x\r\n").unwrap();
    let f = &diff.files[0];
    assert!(!f.metadata[0].contains('\r') && !f.old.contains('\r') && !f.new.contains('\r'));
    assert_eq!(f.hunks[0].section.as_deref(), Some("s"));
    assert_eq!(f.hunks[0].lines, vec![HunkLine::Context("x".to_string())]);
}

#[test]
fn error_borrowed_iteration_visits_every_diagnostic() {
    let error = Error::from(errors_of("--- a\n+++ b\n@@ -99999999999999999999 +1 @@\n-x\nz"));
    let spans: Vec<std::ops::Range<usize>> = (&error).into_iter().map(|d| d.span().clone()).collect();
    assert_eq!(spans, vec![16..36, 46..47]);
}

#[test]
fn error_spans_lie_within_the_input() {
    for input in [
        "",
        "x",
        "\u{2028}",
        "--- a",
        "--- a\n+++ b",
        "--- a\n+++ b\n@@ -",
        "--- a\n+++ b\n@@ -1,",
        "--- a\n+++ b\n@@ -1 +",
        "--- a\n+++ b\n@@ -1 +1 @",
        "--- \u{e9}\n+++ \u{e9}\n@@ -1 +1 @@\n-\u{e9}\n\u{1f600}",
    ] {
        let errors = errors_of(input);
        assert!(!errors.is_empty());
        for error in errors {
            let span = match error {
                ParseError::Unexpected { span, .. } => span,
                ParseError::NumberTooLarge { span } => span,
            };
            assert!(span.start <= span.end && span.end <= input.len(), "{input:?}: {span:?}");
        }
    }
}

#[test]
fn concatenated_diffs_keep_both_file_lists() {
    let a = "diff --git a/x b/x\n--- a/x\n+++ b/x\n@@ -1 +1 @@\n-x\n+y\n";
    let b = "diff --git a/z b/z\n--- a/z\n+++ b/z\n@@ -0,0 +1,2 @@\n+p\n+q\n";
    let both = format!("{a}{b}");
    let mut files = parse(a).unwrap().files;
    files.extend(parse(b).unwrap().files);
    assert_eq!(files.len(), 2);
    assert_eq!(parse(&both).unwrap(), UnifiedDiff { files });
}

#[test]
fn concatenation_fails_where_the_second_diff_continues_a_hunk() {
    let a = "--- a/x\n+++ b/x\n@@ -1 +1 @@\n-x\n+y\n";
    let b = "--- a/z\n+++ b/z\n@@ -1 +1 @@\n-p\n+q\n";
    assert!(parse(b).is_ok());
    let both = format!("{a}{b}");
    let merged = parse(&both);
    assert!(merged.map(|d| d.files.len() != 2).unwrap_or(true));
}

#[test]
fn final_line_ending_is_optional() {
    let s = "--- a/x\n+++ b/x\n@@ -1 +1 @@\n-x\n+y";
    let with_ending = format!("{s}\n");
    assert!(parse(s).is_ok());
    assert_eq!(parse(s), parse(&with_ending));
    let marker_last = "--- a/x\n+++ b/x\n@@ -1 +1 @@\n-x\n+y\n\\ No newline at end of file";
    assert_eq!(parse(marker_last), parse(&format!("{marker_last}\n")));
    let bad = "--- a/x\n+++ b/x\nfoo";
    assert!(parse(bad).is_err());
    assert!(parse(&format!("{bad}\n")).is_err());
    assert!(parse("").is_err());
    assert!(parse("\n").is_err());
}

#[test]
fn file_patch_is_read_from_its_lines() {
    let s = "diff --git a/x b/x\nindex 1..2\n--- a/x\t2020-01-01\n+++ b/x\t2020-01-02\n@@ -1 +1 @@\n-x\n+y\n";
    let d = parse(s).unwrap();
    assert_eq!(d.files.len(), 1);
    let f = &d.files[0];
    assert_eq!(f.metadata, vec!["diff --git a/x b/x".to_string(), "index 1..2".to_string()]);
    assert_eq!(f.old, "a/x");
    assert_eq!(f.new, "b/x");
    assert!(f.hunks.len() >= 1);
}

#[test]
fn hunk_header_written_out_reads_as_written() {
    let d = parse("--- a\n+++ b\n@@ -12,0 +13 @@  fn main\r\n+x").unwrap();
    let h = &d.files[0].hunks[0];
    assert_eq!(h.old, LineRange { start: 12, count: 0 });
    assert_eq!(h.new, LineRange { start: 13, count: 1 });
    assert_eq!(h.section, Some(" fn main".to_string()));
    assert_eq!(h.lines, vec![HunkLine::Add("x".to_string())]);
    let e = parse("--- a\n+++ b\n@@ -0 +0,7 @@").unwrap();
    let h = &e.files[0].hunks[0];
    assert_eq!(h.old, LineRange { start: 0, count: 1 });
    assert_eq!(h.new, LineRange { start: 0, count: 7 });
    assert_eq!(h.section, None);
    assert!(h.lines.is_empty());
}
