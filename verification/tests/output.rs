use flowistry_cli::input::parse_range;
use flowistry_cli::output::{
    error_text, exit_code, focus_text, keep_converted, slice_text, span_to_owned, span_to_str,
    spans_text, CharPos, CharRange, FailureKind, FocusEntry, FocusOutput, LineCol, OwnedSpan,
    SliceOutput, SpansOutput,
};

fn span(file: &str, a: usize, b: usize, c: usize, d: usize, content: Option<&str>) -> OwnedSpan {
    OwnedSpan {
        file: file.to_string(),
        start: LineCol { line: a, col: b },
        end: LineCol { line: c, col: d },
        content: content.map(|s| s.to_string()),
    }
}

#[test]
fn span_token() {
    assert_eq!(span_to_str(&span("src/lib.rs", 10, 3, 10, 18, None)), "src/lib.rs:10:3-10:18");
    assert_eq!(span_to_str(&span("", 0, 0, 0, 0, Some("x"))), ":0:0-0:0");
}

#[test]
fn span_token_parses_back() {
    let s = span("src/lib.rs", 42, 7, 44, 15, Some("let x = 1;"));
    let r = parse_range(&span_to_str(&s)).unwrap();
    assert_eq!(r.file, "src/lib.rs");
    assert_eq!((r.start_line, r.start_col, r.end_line, r.end_col), (42, 7, 44, 15));
}

#[test]
fn slice_text_lists_dependencies() {
    let out = SliceOutput {
        target: span("src/lib.rs", 42, 7, 44, 15, None),
        dependencies: vec![
            span("src/lib.rs", 10, 3, 10, 18, None),
            span("src/lib.rs", 7, 5, 7, 12, None),
            span("src/lib.rs", 3, 1, 3, 8, None),
        ],
    };
    assert_eq!(
        slice_text(&out),
        "Slice of src/lib.rs:42:7-44:15\ntarget  src/lib.rs:42:7-44:15\n3 dependencies:\n\n  src/lib.rs:10:3-10:18\n  src/lib.rs:7:5-7:12\n  src/lib.rs:3:1-3:8\n"
    );
}

#[test]
fn slice_text_singular_and_contents() {
    let out = SliceOutput {
        target: span("a.rs", 1, 1, 1, 4, Some("x+y")),
        dependencies: vec![span("a.rs", 2, 1, 2, 2, Some("y"))],
    };
    assert_eq!(
        slice_text(&out),
        "Slice of a.rs:1:1-1:4\ntarget  a.rs:1:1-1:4\n  x+y\n1 dependency:\n\n  a.rs:2:1-2:2\n    y\n"
    );
}

#[test]
fn spans_text_counts() {
    let out = SpansOutput { spans: vec![] };
    assert_eq!(spans_text(&out, "src/main.rs"), "Analysable spans in src/main.rs\n0 spans:\n\n");
    let out = SpansOutput { spans: vec![span("m.rs", 1, 1, 3, 2, Some("fn f() {}"))] };
    assert_eq!(
        spans_text(&out, "m.rs"),
        "Analysable spans in m.rs\n1 span:\n\n  m.rs:1:1-3:2\n    fn f() {}\n"
    );
}

#[test]
fn focus_text_entries() {
    let out = FocusOutput {
        entries: vec![
            FocusEntry {
                range: span("m.rs", 2, 5, 2, 6, Some("x")),
                slice: vec![span("m.rs", 2, 5, 2, 6, None), span("m.rs", 3, 1, 3, 2, Some("y"))],
            },
            FocusEntry { range: span("m.rs", 4, 1, 4, 2, None), slice: vec![] },
        ],
    };
    assert_eq!(
        focus_text(&out, "m.rs:2:5"),
        "Focus at m.rs:2:5\n2 places:\n\n  place  m.rs:2:5-2:6\n    x\n  slice  m.rs:2:5-2:6\n  slice  m.rs:3:1-3:2\n    y\n\n  place  m.rs:4:1-4:2\n"
    );
    let one = FocusOutput { entries: vec![FocusEntry { range: span("m.rs", 1, 1, 1, 1, None), slice: vec![] }] };
    assert_eq!(focus_text(&one, "m.rs:1:1"), "Focus at m.rs:1:1\n1 place:\n\n  place  m.rs:1:1-1:1\n");
}

#[test]
fn error_text_line() {
    assert_eq!(error_text("boom"), "Error: boom\n");
}

#[test]
fn exit_codes_follow_the_table() {
    assert_eq!(exit_code(FailureKind::Usage), 3);
    assert_eq!(exit_code(FailureKind::Build), 2);
    assert_eq!(exit_code(FailureKind::Analysis), 1);
}

#[test]
fn owned_span_is_one_based() {
    let r = CharRange { start: CharPos { line: 0, column: 4 }, end: CharPos { line: 2, column: 0 } };
    let s = span_to_owned(r, Some("a.rs".to_string()), Some("body".to_string()));
    assert_eq!(s.file, "a.rs");
    assert_eq!(s.start, LineCol { line: 1, col: 5 });
    assert_eq!(s.end, LineCol { line: 3, col: 1 });
    assert_eq!(s.content.as_deref(), Some("body"));
    let s = span_to_owned(r, None, None);
    assert_eq!(s.file, "");
    assert!(s.content.is_none());
}

#[test]
fn keep_converted_keeps_order() {
    let v = vec![
        Some(span("a", 1, 1, 1, 1, None)),
        None,
        Some(span("b", 2, 2, 2, 2, None)),
        None,
    ];
    let kept = keep_converted(v);
    let files: Vec<&str> = kept.iter().map(|s| s.file.as_str()).collect();
    assert_eq!(files, vec!["a", "b"]);
    assert!(keep_converted(vec![None, None]).is_empty());
}
