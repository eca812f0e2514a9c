use flowistry_cli::analysis::focus::{
    assemble_focus, group_by_span, unmapped_cursor_message, MirSpanEntry, SpanKey,
};
use flowistry_cli::analysis::slice::{
    assemble_slice, no_body_message, overlaps, range_str, select_targets, to_char_range,
    unmapped_location_message, MirSpanSummary, SpanBounds,
};
use flowistry_cli::analysis::spans::{collect_spans, missing_file_message, BodySpan};
use flowistry_cli::input::{parse_range, ParsedRange};
use flowistry_cli::output::{LineCol, OwnedSpan};

fn span(file: &str, line: usize) -> OwnedSpan {
    OwnedSpan {
        file: file.to_string(),
        start: LineCol { line, col: 1 },
        end: LineCol { line, col: 2 },
        content: None,
    }
}

fn bounds(lo: u32, hi: u32) -> SpanBounds {
    SpanBounds { lo, hi }
}

fn key(lo: u32, hi: u32) -> SpanKey {
    SpanKey { lo, hi, ctxt: 0, parent: None }
}

fn sample_range() -> ParsedRange {
    ParsedRange { file: "src/lib.rs".to_string(), start_line: 4, start_col: 2, end_line: 4, end_col: 9 }
}

#[test]
fn overlap_is_inclusive_and_symmetric() {
    assert!(overlaps(bounds(0, 5), bounds(5, 9)));
    assert!(overlaps(bounds(5, 9), bounds(0, 5)));
    assert!(!overlaps(bounds(0, 4), bounds(5, 9)));
    assert!(!overlaps(bounds(5, 9), bounds(0, 4)));
    assert!(overlaps(bounds(2, 3), bounds(0, 10)));
}

#[test]
fn targets_are_the_overlapping_locations() {
    let ms = vec![
        MirSpanSummary { bounds: bounds(0, 3), locations: 2 },
        MirSpanSummary { bounds: bounds(10, 20), locations: 1 },
        MirSpanSummary { bounds: bounds(4, 6), locations: 3 },
    ];
    let t = select_targets(&ms, bounds(3, 5), &sample_range()).unwrap();
    assert_eq!(t, vec![(0, 0), (0, 1), (2, 0), (2, 1), (2, 2)]);
}

#[test]
fn no_target_gives_a_hint() {
    let ms = vec![MirSpanSummary { bounds: bounds(0, 3), locations: 2 }];
    let e = select_targets(&ms, bounds(7, 9), &sample_range()).unwrap_err();
    assert_eq!(
        e,
        "no analyzable locations found at src/lib.rs:4:2-4:9\nhint: run `cargo flowistry spans src/lib.rs` to see what ranges are available"
    );
}

#[test]
fn range_str_roundtrip() {
    let r = sample_range();
    let s = range_str(&r);
    assert_eq!(s, "src/lib.rs:4:2-4:9");
    let back = parse_range(&s).unwrap();
    assert_eq!(back.file, r.file);
    assert_eq!(
        (back.start_line, back.start_col, back.end_line, back.end_col),
        (r.start_line, r.start_col, r.end_line, r.end_col)
    );
}

#[test]
fn slice_flattens_groups_and_drops_unconverted() {
    let out = assemble_slice(
        span("t.rs", 1),
        vec![vec![Some(span("a", 2)), None], vec![], vec![Some(span("b", 3))]],
    );
    assert_eq!(out.target.file, "t.rs");
    let files: Vec<&str> = out.dependencies.iter().map(|s| s.file.as_str()).collect();
    assert_eq!(files, vec!["a", "b"]);
}

#[test]
fn grouping_keeps_first_occurrence_order() {
    let ms = vec![
        MirSpanEntry { span: key(5, 9), locations: 2 },
        MirSpanEntry { span: key(1, 2), locations: 1 },
        MirSpanEntry { span: key(5, 9), locations: 1 },
        MirSpanEntry { span: key(1, 3), locations: 0 },
    ];
    let g = group_by_span(&ms);
    assert_eq!(g.spans, vec![key(5, 9), key(1, 2), key(1, 3)]);
    assert_eq!(g.members, vec![vec![(0, 0), (0, 1), (2, 0)], vec![(1, 0)], vec![]]);
}

#[test]
fn grouping_distinguishes_context() {
    let a = SpanKey { lo: 1, hi: 2, ctxt: 0, parent: None };
    let b = SpanKey { lo: 1, hi: 2, ctxt: 1, parent: None };
    let c = SpanKey { lo: 1, hi: 2, ctxt: 0, parent: Some(7) };
    let ms = vec![
        MirSpanEntry { span: a, locations: 1 },
        MirSpanEntry { span: b, locations: 1 },
        MirSpanEntry { span: c, locations: 1 },
        MirSpanEntry { span: a, locations: 1 },
    ];
    let g = group_by_span(&ms);
    assert_eq!(g.spans.len(), 3);
    assert_eq!(g.members[0], vec![(0, 0), (3, 0)]);
}

#[test]
fn focus_pairs_places_with_slices() {
    let out = assemble_focus(
        vec![Some(span("p", 1)), None, Some(span("q", 3)), Some(span("r", 4))],
        vec![vec![Some(span("s", 5)), None], vec![Some(span("x", 6))], vec![]],
    );
    assert_eq!(out.entries.len(), 2);
    assert_eq!(out.entries[0].range.file, "p");
    assert_eq!(out.entries[0].slice.len(), 1);
    assert_eq!(out.entries[0].slice[0].file, "s");
    assert_eq!(out.entries[1].range.file, "q");
    assert!(out.entries[1].slice.is_empty());
}

#[test]
fn spans_keep_bodies_in_file() {
    let out = collect_spans(vec![
        BodySpan { in_file: true, span: Some(span("m.rs", 1)) },
        BodySpan { in_file: false, span: Some(span("other.rs", 2)) },
        BodySpan { in_file: true, span: None },
        BodySpan { in_file: true, span: Some(span("m.rs", 9)) },
    ]);
    let lines: Vec<usize> = out.spans.iter().map(|s| s.start.line).collect();
    assert_eq!(lines, vec![1, 9]);
}

#[test]
fn missing_file_hint() {
    assert_eq!(
        missing_file_message("src/x.rs"),
        "file not found in the compiled crate: src/x.rs\nhint: make sure the path matches what Cargo uses"
    );
}

#[test]
fn char_range_is_zero_based() {
    let c = to_char_range(&sample_range());
    assert_eq!((c.start.line, c.start.column, c.end.line, c.end.column), (3, 1, 3, 8));
    let z = ParsedRange { file: String::new(), start_line: 0, start_col: 1, end_line: 0, end_col: 0 };
    let c = to_char_range(&z);
    assert_eq!((c.start.line, c.start.column, c.end.line, c.end.column), (0, 0, 0, 0));
}

#[test]
fn analysis_failure_messages() {
    assert_eq!(
        unmapped_location_message(),
        "could not map location to a source span — check that the file path and line/column are correct"
    );
    assert_eq!(unmapped_cursor_message(), "could not map location to a source span");
    assert_eq!(no_body_message(), "no function body found at the given location");
}
