use flowistry_cli::input::{parse_num, parse_range, NumberField, RangeError};

#[test]
fn point() {
    let r = parse_range("src/main.rs:42:7").unwrap();
    assert_eq!(r.file, "src/main.rs");
    assert_eq!(r.start_line, 42);
    assert_eq!(r.start_col, 7);
    assert_eq!(r.end_line, 42);
    assert_eq!(r.end_col, 7);
}

#[test]
fn range() {
    let r = parse_range("src/main.rs:42:7-44:15").unwrap();
    assert_eq!(r.file, "src/main.rs");
    assert_eq!(r.start_line, 42);
    assert_eq!(r.start_col, 7);
    assert_eq!(r.end_line, 44);
    assert_eq!(r.end_col, 15);
}

#[test]
fn bad_format() {
    assert!(parse_range("src/main.rs").is_err());
    assert!(parse_range("src/main.rs:abc:7").is_err());
}

#[test]
fn too_many_colons_is_invalid_location() {
    let e = parse_range("a:1:2-3:4:5").unwrap_err();
    assert!(matches!(e, RangeError::InvalidLocation { .. }));
    assert_eq!(
        e.message(),
        "invalid location \"a:1:2-3:4:5\"\nexpected  file.rs:L:C  or  file.rs:L:C-L:C\nexample   src/main.rs:42:7  or  src/main.rs:42:7-44:15"
    );
}

#[test]
fn no_colon_is_invalid_location() {
    let e = parse_range("src/main.rs").unwrap_err();
    assert_eq!(
        e.message(),
        "invalid location \"src/main.rs\"\nexpected  file.rs:L:C  or  file.rs:L:C-L:C\nexample   src/main.rs:42:7  or  src/main.rs:42:7-44:15"
    );
}

#[test]
fn range_without_dash() {
    let e = parse_range("f.rs:1:2:3").unwrap_err();
    assert!(matches!(e, RangeError::MissingDash { .. }));
    assert_eq!(e.message(), "expected start_col-end_line in \"2\", e.g. '7-44'");
}

#[test]
fn non_numeric_line_names_the_field() {
    let e = parse_range("src/main.rs:abc:7").unwrap_err();
    assert_eq!(e.message(), "line must be a number, got \"abc\"");
    let e = parse_range("src/main.rs:4:x").unwrap_err();
    assert_eq!(e.message(), "column must be a number, got \"x\"");
}

#[test]
fn range_fields_are_checked_left_to_right() {
    let e = parse_range("f.rs:a:b-c:d").unwrap_err();
    assert_eq!(e.message(), "start line must be a number, got \"a\"");
    let e = parse_range("f.rs:1:b-c:d").unwrap_err();
    assert_eq!(e.message(), "start column must be a number, got \"b\"");
    let e = parse_range("f.rs:1:2-c:d").unwrap_err();
    assert_eq!(e.message(), "end line must be a number, got \"c\"");
    let e = parse_range("f.rs:1:2-3:d").unwrap_err();
    assert_eq!(e.message(), "end column must be a number, got \"d\"");
}

#[test]
fn dash_splits_at_first_dash() {
    let e = parse_range("f.rs:1:2-3-4:5").unwrap_err();
    assert_eq!(e.message(), "end line must be a number, got \"3-4\"");
}

#[test]
fn numbers_follow_std_parsing() {
    let r = parse_range("f.rs:+4:5").unwrap();
    assert_eq!(r.start_line, 4);
    assert!(parse_range("f.rs:-4:5").is_err());
    assert!(parse_range("f.rs:+:5").is_err());
    assert!(parse_range("f.rs::5").is_err());
    assert!(parse_range("f.rs:4 :5").is_err());
    assert!(parse_range("f.rs:99999999999999999999999:5").is_err());
    let r = parse_range("f.rs:007:0").unwrap();
    assert_eq!(r.start_line, 7);
    assert_eq!(r.start_col, 0);
}

#[test]
fn largest_number_parses_and_one_more_does_not() {
    let max = usize::MAX.to_string();
    assert_eq!(parse_num(&max, NumberField::Line).unwrap(), usize::MAX);
    let over = format!("{}0", usize::MAX);
    assert!(parse_num(&over, NumberField::Line).is_err());
}

#[test]
fn empty_file_name_is_accepted() {
    let r = parse_range(":1:2").unwrap();
    assert_eq!(r.file, "");
    assert_eq!(r.start_line, 1);
}

#[test]
fn non_ascii_file_name() {
    let r = parse_range("dossier/é.rs:3:4-5:6").unwrap();
    assert_eq!(r.file, "dossier/é.rs");
    assert_eq!((r.start_line, r.start_col, r.end_line, r.end_col), (3, 4, 5, 6));
}

#[test]
fn quoting_escapes_special_characters() {
    let e = parse_range("a\"b").unwrap_err();
    assert_eq!(
        e.message(),
        "invalid location \"a\\\"b\"\nexpected  file.rs:L:C  or  file.rs:L:C-L:C\nexample   src/main.rs:42:7  or  src/main.rs:42:7-44:15"
    );
}

#[test]
fn message_is_built_around_the_quoted_subject() {
    let e = parse_range("f.rs:1:x").unwrap_err();
    assert_eq!(e.subject(), "x");
    assert_eq!(e.message_with_quoted("<x>"), "column must be a number, got <x>");
    let e = parse_range("f.rs:1:2:3").unwrap_err();
    assert_eq!(e.subject(), "2");
    assert_eq!(e.message_with_quoted("'2'"), "expected start_col-end_line in '2', e.g. '7-44'");
}
