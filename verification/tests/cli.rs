use flowistry_cli::cli::{file_of_location, CliArgs, Command, OutputFormat};

fn args(json: bool, command: Command) -> CliArgs {
    CliArgs { json, command }
}

#[test]
fn format_follows_json_flag() {
    assert_eq!(args(true, Command::Version).format(), OutputFormat::Json);
    assert_eq!(args(false, Command::Version).format(), OutputFormat::Text);
}

#[test]
fn target_file_of_point_and_range() {
    let c = Command::Slice { location: "src/main.rs:42:7".to_string() };
    assert_eq!(c.target_file(), Some("src/main.rs"));
    let c = Command::Influence { location: "src/main.rs:42:7-44:15".to_string() };
    assert_eq!(c.target_file(), Some("src/main.rs"));
    let c = Command::Focus { location: "src/lib.rs:10:5".to_string() };
    assert_eq!(c.target_file(), Some("src/lib.rs"));
}

#[test]
fn target_file_of_spans_and_version() {
    let c = Command::Spans { file: "src/main.rs".to_string() };
    assert_eq!(c.target_file(), Some("src/main.rs"));
    assert_eq!(Command::Version.target_file(), None);
}

#[test]
fn target_file_without_position_is_whole_location() {
    let c = Command::Slice { location: "src/main.rs".to_string() };
    assert_eq!(c.target_file(), Some("src/main.rs"));
    assert_eq!(file_of_location("C:\\x.rs"), "C:\\x.rs");
    assert_eq!(file_of_location("a:b:3"), "a:b");
    assert_eq!(file_of_location("a.rs:"), "a.rs:");
}

#[test]
fn target_file_agrees_with_parse_range() {
    let c = Command::Slice { location: "f.rs:+4:5".to_string() };
    assert_eq!(c.target_file(), Some("f.rs"));
    let c = Command::Influence { location: "f.rs:+4:+5-6:7".to_string() };
    assert_eq!(c.target_file(), Some("f.rs"));
    let c = Command::Focus { location: ":1:2".to_string() };
    assert_eq!(c.target_file(), Some(""));
}
