use flowistry_cli::cli::{CliArgs, Command};
use flowistry_cli::plugin::{Job, SliceDirection};
use flowistry_cli::FlowistryCliPlugin;

fn plan(command: Command) -> Job {
    FlowistryCliPlugin.plan(&CliArgs { json: false, command })
}

#[test]
fn driver_name_is_fixed() {
    assert_eq!(FlowistryCliPlugin.driver_name(), "flowistry-driver");
}

#[test]
fn slice_and_influence_choose_directions() {
    match plan(Command::Slice { location: "src/main.rs:42:7".to_string() }) {
        Job::Slice { range, direction } => {
            assert_eq!(direction, SliceDirection::Backward);
            assert_eq!(range.file, "src/main.rs");
            assert_eq!(range.end_col, 7);
        }
        other => panic!("unexpected {:?}", other),
    }
    match plan(Command::Influence { location: "src/main.rs:10:5-10:20".to_string() }) {
        Job::Slice { range, direction } => {
            assert_eq!(direction, SliceDirection::Forward);
            assert_eq!(range.end_col, 20);
        }
        other => panic!("unexpected {:?}", other),
    }
}

#[test]
fn focus_keeps_the_location() {
    match plan(Command::Focus { location: "src/main.rs:4:2".to_string() }) {
        Job::Focus { range, location, direction } => {
            assert_eq!(direction, SliceDirection::Both);
            assert_eq!(location, "src/main.rs:4:2");
            assert_eq!(range.start_line, 4);
        }
        other => panic!("unexpected {:?}", other),
    }
}

#[test]
fn spans_passes_the_file() {
    match plan(Command::Spans { file: "src/lib.rs".to_string() }) {
        Job::Spans { file } => assert_eq!(file, "src/lib.rs"),
        other => panic!("unexpected {:?}", other),
    }
}

#[test]
fn bad_location_is_rejected_with_message() {
    match plan(Command::Slice { location: "src/main.rs:abc:7".to_string() }) {
        Job::Reject { message } => assert_eq!(message, "line must be a number, got \"abc\""),
        other => panic!("unexpected {:?}", other),
    }
}
