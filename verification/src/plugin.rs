//! The plugin's decisions: which analysis a command asks for, and with what.

use vstd::prelude::*;

use crate::cli::{CliArgs, Command};
use crate::input::{error_message, parse_range, spec_parse_range, ParsedRange};

verus! {

/// The cargo plugin that runs Flowistry's analyses from the command line.
pub struct FlowistryCliPlugin;

/// Which way an analysis follows the flow of information.
#[derive(Clone, Copy, Debug, PartialEq, Eq, Structural)]
pub enum SliceDirection {
    /// Which locations influence the target.
    Backward,
    /// Which locations the target influences.
    Forward,
    /// Both ways at once: focus mode's bidirectional slice.
    Both,
}

/// What the driver does for a command.
#[derive(Debug)]
pub enum Job {
    /// Slice the body around `range`.
    Slice { range: ParsedRange, direction: SliceDirection },
    /// List the analysable bodies of `file`.
    Spans { file: String },
    /// Compute focus mode at `range`, reported as `location`, slicing each place
    /// in `direction`.
    Focus { range: ParsedRange, location: String, direction: SliceDirection },
    /// Reject the command as a usage error with `message`.
    Reject { message: String },
}

/// The job for a location-based command: the analysis when the location parses,
/// a rejection with the parser's message when it does not.
pub open spec fn location_job(
    j: Job,
    location: Seq<char>,
    is_focus: bool,
    direction: SliceDirection,
) -> bool {
    match spec_parse_range(location) {
        Ok(v) => if is_focus {
            j matches Job::Focus { range, location: l, direction: d } && range@ == v && l@ == location
                && d == direction
        } else {
            j matches Job::Slice { range, direction: d } && range@ == v && d == direction
        },
        Err(e) => j matches Job::Reject { message } && message@ == error_message(e),
    }
}

impl FlowistryCliPlugin {
    /// The name of the rustc wrapper binary.
    pub fn driver_name(&self) -> (r: &'static str)
        ensures
            r@ == "flowistry-driver"@,
    {
        "flowistry-driver"
    }

    /// Decides what the driver does for the parsed arguments. `version` never
    /// reaches the driver: it is answered before the compiler runs.
    pub fn plan(&self, plugin_args: &CliArgs) -> (j: Job)
        requires
            !(plugin_args.command is Version),
        ensures
            match &plugin_args.command {
                Command::Slice { location } => location_job(
                    j,
                    location@,
                    false,
                    SliceDirection::Backward,
                ),
                Command::Influence { location } => location_job(
                    j,
                    location@,
                    false,
                    SliceDirection::Forward,
                ),
                Command::Focus { location } => location_job(
                    j,
                    location@,
                    true,
                    SliceDirection::Both,
                ),
                Command::Spans { file } => j matches Job::Spans { file: f } && f@ == file@,
                Command::Version => false,
            },
    {
        match &plugin_args.command {
            Command::Slice { location } => match parse_range(location.as_str()) {
                Ok(range) => Job::Slice { range, direction: SliceDirection::Backward },
                Err(e) => Job::Reject { message: e.message() },
            },
            Command::Influence { location } => match parse_range(location.as_str()) {
                Ok(range) => Job::Slice { range, direction: SliceDirection::Forward },
                Err(e) => Job::Reject { message: e.message() },
            },
            Command::Spans { file } => Job::Spans { file: file.clone() },
            Command::Focus { location } => match parse_range(location.as_str()) {
                Ok(range) => Job::Focus {
                    range,
                    location: location.clone(),
                    direction: SliceDirection::Both,
                },
                Err(e) => Job::Reject { message: e.message() },
            },
            Command::Version => Job::Reject { message: String::new() },
        }
    }
}

} // verus!
