//! The command line: options, subcommands, and what each subcommand targets.

use vstd::prelude::*;

use crate::input::{parse_range, spec_parse_range};
use crate::text::{find_all, is_digit, lemma_occurrences, split_on};

verus! {

/// Information-flow analysis for Rust programs.
///
/// Run from your project root (requires a Cargo.toml in scope):
///
///   cargo flowistry slice src/main.rs:42:7-44:15
///   cargo flowistry spans src/main.rs
///   cargo flowistry influence src/main.rs:10:5
///
/// Positions use 1-based line and column numbers.
pub struct CliArgs {
    /// Output plain JSON instead of human-readable text
    pub json: bool,
    pub command: Command,
}

/// How results and errors are written.
#[derive(Clone, Copy, Debug, PartialEq, Eq, Structural)]
pub enum OutputFormat {
    Text,
    Json,
}

impl CliArgs {
    /// JSON when `--json` was given, text otherwise.
    pub fn format(&self) -> (r: OutputFormat)
        ensures
            r == (if self.json {
                OutputFormat::Json
            } else {
                OutputFormat::Text
            }),
    {
        if self.json {
            OutputFormat::Json
        } else {
            OutputFormat::Text
        }
    }
}

/// The subcommands.
pub enum Command {
    /// Backward slice: which locations influence the target range
    Slice {
        /// Target location in the form file.rs:L:C or file.rs:L:C-L:C
        location: String,
    },
    /// Forward slice: which locations are influenced by the target range
    Influence {
        /// Target location in the form file.rs:L:C or file.rs:L:C-L:C
        location: String,
    },
    /// List every function body that Flowistry can analyse in a file
    Spans {
        /// Path to the Rust source file
        file: String,
    },
    /// Show which code regions are relevant to a cursor position (IDE focus mode)
    Focus {
        /// Cursor position in the form file.rs:L:C or file.rs:L:C-L:C
        location: String,
    },
    /// Print the rustc version this binary was built against and exit
    Version,
}

/// Position `i` holds a colon that a digit follows: where a `:L:C[-L:C]` suffix can begin.
pub open spec fn is_position_colon(loc: Seq<char>, i: int) -> bool {
    0 <= i && i + 1 < loc.len() && loc[i] == ':' && is_digit(loc[i + 1])
}

/// Position `i` is the first colon that a digit follows.
pub open spec fn is_first_position_colon(loc: Seq<char>, i: int) -> bool {
    is_position_colon(loc, i) && forall|j: int| 0 <= j < i ==> !is_position_colon(loc, j)
}

/// For a location that does not parse: everything before the first colon that a
/// digit follows, i.e. the location without its `:L:C[-L:C]` suffix; the whole
/// location when it has no such colon.
pub open spec fn unparsed_location_file(loc: Seq<char>) -> Seq<char> {
    if exists|i: int| is_first_position_colon(loc, i) {
        let i = choose|i: int| is_first_position_colon(loc, i);
        loc.subrange(0, i)
    } else {
        loc
    }
}

/// The file named by a location: for a location that `parse_range` accepts, the
/// text before its first colon, which is the file that `parse_range` reads;
/// otherwise what `unparsed_location_file` gives.
pub open spec fn location_file(loc: Seq<char>) -> Seq<char> {
    if spec_parse_range(loc) is Ok {
        split_on(loc, ':')[0]
    } else {
        unparsed_location_file(loc)
    }
}

/// The file that `target_file` names is the file that `parse_range` reads from the
/// same location, whenever the location parses.
pub proof fn lemma_target_file_matches_parse(loc: Seq<char>)
    requires
        spec_parse_range(loc) is Ok,
    ensures
        location_file(loc) == spec_parse_range(loc)->Ok_0.file,
{
}

/// The source file that a command names, if any.
pub open spec fn command_file(c: &Command) -> Option<Seq<char>> {
    match c {
        Command::Slice { location } => Some(location_file(location@)),
        Command::Influence { location } => Some(location_file(location@)),
        Command::Focus { location } => Some(location_file(location@)),
        Command::Spans { file } => Some(file@),
        Command::Version => None,
    }
}

/// The file part of a location string.
pub fn file_of_location(location: &str) -> (r: &str)
    ensures
        r@ == location_file(location@),
{
    match parse_range(location) {
        Ok(_) => {
            let colons = find_all(location, ':');
            proof {
                lemma_occurrences(location@, ':');
            }
            assert(colons@.len() >= 2);
            location.substring_char(0, colons[0])
        },
        Err(_) => file_before_position_colon(location),
    }
}

/// Everything before the first colon that a digit follows; the whole text when
/// there is no such colon.
fn file_before_position_colon(location: &str) -> (r: &str)
    ensures
        r@ == unparsed_location_file(location@),
{
    let n = location.unicode_len();
    let mut i: usize = 0;
    while n > 0 && i < n - 1
        invariant
            n == location@.len(),
            i <= n,
            forall|j: int| 0 <= j < i ==> !is_position_colon(location@, j),
        decreases n - i,
    {
        let c = location.get_char(i);
        let d = location.get_char(i + 1);
        if c == ':' && '0' <= d && d <= '9' {
            assert(is_first_position_colon(location@, i as int));
            proof {
                let k = choose|k: int| is_first_position_colon(location@, k);
                assert(k == i) by {
                    if k < i {
                        assert(!is_position_colon(location@, k));
                    } else if k > i {
                        assert(is_position_colon(location@, i as int));
                    }
                }
            }
            return location.substring_char(0, i);
        }
        i = i + 1;
    }
    assert forall|k: int| !is_first_position_colon(location@, k) by {
        if is_first_position_colon(location@, k) {
            assert(!is_position_colon(location@, k));
        }
    }
    location
}

impl Command {
    /// Return the source file path embedded in this command, if any.
    pub fn target_file(&self) -> (r: Option<&str>)
        ensures
            match command_file(self) {
                Some(f) => r is Some && r->0@ == f,
                None => r is None,
            },
    {
        match self {
            Command::Slice { location } => Some(file_of_location(location.as_str())),
            Command::Influence { location } => Some(file_of_location(location.as_str())),
            Command::Focus { location } => Some(file_of_location(location.as_str())),
            Command::Spans { file } => Some(file.as_str()),
            Command::Version => None,
        }
    }
}

} // verus!
