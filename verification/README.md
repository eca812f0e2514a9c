# flowistry-cli

The verified core of a command-line front end to Flowistry's information-flow
analysis: `cargo flowistry slice|influence|focus|spans|version`.

- `src/` is the library, checked by Verus:
  - `input.rs` parses locations `file.rs:L:C` and `file.rs:L:C-L:C`;
  - `cli.rs` holds the options and subcommands and finds the file a command targets;
  - `output.rs` holds the result values, their text form and the exit codes;
  - `analysis/` holds the decisions of the slice, focus and spans analyses that do
    not need the compiler (target selection, grouping by span, assembling results);
  - `plugin.rs` decides which analysis a command runs;
  - `text.rs` holds the character-level helpers and their lemmas.
- `app/` is the tool around it: clap parsing, the rustc driver, the Flowistry calls,
  JSON output and printing. It needs a nightly toolchain with `rustc-dev`.
- `tests/` runs the library on concrete values.
