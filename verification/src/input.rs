//! Parsing of user-supplied locations of the form `file.rs:L:C` or
//! `file.rs:L:C-L:C`.

use vstd::prelude::*;

use crate::text::{
    debug_quoted, debug_str, decimal, find_all, lemma_decimal, lemma_occurrences,
    lemma_occurrences_append_free, lemma_occurrences_append_sep, lemma_parse_decimal, occurrences,
    parse_usize, spec_parse_usize, split_on, split_once,
};

verus! {

/// A source range with 1-based line and column numbers.
#[derive(Clone, Debug)]
pub struct ParsedRange {
    pub file: String,
    pub start_line: usize,
    pub start_col: usize,
    pub end_line: usize,
    pub end_col: usize,
}

/// The value of a `ParsedRange`: its file as characters, and its four numbers.
pub ghost struct RangeSpec {
    pub file: Seq<char>,
    pub start_line: usize,
    pub start_col: usize,
    pub end_line: usize,
    pub end_col: usize,
}

impl View for ParsedRange {
    type V = RangeSpec;

    open spec fn view(&self) -> RangeSpec {
        RangeSpec {
            file: self.file@,
            start_line: self.start_line,
            start_col: self.start_col,
            end_line: self.end_line,
            end_col: self.end_col,
        }
    }
}

/// The numeric components of a location, as the error messages name them.
#[derive(Clone, Copy, Debug, PartialEq, Eq, Structural)]
pub enum NumberField {
    Line,
    Column,
    StartLine,
    StartColumn,
    EndLine,
    EndColumn,
}

/// The name of a numeric component in an error message.
pub open spec fn field_label(f: NumberField) -> Seq<char> {
    match f {
        NumberField::Line => "line"@,
        NumberField::Column => "column"@,
        NumberField::StartLine => "start line"@,
        NumberField::StartColumn => "start column"@,
        NumberField::EndLine => "end line"@,
        NumberField::EndColumn => "end column"@,
    }
}

impl NumberField {
    /// The name of this component in an error message.
    pub fn label(&self) -> (r: &'static str)
        ensures
            r@ == field_label(*self),
    {
        match self {
            NumberField::Line => "line",
            NumberField::Column => "column",
            NumberField::StartLine => "start line",
            NumberField::StartColumn => "start column",
            NumberField::EndLine => "end line",
            NumberField::EndColumn => "end column",
        }
    }
}

/// Why a location string was rejected.
#[derive(Debug)]
pub enum RangeError {
    /// Neither `file:L:C` nor `file:L:C-L:C`: the input had a number of colons other than two or three.
    InvalidLocation { input: String },
    /// In `file:L:C-L:C`, the part between the second and third colon holds no `-`.
    MissingDash { part: String },
    /// A numeric component is not a decimal number that fits in a `usize`.
    NotANumber { field: NumberField, got: String },
}

/// The value of a `RangeError`, its texts taken as characters.
pub ghost enum RangeErrorSpec {
    InvalidLocation { input: Seq<char> },
    MissingDash { part: Seq<char> },
    NotANumber { field: NumberField, got: Seq<char> },
}

impl View for RangeError {
    type V = RangeErrorSpec;

    open spec fn view(&self) -> RangeErrorSpec {
        match self {
            RangeError::InvalidLocation { input } => RangeErrorSpec::InvalidLocation {
                input: input@,
            },
            RangeError::MissingDash { part } => RangeErrorSpec::MissingDash { part: part@ },
            RangeError::NotANumber { field, got } => RangeErrorSpec::NotANumber {
                field: *field,
                got: got@,
            },
        }
    }
}

/// The text that a rejection quotes: the input, the malformed part, or the number.
pub open spec fn quoted_subject(e: RangeErrorSpec) -> Seq<char> {
    match e {
        RangeErrorSpec::InvalidLocation { input } => input,
        RangeErrorSpec::MissingDash { part } => part,
        RangeErrorSpec::NotANumber { field: _, got } => got,
    }
}

/// The message for a rejected location, given its subject already quoted.
pub open spec fn message_with(e: RangeErrorSpec, quoted: Seq<char>) -> Seq<char> {
    match e {
        RangeErrorSpec::InvalidLocation { .. } => "invalid location "@ + quoted
            + "\nexpected  file.rs:L:C  or  file.rs:L:C-L:C\nexample   src/main.rs:42:7  or  src/main.rs:42:7-44:15"@,
        RangeErrorSpec::MissingDash { .. } => "expected start_col-end_line in "@ + quoted
            + ", e.g. '7-44'"@,
        RangeErrorSpec::NotANumber { field, .. } => field_label(field) + " must be a number, got "@
            + quoted,
    }
}

/// The human-readable message for a rejected location: its subject is quoted as
/// `{:?}` writes a string.
pub open spec fn error_message(e: RangeErrorSpec) -> Seq<char> {
    message_with(e, debug_quoted(quoted_subject(e)))
}

impl RangeError {
    /// The text that the message quotes.
    pub fn subject(&self) -> (r: &str)
        ensures
            r@ == quoted_subject(self@),
    {
        match self {
            RangeError::InvalidLocation { input } => input.as_str(),
            RangeError::MissingDash { part } => part.as_str(),
            RangeError::NotANumber { field: _, got } => got.as_str(),
        }
    }

    /// The message, given the subject already quoted.
    pub fn message_with_quoted(&self, quoted: &str) -> (r: String)
        ensures
            r@ == message_with(self@, quoted@),
    {
        match self {
            RangeError::InvalidLocation { .. } => {
                let mut m = "invalid location ".to_owned();
                m.append(quoted);
                m.append(
                    "\nexpected  file.rs:L:C  or  file.rs:L:C-L:C\nexample   src/main.rs:42:7  or  src/main.rs:42:7-44:15",
                );
                m
            },
            RangeError::MissingDash { .. } => {
                let mut m = "expected start_col-end_line in ".to_owned();
                m.append(quoted);
                m.append(", e.g. '7-44'");
                m
            },
            RangeError::NotANumber { field, .. } => {
                let mut m = field.label().to_owned();
                m.append(" must be a number, got ");
                m.append(quoted);
                m
            },
        }
    }

    /// The human-readable message for this error.
    pub fn message(&self) -> (r: String)
        ensures
            r@ == error_message(self@),
    {
        let quoted = debug_str(self.subject());
        self.message_with_quoted(quoted.as_str())
    }
}

/// The outcome of parsing, as values.
pub open spec fn parse_result_view(r: Result<ParsedRange, RangeError>) -> Result<
    RangeSpec,
    RangeErrorSpec,
> {
    match r {
        Ok(p) => Ok(p@),
        Err(e) => Err(e@),
    }
}

/// What a location string denotes. Splitting on `:` must give three pieces
/// (`file:L:C`, a point) or four (`file:SL:SC-EL:EC`, a range; the third piece is
/// split at its first `-`). The numbers are checked from left to right and the
/// first that does not parse is reported.
pub open spec fn spec_parse_range(s: Seq<char>) -> Result<RangeSpec, RangeErrorSpec> {
    let parts = split_on(s, ':');
    if parts.len() == 3 {
        match (spec_parse_usize(parts[1]), spec_parse_usize(parts[2])) {
            (None, _) => Err(RangeErrorSpec::NotANumber { field: NumberField::Line, got: parts[1] }),
            (Some(_), None) => Err(
                RangeErrorSpec::NotANumber { field: NumberField::Column, got: parts[2] },
            ),
            (Some(line), Some(col)) => Ok(
                RangeSpec {
                    file: parts[0],
                    start_line: line,
                    start_col: col,
                    end_line: line,
                    end_col: col,
                },
            ),
        }
    } else if parts.len() == 4 {
        match split_once(parts[2], '-') {
            None => Err(RangeErrorSpec::MissingDash { part: parts[2] }),
            Some((sc, el)) => match (
                spec_parse_usize(parts[1]),
                spec_parse_usize(sc),
                spec_parse_usize(el),
                spec_parse_usize(parts[3]),
            ) {
                (None, _, _, _) => Err(
                    RangeErrorSpec::NotANumber { field: NumberField::StartLine, got: parts[1] },
                ),
                (Some(_), None, _, _) => Err(
                    RangeErrorSpec::NotANumber { field: NumberField::StartColumn, got: sc },
                ),
                (Some(_), Some(_), None, _) => Err(
                    RangeErrorSpec::NotANumber { field: NumberField::EndLine, got: el },
                ),
                (Some(_), Some(_), Some(_), None) => Err(
                    RangeErrorSpec::NotANumber { field: NumberField::EndColumn, got: parts[3] },
                ),
                (Some(a), Some(b), Some(c), Some(d)) => Ok(
                    RangeSpec { file: parts[0], start_line: a, start_col: b, end_line: c, end_col: d },
                ),
            },
        }
    } else {
        Err(RangeErrorSpec::InvalidLocation { input: s })
    }
}


/// The canonical token of a range: `file:SL:SC-EL:EC`.
pub open spec fn location_token(file: Seq<char>, sl: nat, sc: nat, el: nat, ec: nat) -> Seq<char> {
    file + ":"@ + decimal(sl) + ":"@ + decimal(sc) + "-"@ + decimal(el) + ":"@ + decimal(ec)
}

/// The canonical token `file:SL:SC-EL:EC` of a range is read back as that same
/// range, whenever the file name holds no colon.
pub proof fn lemma_parse_location_token(file: Seq<char>, sl: usize, sc: usize, el: usize, ec: usize)
    requires
        forall|i: int| 0 <= i < file.len() ==> file[i] != ':',
    ensures
        spec_parse_range(location_token(file, sl as nat, sc as nat, el as nat, ec as nat)) == Ok::<
            RangeSpec,
            RangeErrorSpec,
        >(RangeSpec { file, start_line: sl, start_col: sc, end_line: el, end_col: ec }),
{
    reveal_strlit(":");
    reveal_strlit("-");
    let colon: Seq<char> = ":"@;
    let dash: Seq<char> = "-"@;
    assert(colon =~= seq![':']);
    assert(dash =~= seq!['-']);
    let da = decimal(sl as nat);
    let db = decimal(sc as nat);
    let dc = decimal(el as nat);
    let dd = decimal(ec as nat);
    lemma_decimal(sl as nat);
    lemma_decimal(sc as nat);
    lemma_decimal(el as nat);
    lemma_decimal(ec as nat);
    assert forall|i: int| 0 <= i < da.len() implies da[i] != ':' && da[i] != '-' by {
        assert(is_digit_at(da, i));
    }
    assert forall|i: int| 0 <= i < db.len() implies db[i] != ':' && db[i] != '-' by {
        assert(is_digit_at(db, i));
    }
    assert forall|i: int| 0 <= i < dc.len() implies dc[i] != ':' && dc[i] != '-' by {
        assert(is_digit_at(dc, i));
    }
    assert forall|i: int| 0 <= i < dd.len() implies dd[i] != ':' && dd[i] != '-' by {
        assert(is_digit_at(dd, i));
    }
    let e: Seq<char> = Seq::empty();
    // Colons of the token.
    lemma_occurrences_append_free(e, file, ':');
    assert(e + file =~= file);
    let t1 = file + colon;
    lemma_occurrences_append_sep(file, ':');
    let t2 = t1 + da;
    lemma_occurrences_append_free(t1, da, ':');
    let t3 = t2 + colon;
    lemma_occurrences_append_sep(t2, ':');
    let t4 = t3 + db;
    lemma_occurrences_append_free(t3, db, ':');
    let t5 = t4 + dash;
    lemma_occurrences_append_free(t4, dash, ':');
    let t6 = t5 + dc;
    lemma_occurrences_append_free(t5, dc, ':');
    let t7 = t6 + colon;
    lemma_occurrences_append_sep(t6, ':');
    let tok = t7 + dd;
    lemma_occurrences_append_free(t7, dd, ':');
    assert(tok == location_token(file, sl as nat, sc as nat, el as nat, ec as nat));
    let p = occurrences(tok, ':');
    assert(p =~= seq![file.len() as int, t2.len() as int, t6.len() as int]);
    let parts = split_on(tok, ':');
    assert(parts.len() == 4);
    assert(parts[0] =~= file);
    assert(parts[1] =~= da);
    let mid = db + dash + dc;
    assert(parts[2] =~= mid);
    assert(parts[3] =~= dd);
    // The dash of the middle piece.
    lemma_occurrences_append_free(e, db, '-');
    assert(e + db =~= db);
    lemma_occurrences_append_sep(db, '-');
    lemma_occurrences_append_free(db + dash, dc, '-');
    assert(occurrences(mid, '-') =~= seq![db.len() as int]);
    assert(mid.subrange(0, db.len() as int) =~= db);
    assert(mid.subrange(db.len() as int + 1, mid.len() as int) =~= dc);
    assert(split_once(mid, '-') == Some((db, dc)));
    lemma_parse_decimal(sl);
    lemma_parse_decimal(sc);
    lemma_parse_decimal(el);
    lemma_parse_decimal(ec);
}

spec fn is_digit_at(s: Seq<char>, i: int) -> bool {
    crate::text::is_digit(s[i])
}

/// A point location `file:L:C` denotes a zero-width range: it starts where it ends.
pub proof fn lemma_point_is_zero_width(s: Seq<char>)
    requires
        split_on(s, ':').len() == 3,
        spec_parse_range(s) is Ok,
    ensures
        spec_parse_range(s)->Ok_0.start_line == spec_parse_range(s)->Ok_0.end_line,
        spec_parse_range(s)->Ok_0.start_col == spec_parse_range(s)->Ok_0.end_col,
{
}

/// Parses one numeric component, reporting `field` when it is not a number.
pub fn parse_num(s: &str, field: NumberField) -> (r: Result<usize, RangeError>)
    ensures
        match spec_parse_usize(s@) {
            Some(v) => r == Ok::<usize, RangeError>(v),
            None => r is Err && r->Err_0@ == (RangeErrorSpec::NotANumber { field, got: s@ }),
        },
{
    match parse_usize(s) {
        Some(v) => Ok(v),
        None => Err(RangeError::NotANumber { field, got: s.to_owned() }),
    }
}

/// Parse a location string of the form:
///
///   file.rs:L:C         — point (treated as a zero-width range)
///   file.rs:L:C-L:C     — explicit start–end range
///
/// Lines and columns are 1-based. File paths must not contain bare colons
/// (Windows drive-letter paths like `C:\...` are not supported).
pub fn parse_range(s: &str) -> (r: Result<ParsedRange, RangeError>)
    ensures
        parse_result_view(r) == spec_parse_range(s@),
{
    let n = s.unicode_len();
    let colons = find_all(s, ':');
    proof {
        lemma_occurrences(s@, ':');
    }
    let ghost parts = split_on(s@, ':');
    if colons.len() == 2 {
        let p0 = colons[0];
        let p1 = colons[1];
        assert(occurrences(s@, ':')[0] < occurrences(s@, ':')[1]);
        let file = s.substring_char(0, p0);
        let line_s = s.substring_char(p0 + 1, p1);
        let col_s = s.substring_char(p1 + 1, n);
        assert(file@ == parts[0]);
        assert(line_s@ == parts[1]);
        assert(col_s@ == parts[2]);
        let line = match parse_num(line_s, NumberField::Line) {
            Ok(v) => v,
            Err(e) => return Err(e),
        };
        let col = match parse_num(col_s, NumberField::Column) {
            Ok(v) => v,
            Err(e) => return Err(e),
        };
        Ok(
            ParsedRange {
                file: file.to_owned(),
                start_line: line,
                start_col: col,
                end_line: line,
                end_col: col,
            },
        )
    } else if colons.len() == 3 {
        let p0 = colons[0];
        let p1 = colons[1];
        let p2 = colons[2];
        assert(occurrences(s@, ':')[0] < occurrences(s@, ':')[1]);
        assert(occurrences(s@, ':')[1] < occurrences(s@, ':')[2]);
        let file = s.substring_char(0, p0);
        let sl_s = s.substring_char(p0 + 1, p1);
        let mid = s.substring_char(p1 + 1, p2);
        let ec_s = s.substring_char(p2 + 1, n);
        assert(file@ == parts[0]);
        assert(sl_s@ == parts[1]);
        assert(mid@ == parts[2]);
        assert(ec_s@ == parts[3]);
        let dashes = find_all(mid, '-');
        if dashes.len() == 0 {
            return Err(RangeError::MissingDash { part: mid.to_owned() });
        }
        proof {
            lemma_occurrences(mid@, '-');
        }
        let q = dashes[0];
        let m = mid.unicode_len();
        let sc_s = mid.substring_char(0, q);
        let el_s = mid.substring_char(q + 1, m);
        let start_line = match parse_num(sl_s, NumberField::StartLine) {
            Ok(v) => v,
            Err(e) => return Err(e),
        };
        let start_col = match parse_num(sc_s, NumberField::StartColumn) {
            Ok(v) => v,
            Err(e) => return Err(e),
        };
        let end_line = match parse_num(el_s, NumberField::EndLine) {
            Ok(v) => v,
            Err(e) => return Err(e),
        };
        let end_col = match parse_num(ec_s, NumberField::EndColumn) {
            Ok(v) => v,
            Err(e) => return Err(e),
        };
        Ok(ParsedRange { file: file.to_owned(), start_line, start_col, end_line, end_col })
    } else {
        Err(RangeError::InvalidLocation { input: s.to_owned() })
    }
}

} // verus!
