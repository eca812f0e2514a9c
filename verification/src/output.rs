//! Result values of the analyses and their human-readable text form.

use vstd::prelude::*;

use crate::input::{lemma_parse_location_token, location_token, spec_parse_range, RangeErrorSpec, RangeSpec};
use crate::text::{decimal, push_decimal};

verus! {

// ── owned span ────────────────────────────────────────────────────────────────

/// A 1-based line and column.
#[derive(Clone, Copy, Debug, PartialEq, Eq, Structural)]
pub struct LineCol {
    pub line: usize,
    pub col: usize,
}

/// A source range that owns its filename as a plain `String`, with the source
/// text it covers when that text is known.
#[derive(Clone, Debug)]
pub struct OwnedSpan {
    pub file: String,
    pub start: LineCol,
    pub end: LineCol,
    pub content: Option<String>,
}

/// The value of an `OwnedSpan`.
pub ghost struct SpanSpec {
    pub file: Seq<char>,
    pub start: LineCol,
    pub end: LineCol,
    pub content: Option<Seq<char>>,
}

/// The characters of an optional string.
pub open spec fn opt_view(s: Option<String>) -> Option<Seq<char>> {
    match s {
        Some(t) => Some(t@),
        None => None,
    }
}

impl View for OwnedSpan {
    type V = SpanSpec;

    open spec fn view(&self) -> SpanSpec {
        SpanSpec { file: self.file@, start: self.start, end: self.end, content: opt_view(self.content) }
    }
}

/// The values of a sequence of spans.
pub open spec fn spans_view(v: Seq<OwnedSpan>) -> Seq<SpanSpec> {
    v.map_values(|s: OwnedSpan| s@)
}

/// The canonical `file:L:C-L:C` token of a span.
pub open spec fn span_text(s: SpanSpec) -> Seq<char> {
    location_token(s.file, s.start.line as nat, s.start.col as nat, s.end.line as nat, s.end.col as nat)
}

/// Appends the canonical token of `r` to `out`.
fn push_span_str(out: &mut String, r: &OwnedSpan)
    ensures
        final(out)@ == old(out)@ + span_text(r@),
{
    out.append(r.file.as_str());
    out.append(":");
    push_decimal(out, r.start.line);
    out.append(":");
    push_decimal(out, r.start.col);
    out.append("-");
    push_decimal(out, r.end.line);
    out.append(":");
    push_decimal(out, r.end.col);
    assert(final(out)@ =~= old(out)@ + span_text(r@));
}

/// Format an `OwnedSpan` as the canonical `file:L:C-L:C` token string.
pub fn span_to_str(r: &OwnedSpan) -> (s: String)
    ensures
        s@ == span_text(r@),
{
    let mut s = String::new();
    push_span_str(&mut s, r);
    assert(s@ =~= span_text(r@));
    s
}

/// The canonical token that `span_to_str` writes is a location that `parse_range`
/// reads back as the span's range, whenever the file name holds no colon.
pub proof fn lemma_span_token_parses(s: SpanSpec)
    requires
        forall|i: int| 0 <= i < s.file.len() ==> s.file[i] != ':',
    ensures
        spec_parse_range(span_text(s)) == Ok::<RangeSpec, RangeErrorSpec>(
            RangeSpec {
                file: s.file,
                start_line: s.start.line,
                start_col: s.start.col,
                end_line: s.end.line,
                end_col: s.end.col,
            },
        ),
{
    lemma_parse_location_token(s.file, s.start.line, s.start.col, s.end.line, s.end.col);
}

/// A character range as the compiler reports it: 0-based lines and columns.
#[derive(Clone, Copy, Debug, PartialEq, Eq, Structural)]
pub struct CharPos {
    pub line: usize,
    pub column: usize,
}

/// The start and end of a character range, 0-based.
#[derive(Clone, Copy, Debug, PartialEq, Eq, Structural)]
pub struct CharRange {
    pub start: CharPos,
    pub end: CharPos,
}

/// Builds the `OwnedSpan` of a compiler range: lines and columns become 1-based,
/// a file whose name could not be found is named by the empty string.
pub fn span_to_owned(range: CharRange, file: Option<String>, content: Option<String>) -> (r:
    OwnedSpan)
    requires
        range.start.line < usize::MAX,
        range.start.column < usize::MAX,
        range.end.line < usize::MAX,
        range.end.column < usize::MAX,
    ensures
        r@.file == (match file {
            Some(f) => f@,
            None => Seq::<char>::empty(),
        }),
        r.start == (LineCol { line: (range.start.line + 1) as usize, col: (range.start.column + 1) as usize }),
        r.end == (LineCol { line: (range.end.line + 1) as usize, col: (range.end.column + 1) as usize }),
        r.content == content,
{
    let file = match file {
        Some(f) => f,
        None => String::new(),
    };
    OwnedSpan {
        file,
        start: LineCol { line: range.start.line + 1, col: range.start.column + 1 },
        end: LineCol { line: range.end.line + 1, col: range.end.column + 1 },
        content,
    }
}

/// The spans that were converted, in order; `None` marks one that was not.
pub open spec fn converted(v: Seq<Option<OwnedSpan>>) -> Seq<OwnedSpan>
    decreases v.len(),
{
    if v.len() == 0 {
        Seq::empty()
    } else {
        let before = converted(v.drop_last());
        match v.last() {
            Some(s) => before.push(s),
            None => before,
        }
    }
}

/// How many entries of `s` hold a span.
pub open spec fn count_some(s: Seq<Option<OwnedSpan>>) -> nat
    decreases s.len(),
{
    if s.len() == 0 {
        0
    } else {
        count_some(s.drop_last()) + if s.last() is Some {
            1nat
        } else {
            0nat
        }
    }
}

/// Keeping the converted spans of two runs one after the other keeps those of the
/// first, then those of the second.
pub proof fn lemma_converted_append(a: Seq<Option<OwnedSpan>>, b: Seq<Option<OwnedSpan>>)
    ensures
        converted(a + b) == converted(a) + converted(b),
    decreases b.len(),
{
    if b.len() == 0 {
        assert(a + b =~= a);
        assert(converted(a) + converted(b) =~= converted(a));
    } else {
        let c = b.drop_last();
        assert((a + b).drop_last() =~= a + c);
        assert((a + b).last() == b.last());
        lemma_converted_append(a, c);
        match b.last() {
            Some(x) => {
                assert(converted(a) + converted(c).push(x) =~= (converted(a) + converted(c)).push(x));
            },
            None => {},
        }
    }
}

/// Keeping the converted spans keeps every one of them, unchanged and in order,
/// and nothing else: there are as many as entries that hold a span, and the span
/// at position `j` lands after those held before it.
pub proof fn lemma_converted_keeps_each(s: Seq<Option<OwnedSpan>>)
    ensures
        converted(s).len() == count_some(s),
        forall|j: int|
            #![trigger s[j]]
            0 <= j < s.len() && s[j] is Some ==> count_some(s.take(j)) < count_some(s)
                && converted(s)[count_some(s.take(j)) as int] == s[j]->0,
    decreases s.len(),
{
    if s.len() > 0 {
        let t = s.drop_last();
        lemma_converted_keeps_each(t);
        assert forall|j: int|
            #![trigger s[j]]
            0 <= j < s.len() && s[j] is Some implies count_some(s.take(j)) < count_some(s)
                && converted(s)[count_some(s.take(j)) as int] == s[j]->0 by {
            if j < s.len() - 1 {
                assert(s.take(j) =~= t.take(j));
                assert(t[j] == s[j]);
            } else {
                assert(s.take(j) =~= t);
            }
        }
    }
}

/// Keeps the spans that were converted, in their order.
pub fn keep_converted(v: Vec<Option<OwnedSpan>>) -> (r: Vec<OwnedSpan>)
    ensures
        r@ == converted(v@),
        r@.len() == count_some(v@),
        forall|j: int|
            #![trigger v@[j]]
            0 <= j < v@.len() && v@[j] is Some ==> r@[count_some(v@.take(j)) as int] == v@[j]->0,
{
    proof {
        lemma_converted_keeps_each(v@);
    }
    let mut v = v;
    let ghost orig = v@;
    let mut rev: Vec<OwnedSpan> = Vec::new();
    // Drain from the back, then restore the order.
    while v.len() > 0
        invariant
            orig.len() >= v@.len(),
            v@ == orig.take(v@.len() as int),
            converted(orig) == converted(v@) + rev@.reverse(),
        decreases v.len(),
    {
        let ghost before = v@;
        let item = v.pop().unwrap();
        assert(before.drop_last() =~= v@);
        assert(orig.take(v@.len() as int) =~= v@) by {
            assert(before =~= orig.take(before.len() as int));
        }
        match item {
            Some(s) => {
                let ghost old_rev = rev@;
                rev.push(s);
                assert(rev@.reverse() =~= seq![s] + old_rev.reverse());
                assert(converted(before) == converted(v@).push(s));
                assert(converted(v@).push(s) + old_rev.reverse() =~= converted(v@) + rev@.reverse());
            },
            None => {
                assert(converted(before) == converted(v@));
            },
        }
    }
    assert(converted(v@) =~= Seq::<OwnedSpan>::empty());
    let mut r: Vec<OwnedSpan> = Vec::new();
    let ghost total = rev@.reverse();
    while rev.len() > 0
        invariant
            total == r@ + rev@.reverse(),
        decreases rev.len(),
    {
        let ghost before = rev@;
        let s = rev.pop().unwrap();
        r.push(s);
        assert(before.reverse() =~= seq![s] + rev@.reverse());
        assert(total =~= r@ + rev@.reverse());
    }
    assert(r@ =~= total);
    assert(converted(orig) =~= total);
    r
}

// ── result values ─────────────────────────────────────────────────────────────

/// The result of a backward or forward slice.
#[derive(Debug)]
pub struct SliceOutput {
    pub target: OwnedSpan,
    pub dependencies: Vec<OwnedSpan>,
}

/// The analysable function bodies of a file.
#[derive(Debug)]
pub struct SpansOutput {
    pub spans: Vec<OwnedSpan>,
}

/// A single place-level focus entry.
#[derive(Debug)]
pub struct FocusEntry {
    pub range: OwnedSpan,
    pub slice: Vec<OwnedSpan>,
}

/// The focus entries of a function body.
#[derive(Debug)]
pub struct FocusOutput {
    pub entries: Vec<FocusEntry>,
}

// ── text ──────────────────────────────────────────────────────────────────────

/// The line showing a span's source text, when it has one.
pub open spec fn content_line(indent: Seq<char>, content: Option<Seq<char>>) -> Seq<char> {
    match content {
        Some(c) => indent + c + "\n"@,
        None => Seq::empty(),
    }
}

/// One listed span: its token after `prefix`, then its source text indented by four.
pub open spec fn listed_span(prefix: Seq<char>, s: SpanSpec) -> Seq<char> {
    prefix + span_text(s) + "\n"@ + content_line("    "@, s.content)
}

/// Every span of `v` listed in order.
pub open spec fn listed_spans(prefix: Seq<char>, v: Seq<SpanSpec>) -> Seq<char>
    decreases v.len(),
{
    if v.len() == 0 {
        Seq::empty()
    } else {
        listed_spans(prefix, v.drop_last()) + listed_span(prefix, v.last())
    }
}

/// `one` for a count of one, `many` otherwise.
pub open spec fn plural(n: nat, one: Seq<char>, many: Seq<char>) -> Seq<char> {
    if n == 1 {
        one
    } else {
        many
    }
}

/// The text form of a slice: a header, the target, its source text, the count of
/// dependencies, a blank line, then every dependency with its source text.
pub open spec fn slice_text_spec(target: SpanSpec, deps: Seq<SpanSpec>) -> Seq<char> {
    "Slice of "@ + span_text(target) + "\n"@ + "target  "@ + span_text(target) + "\n"@
        + content_line("  "@, target.content) + decimal(
        deps.len(),
    ) + " dependenc"@ + plural(deps.len(), "y"@, "ies"@) + ":\n"@ + "\n"@ + listed_spans(
        "  "@,
        deps,
    )
}

/// The text form of the analysable spans of `file`.
pub open spec fn spans_text_spec(file: Seq<char>, spans: Seq<SpanSpec>) -> Seq<char> {
    "Analysable spans in "@ + file + "\n"@ + decimal(spans.len()) + " span"@ + plural(
        spans.len(),
        ""@,
        "s"@,
    ) + ":\n"@ + "\n"@ + listed_spans("  "@, spans)
}

/// One focus entry: a blank line, the place, then its slice.
pub open spec fn focus_entry_text(range: SpanSpec, slice: Seq<SpanSpec>) -> Seq<char> {
    "\n"@ + listed_span("  place  "@, range) + listed_spans("  slice  "@, slice)
}

/// Every focus entry of `v` in order.
pub open spec fn focus_entries_text(v: Seq<FocusEntry>) -> Seq<char>
    decreases v.len(),
{
    if v.len() == 0 {
        Seq::empty()
    } else {
        focus_entries_text(v.drop_last()) + focus_entry_text(
            v.last().range@,
            spans_view(v.last().slice@),
        )
    }
}

/// The text form of a focus result at `location`.
pub open spec fn focus_text_spec(location: Seq<char>, entries: Seq<FocusEntry>) -> Seq<char> {
    "Focus at "@ + location + "\n"@ + decimal(entries.len()) + " place"@ + plural(
        entries.len(),
        ""@,
        "s"@,
    ) + ":\n"@ + focus_entries_text(entries)
}

/// The text form of an error.
pub open spec fn error_text_spec(message: Seq<char>) -> Seq<char> {
    "Error: "@ + message + "\n"@
}

fn push_content_line(out: &mut String, indent: &str, content: &Option<String>)
    ensures
        final(out)@ == old(out)@ + content_line(indent@, opt_view(*content)),
{
    match content {
        Some(c) => {
            out.append(indent);
            out.append(c.as_str());
            out.append("\n");
            assert(final(out)@ =~= old(out)@ + content_line(indent@, opt_view(*content)));
        },
        None => {
            assert(final(out)@ =~= old(out)@ + content_line(indent@, opt_view(*content)));
        },
    }
}

fn push_listed_span(out: &mut String, prefix: &str, s: &OwnedSpan)
    ensures
        final(out)@ == old(out)@ + listed_span(prefix@, s@),
{
    out.append(prefix);
    push_span_str(out, s);
    out.append("\n");
    push_content_line(out, "    ", &s.content);
    assert(final(out)@ =~= old(out)@ + listed_span(prefix@, s@));
}

fn push_listed_spans(out: &mut String, prefix: &str, v: &Vec<OwnedSpan>)
    ensures
        final(out)@ == old(out)@ + listed_spans(prefix@, spans_view(v@)),
{
    let ghost start = out@;
    let mut i: usize = 0;
    while i < v.len()
        invariant
            i <= v.len(),
            out@ == start + listed_spans(prefix@, spans_view(v@.take(i as int))),
        decreases v.len() - i,
    {
        let ghost before = out@;
        push_listed_span(out, prefix, &v[i]);
        assert(spans_view(v@.take(i + 1)).drop_last() =~= spans_view(v@.take(i as int)));
        assert(spans_view(v@.take(i + 1)).last() == v@[i as int]@);
        assert(out@ =~= start + listed_spans(prefix@, spans_view(v@.take(i + 1))));
        i = i + 1;
    }
    assert(v@.take(v.len() as int) =~= v@);
}

/// Appends `one` when `n` is one, `many` otherwise.
fn push_plural(out: &mut String, n: usize, one: &str, many: &str)
    ensures
        final(out)@ == old(out)@ + plural(n as nat, one@, many@),
{
    if n == 1 {
        out.append(one);
    } else {
        out.append(many);
    }
}

/// The human-readable text of a slice, exactly as it is printed.
pub fn slice_text(out: &SliceOutput) -> (r: String)
    ensures
        r@ == slice_text_spec(out.target@, spans_view(out.dependencies@)),
{
    let n = out.dependencies.len();
    let mut s = "Slice of ".to_owned();
    push_span_str(&mut s, &out.target);
    s.append("\n");
    s.append("target  ");
    push_span_str(&mut s, &out.target);
    s.append("\n");
    push_content_line(&mut s, "  ", &out.target.content);
    push_decimal(&mut s, n);
    s.append(" dependenc");
    push_plural(&mut s, n, "y", "ies");
    s.append(":\n");
    s.append("\n");
    push_listed_spans(&mut s, "  ", &out.dependencies);
    assert(s@ =~= slice_text_spec(out.target@, spans_view(out.dependencies@)));
    s
}

/// The human-readable text of the analysable spans of `file`, exactly as it is printed.
pub fn spans_text(out: &SpansOutput, file: &str) -> (r: String)
    ensures
        r@ == spans_text_spec(file@, spans_view(out.spans@)),
{
    let n = out.spans.len();
    let mut s = "Analysable spans in ".to_owned();
    s.append(file);
    s.append("\n");
    push_decimal(&mut s, n);
    s.append(" span");
    push_plural(&mut s, n, "", "s");
    s.append(":\n");
    s.append("\n");
    push_listed_spans(&mut s, "  ", &out.spans);
    assert(s@ =~= spans_text_spec(file@, spans_view(out.spans@)));
    s
}

/// The human-readable text of a focus result at `location`, exactly as it is printed.
#[verifier::rlimit(40)]
pub fn focus_text(out: &FocusOutput, location: &str) -> (r: String)
    ensures
        r@ == focus_text_spec(location@, out.entries@),
{
    let n = out.entries.len();
    let mut s = "Focus at ".to_owned();
    s.append(location);
    s.append("\n");
    push_decimal(&mut s, n);
    s.append(" place");
    push_plural(&mut s, n, "", "s");
    s.append(":\n");
    let ghost head = s@;
    let mut i: usize = 0;
    while i < n
        invariant
            n == out.entries.len(),
            i <= n,
            s@ == head + focus_entries_text(out.entries@.take(i as int)),
        decreases n - i,
    {
        let entry = &out.entries[i];
        s.append("\n");
        push_listed_span(&mut s, "  place  ", &entry.range);
        push_listed_spans(&mut s, "  slice  ", &entry.slice);
        assert(out.entries@.take(i + 1).drop_last() =~= out.entries@.take(i as int));
        assert(s@ =~= head + focus_entries_text(out.entries@.take(i + 1)));
        i = i + 1;
    }
    assert(out.entries@.take(n as int) =~= out.entries@);
    assert(s@ =~= focus_text_spec(location@, out.entries@));
    s
}

/// The human-readable text of an error, exactly as it is printed.
pub fn error_text(message: &str) -> (r: String)
    ensures
        r@ == error_text_spec(message@),
{
    let mut s = "Error: ".to_owned();
    s.append(message);
    s.append("\n");
    s
}

// ── laws of the text forms ────────────────────────────────────────────────────

/// Every span is listed, in order and none left out: for each span, its prefix
/// and token on a line, then its source text indented by four on the next line
/// when it has one.
pub proof fn lemma_listed_spans_each(prefix: Seq<char>, v: Seq<SpanSpec>)
    ensures
        listed_spans(prefix, v) == Seq::new(
            v.len(),
            |i: int|
                prefix + span_text(v[i]) + "\n"@ + (match v[i].content {
                    Some(c) => "    "@ + c + "\n"@,
                    None => Seq::<char>::empty(),
                }),
        ).flatten(),
    decreases v.len(),
{
    let blocks = Seq::new(
        v.len(),
        |i: int|
            prefix + span_text(v[i]) + "\n"@ + (match v[i].content {
                Some(c) => "    "@ + c + "\n"@,
                None => Seq::<char>::empty(),
            }),
    );
    if v.len() == 0 {
        assert(blocks =~= Seq::<Seq<char>>::empty());
    } else {
        let t = v.drop_last();
        lemma_listed_spans_each(prefix, t);
        let before = Seq::new(
            t.len(),
            |i: int|
                prefix + span_text(t[i]) + "\n"@ + (match t[i].content {
                    Some(c) => "    "@ + c + "\n"@,
                    None => Seq::<char>::empty(),
                }),
        );
        assert(blocks =~= before.push(blocks[v.len() - 1]));
        before.lemma_flatten_push(blocks[v.len() - 1]);
        assert(listed_span(prefix, v.last()) =~= blocks[v.len() - 1]);
    }
}

/// The text of the analysable spans of a file: a header naming the file, the
/// count with "span" or "spans", a blank line, then every span in order, its
/// token indented by two and its source text by four.
pub proof fn lemma_spans_text_lists_every_span(file: Seq<char>, v: Seq<SpanSpec>)
    ensures
        spans_text_spec(file, v) == "Analysable spans in "@ + file + "\n"@ + decimal(v.len())
            + " span"@ + (if v.len() == 1 {
            ""@
        } else {
            "s"@
        }) + ":\n"@ + "\n"@ + Seq::new(
            v.len(),
            |i: int|
                "  "@ + span_text(v[i]) + "\n"@ + (match v[i].content {
                    Some(c) => "    "@ + c + "\n"@,
                    None => Seq::<char>::empty(),
                }),
        ).flatten(),
{
    lemma_listed_spans_each("  "@, v);
}

/// The text of a slice: the header and `target` lines with the target's token,
/// its source text indented by two, the count with "dependency" or
/// "dependencies", a blank line, then every dependency in order, its token
/// indented by two and its source text by four.
pub proof fn lemma_slice_text_lists_every_dependency(target: SpanSpec, deps: Seq<SpanSpec>)
    ensures
        slice_text_spec(target, deps) == "Slice of "@ + span_text(target) + "\n"@ + "target  "@
            + span_text(target) + "\n"@ + (match target.content {
            Some(c) => "  "@ + c + "\n"@,
            None => Seq::<char>::empty(),
        }) + decimal(deps.len()) + " dependenc"@ + (if deps.len() == 1 {
            "y"@
        } else {
            "ies"@
        }) + ":\n"@ + "\n"@ + Seq::new(
            deps.len(),
            |i: int|
                "  "@ + span_text(deps[i]) + "\n"@ + (match deps[i].content {
                    Some(c) => "    "@ + c + "\n"@,
                    None => Seq::<char>::empty(),
                }),
        ).flatten(),
{
    lemma_listed_spans_each("  "@, deps);
}

/// The lines of one focus entry: a blank line, its place's token after
/// `  place  ` with the place's source text indented by four, then every span of
/// its slice, in order, after `  slice  ` with its source text.
pub open spec fn entry_lines(e: FocusEntry) -> Seq<char> {
    "\n"@ + "  place  "@ + span_text(e.range@) + "\n"@ + (match e.range@.content {
        Some(c) => "    "@ + c + "\n"@,
        None => Seq::<char>::empty(),
    }) + Seq::new(
        e.slice@.len(),
        |i: int|
            "  slice  "@ + span_text(e.slice@[i]@) + "\n"@ + (match e.slice@[i]@.content {
                Some(c) => "    "@ + c + "\n"@,
                None => Seq::<char>::empty(),
            }),
    ).flatten()
}

proof fn lemma_entry_lines(e: FocusEntry)
    ensures
        focus_entry_text(e.range@, spans_view(e.slice@)) == entry_lines(e),
{
    let sv = spans_view(e.slice@);
    lemma_listed_spans_each("  slice  "@, sv);
    let inner = Seq::new(
        sv.len(),
        |i: int|
            "  slice  "@ + span_text(sv[i]) + "\n"@ + (match sv[i].content {
                Some(c) => "    "@ + c + "\n"@,
                None => Seq::<char>::empty(),
            }),
    );
    let inner2 = Seq::new(
        e.slice@.len(),
        |i: int|
            "  slice  "@ + span_text(e.slice@[i]@) + "\n"@ + (match e.slice@[i]@.content {
                Some(c) => "    "@ + c + "\n"@,
                None => Seq::<char>::empty(),
            }),
    );
    assert(inner =~= inner2);
    assert(focus_entry_text(e.range@, sv) =~= entry_lines(e));
}

/// The text of the focus entries: every entry in order, none left out, each laid
/// out as `entry_lines` says.
pub proof fn lemma_focus_entries_each(v: Seq<FocusEntry>)
    ensures
        focus_entries_text(v) == Seq::new(v.len(), |k: int| entry_lines(v[k])).flatten(),
    decreases v.len(),
{
    let blocks = Seq::new(v.len(), |k: int| entry_lines(v[k]));
    if v.len() == 0 {
        assert(blocks =~= Seq::<Seq<char>>::empty());
    } else {
        let t = v.drop_last();
        lemma_focus_entries_each(t);
        let before = Seq::new(t.len(), |k: int| entry_lines(t[k]));
        assert(blocks =~= before.push(blocks[v.len() - 1]));
        before.lemma_flatten_push(blocks[v.len() - 1]);
        lemma_entry_lines(v.last());
    }
}

/// The text of a focus result: the location, the count with "place" or "places",
/// then every entry in order as `lemma_focus_entries_each` lays it out.
pub proof fn lemma_focus_text_lists_every_entry(location: Seq<char>, v: Seq<FocusEntry>)
    ensures
        focus_text_spec(location, v) == "Focus at "@ + location + "\n"@ + decimal(v.len()) + " place"@
            + (if v.len() == 1 {
            ""@
        } else {
            "s"@
        }) + ":\n"@ + focus_entries_text(v),
{
}

// ── errors ────────────────────────────────────────────────────────────────────

/// The kinds of failure that the command reports, each with its own exit code.
#[derive(Clone, Copy, Debug, PartialEq, Eq, Structural)]
pub enum FailureKind {
    /// Bad arguments, file not found, bad location format.
    Usage,
    /// rustc could not compile the target.
    Build,
    /// The code compiled but the analysis failed.
    Analysis,
}

/// The exit code of a failure: 3 for a usage error, 2 for a build error, 1 for an
/// analysis error.
pub fn exit_code(kind: FailureKind) -> (code: i32)
    ensures
        code == (match kind {
            FailureKind::Usage => 3i32,
            FailureKind::Build => 2i32,
            FailureKind::Analysis => 1i32,
        }),
{
    match kind {
        FailureKind::Usage => 3,
        FailureKind::Build => 2,
        FailureKind::Analysis => 1,
    }
}

} // verus!
