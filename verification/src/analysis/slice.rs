//! Backward and forward slicing: the MIR locations whose span overlaps the
//! requested range become the targets, and the spans of their dependencies
//! form the result.

use vstd::prelude::*;

use crate::input::{
    lemma_parse_location_token, location_token, spec_parse_range, ParsedRange, RangeErrorSpec,
    RangeSpec,
};
use crate::output::{
    converted, count_some, keep_converted, lemma_converted_append, lemma_converted_keeps_each, spans_view, CharPos, CharRange, OwnedSpan, SliceOutput, SpanSpec,
};
use crate::text::{decimal, push_decimal};

verus! {

/// The byte bounds of a source span.
#[derive(Clone, Copy, Debug, PartialEq, Eq, Structural)]
pub struct SpanBounds {
    pub lo: u32,
    pub hi: u32,
}

/// Two spans overlap when each starts no later than the other ends.
pub open spec fn spans_overlap(a: SpanBounds, b: SpanBounds) -> bool {
    a.lo <= b.hi && b.lo <= a.hi
}

/// Returns true when span `a` and span `b` overlap in source.
pub fn overlaps(a: SpanBounds, b: SpanBounds) -> (r: bool)
    ensures
        r == spans_overlap(a, b),
{
    a.lo <= b.hi && b.lo <= a.hi
}

/// Position `x` lies within the span, both ends included.
pub open spec fn covers(s: SpanBounds, x: int) -> bool {
    s.lo <= x <= s.hi
}

/// Overlap is the closed-interval test: each span starts no later than the other
/// ends. For spans whose start is not after their end, that is exactly sharing a
/// position, ends included; so a zero-width span (a point) overlaps every span
/// that contains its position, and spans that touch at an end overlap.
pub proof fn lemma_overlap_is_shared_position(a: SpanBounds, b: SpanBounds)
    ensures
        spans_overlap(a, b) == (a.lo <= b.hi && b.lo <= a.hi),
        a.lo <= a.hi && b.lo <= b.hi ==> (spans_overlap(a, b) <==> exists|x: int|
            #[trigger] covers(a, x) && covers(b, x)),
        b.lo == b.hi && a.lo <= b.lo <= a.hi ==> spans_overlap(a, b),
        a.lo <= a.hi && b.lo <= b.hi && a.hi == b.lo ==> spans_overlap(a, b),
{
    if a.lo <= a.hi && b.lo <= b.hi && a.lo <= b.hi && b.lo <= a.hi {
        let x: int = if a.lo <= b.lo {
            b.lo as int
        } else {
            a.lo as int
        };
        assert(covers(a, x) && covers(b, x));
    }
}

/// Overlapping is symmetric.
pub proof fn lemma_overlap_symmetric(a: SpanBounds, b: SpanBounds)
    ensures
        spans_overlap(a, b) == spans_overlap(b, a),
{
}

/// A MIR span of the analysed body: its bounds, and how many MIR locations
/// (each with the same place) it covers.
#[derive(Clone, Copy, Debug, PartialEq, Eq, Structural)]
pub struct MirSpanSummary {
    pub bounds: SpanBounds,
    pub locations: usize,
}

/// The `(span index, location index)` pairs that a slice targets: every location
/// of every MIR span that overlaps `target`, in order.
pub open spec fn slice_targets(ms: Seq<MirSpanSummary>, target: SpanBounds) -> Seq<(usize, usize)>
    decreases ms.len(),
{
    if ms.len() == 0 {
        Seq::empty()
    } else {
        let i = ms.len() - 1;
        let here = if spans_overlap(ms[i].bounds, target) {
            Seq::new(ms[i].locations as nat, |j: int| (i as usize, j as usize))
        } else {
            Seq::empty()
        };
        slice_targets(ms.drop_last(), target) + here
    }
}

/// `(i, j)` comes before `(k, l)`: by span first, then by location.
pub open spec fn pair_before(a: (usize, usize), b: (usize, usize)) -> bool {
    a.0 < b.0 || (a.0 == b.0 && a.1 < b.1)
}

/// A slice targets exactly the locations of the MIR spans that overlap the
/// target, each once, in order of span and then of location.
pub proof fn lemma_targets_are_overlapping_locations(ms: Seq<MirSpanSummary>, target: SpanBounds)
    requires
        ms.len() <= usize::MAX,
    ensures
        forall|p: (usize, usize)|
            slice_targets(ms, target).contains(p) <==> (p.0 < ms.len() && spans_overlap(
                ms[p.0 as int].bounds,
                target,
            ) && p.1 < ms[p.0 as int].locations),
        forall|a: int, b: int|
            0 <= a < b < slice_targets(ms, target).len() ==> pair_before(
                #[trigger] slice_targets(ms, target)[a],
                #[trigger] slice_targets(ms, target)[b],
            ),
    decreases ms.len(),
{
    if ms.len() > 0 {
        let t = ms.drop_last();
        lemma_targets_are_overlapping_locations(t, target);
        let i = ms.len() - 1;
        let before = slice_targets(t, target);
        let here = if spans_overlap(ms[i].bounds, target) {
            Seq::new(ms[i].locations as nat, |j: int| (i as usize, j as usize))
        } else {
            Seq::empty()
        };
        let all = slice_targets(ms, target);
        assert(all == before + here);
        assert forall|p: (usize, usize)|
            all.contains(p) <==> (p.0 < ms.len() && spans_overlap(ms[p.0 as int].bounds, target)
                && p.1 < ms[p.0 as int].locations) by {
            if all.contains(p) {
                let q = choose|q: int| 0 <= q < all.len() && all[q] == p;
                if q < before.len() {
                    assert(before[q] == p);
                    assert(before.contains(p));
                    assert(t[p.0 as int] == ms[p.0 as int]);
                } else {
                    assert(here[q - before.len()] == p);
                }
            }
            if p.0 < ms.len() && spans_overlap(ms[p.0 as int].bounds, target) && p.1
                < ms[p.0 as int].locations {
                if p.0 < i {
                    assert(t[p.0 as int] == ms[p.0 as int]);
                    assert(before.contains(p));
                    let q = choose|q: int| 0 <= q < before.len() && before[q] == p;
                    assert(all[q] == p);
                } else {
                    assert(here[p.1 as int] == p);
                    assert(all[before.len() + p.1] == p);
                }
            }
        }
        assert forall|a: int, b: int|
            0 <= a < b < all.len() implies pair_before(#[trigger] all[a], #[trigger] all[b]) by {
            if b < before.len() {
                assert(all[a] == before[a] && all[b] == before[b]);
            } else if a < before.len() {
                assert(all[a] == before[a]);
                assert(before.contains(before[a]));
                assert(all[b] == here[b - before.len()]);
            } else {
                assert(all[a] == here[a - before.len()]);
                assert(all[b] == here[b - before.len()]);
            }
        }
    }
}

/// A range written as `file:SL:SC-EL:EC`.
pub open spec fn range_text(r: RangeSpec) -> Seq<char> {
    location_token(r.file, r.start_line as nat, r.start_col as nat, r.end_line as nat, r.end_col as nat)
}

/// Writes a range as `file:SL:SC-EL:EC`.
pub fn range_str(r: &ParsedRange) -> (s: String)
    ensures
        s@ == range_text(r@),
{
    let mut s = r.file.clone();
    s.append(":");
    push_decimal(&mut s, r.start_line);
    s.append(":");
    push_decimal(&mut s, r.start_col);
    s.append("-");
    push_decimal(&mut s, r.end_line);
    s.append(":");
    push_decimal(&mut s, r.end_col);
    assert(s@ =~= range_text(r@));
    s
}

/// `range_str` writes a range as a location that `parse_range` reads back as the
/// same range, whenever the file name holds no colon.
pub proof fn lemma_range_str_roundtrip(r: RangeSpec)
    requires
        forall|i: int| 0 <= i < r.file.len() ==> r.file[i] != ':',
    ensures
        spec_parse_range(range_text(r)) == Ok::<RangeSpec, RangeErrorSpec>(r),
{
    lemma_parse_location_token(r.file, r.start_line, r.start_col, r.end_line, r.end_col);
}

/// A 1-based position as the compiler counts it, from 0. A 0, which no 1-based
/// position holds, is taken as the first line or column.
pub open spec fn zero_based(n: usize) -> usize {
    if n > 0 {
        (n - 1) as usize
    } else {
        0
    }
}

fn to_zero_based(n: usize) -> (r: usize)
    ensures
        r == zero_based(n),
{
    if n > 0 {
        n - 1
    } else {
        0
    }
}

/// The compiler's 0-based character range of a 1-based location.
pub fn to_char_range(r: &ParsedRange) -> (c: CharRange)
    ensures
        c == (CharRange {
            start: CharPos { line: zero_based(r.start_line), column: zero_based(r.start_col) },
            end: CharPos { line: zero_based(r.end_line), column: zero_based(r.end_col) },
        }),
{
    CharRange {
        start: CharPos { line: to_zero_based(r.start_line), column: to_zero_based(r.start_col) },
        end: CharPos { line: to_zero_based(r.end_line), column: to_zero_based(r.end_col) },
    }
}

/// Positions are 1-based at both ends: a location turned into the compiler's
/// 0-based range and back into a span (adding one, as `span_to_owned` does)
/// keeps its lines and columns, whenever none of them is 0.
pub proof fn lemma_one_based_round_trip(r: RangeSpec)
    requires
        r.start_line >= 1,
        r.start_col >= 1,
        r.end_line >= 1,
        r.end_col >= 1,
    ensures
        zero_based(r.start_line) + 1 == r.start_line,
        zero_based(r.start_col) + 1 == r.start_col,
        zero_based(r.end_line) + 1 == r.end_line,
        zero_based(r.end_col) + 1 == r.end_col,
{
}

/// The failure when the location maps to no source span of the crate.
pub fn unmapped_location_message() -> (r: &'static str)
    ensures
        r@ == "could not map location to a source span — check that the file path and line/column are correct"@,
{
    "could not map location to a source span — check that the file path and line/column are correct"
}

/// The failure when no function body encloses the location.
pub fn no_body_message() -> (r: &'static str)
    ensures
        r@ == "no function body found at the given location"@,
{
    "no function body found at the given location"
}

/// The message when no MIR location overlaps the requested range.
pub open spec fn no_targets_text(r: RangeSpec) -> Seq<char> {
    "no analyzable locations found at "@ + range_text(r) + "\nhint: run `cargo flowistry spans "@
        + r.file + "` to see what ranges are available"@
}

fn no_targets_message(range: &ParsedRange) -> (s: String)
    ensures
        s@ == no_targets_text(range@),
{
    let mut s = "no analyzable locations found at ".to_owned();
    s.append(range_str(range).as_str());
    s.append("\nhint: run `cargo flowistry spans ");
    s.append(range.file.as_str());
    s.append("` to see what ranges are available");
    assert(s@ =~= no_targets_text(range@));
    s
}

/// Collects every `(place, location)` target whose MIR span overlaps `target`,
/// as `(span index, location index)` pairs; fails with a hint when there is none.
pub fn select_targets(mir_spans: &Vec<MirSpanSummary>, target: SpanBounds, range: &ParsedRange) -> (r:
    Result<Vec<(usize, usize)>, String>)
    ensures
        slice_targets(mir_spans@, target).len() > 0 ==> r is Ok && r->Ok_0@ == slice_targets(
            mir_spans@,
            target,
        ),
        slice_targets(mir_spans@, target).len() == 0 ==> r is Err && r->Err_0@
            == no_targets_text(range@),
{
    let mut out: Vec<(usize, usize)> = Vec::new();
    let mut i: usize = 0;
    while i < mir_spans.len()
        invariant
            i <= mir_spans.len(),
            out@ == slice_targets(mir_spans@.take(i as int), target),
        decreases mir_spans.len() - i,
    {
        let ms = mir_spans[i];
        let ghost before = out@;
        assert(mir_spans@.take(i + 1).drop_last() =~= mir_spans@.take(i as int));
        if overlaps(ms.bounds, target) {
            let mut j: usize = 0;
            while j < ms.locations
                invariant
                    j <= ms.locations,
                    out@ == before + Seq::new(j as nat, |k: int| (i, k as usize)),
                decreases ms.locations - j,
            {
                out.push((i, j));
                assert(out@ =~= before + Seq::new((j + 1) as nat, |k: int| (i, k as usize)));
                j = j + 1;
            }
        } else {
            assert(out@ =~= before + Seq::<(usize, usize)>::empty());
        }
        assert(out@ =~= slice_targets(mir_spans@.take(i + 1), target));
        i = i + 1;
    }
    assert(mir_spans@.take(mir_spans.len() as int) =~= mir_spans@);
    if out.len() == 0 {
        Err(no_targets_message(range))
    } else {
        Ok(out)
    }
}

/// The values of groups of optional spans.
pub open spec fn groups_view(v: Seq<Vec<Option<OwnedSpan>>>) -> Seq<Seq<Option<OwnedSpan>>> {
    v.map_values(|g: Vec<Option<OwnedSpan>>| g@)
}

/// How many spans the groups hold in all.
pub open spec fn total_some(g: Seq<Vec<Option<OwnedSpan>>>) -> nat
    decreases g.len(),
{
    if g.len() == 0 {
        0
    } else {
        total_some(g.drop_last()) + count_some(g.last()@)
    }
}

/// Where the span at position `j` of group `k` lands among the converted spans of
/// all groups: after every span held by the groups before `k` and by the positions
/// before `j` in group `k`.
pub open spec fn dependency_index(g: Seq<Vec<Option<OwnedSpan>>>, k: int, j: int) -> int {
    (total_some(g.take(k)) + count_some(g[k]@.take(j))) as int
}

/// A slice keeps every dependency span that was converted, unchanged and in
/// order, and nothing else: there are as many as the groups hold spans in all,
/// and the span at position `j` of group `k` comes after every span held by the
/// groups before `k` and by the positions before `j` in group `k`.
pub proof fn lemma_slice_keeps_every_dependency(g: Seq<Vec<Option<OwnedSpan>>>)
    ensures
        converted(groups_view(g).flatten()).len() == total_some(g),
        forall|k: int, j: int|
            #![trigger g[k]@[j]]
            0 <= k < g.len() && 0 <= j < g[k]@.len() && g[k]@[j] is Some ==> dependency_index(g, k, j)
                < total_some(g) && converted(groups_view(g).flatten())[dependency_index(g, k, j)]
                == g[k]@[j]->0,
    decreases g.len(),
{
    if g.len() > 0 {
        let t = g.drop_last();
        let last = g.last()@;
        lemma_slice_keeps_every_dependency(t);
        assert(groups_view(g) =~= groups_view(t).push(last));
        groups_view(t).lemma_flatten_push(last);
        lemma_converted_append(groups_view(t).flatten(), last);
        lemma_converted_keeps_each(last);
        let d = converted(groups_view(g).flatten());
        let dt = converted(groups_view(t).flatten());
        assert(d == dt + converted(last));
        assert forall|k: int, j: int|
            #![trigger g[k]@[j]]
            0 <= k < g.len() && 0 <= j < g[k]@.len() && g[k]@[j] is Some implies dependency_index(g, k, j)
                < total_some(g) && d[dependency_index(g, k, j)] == g[k]@[j]->0 by {
            if k < g.len() - 1 {
                assert(g.take(k) =~= t.take(k));
                assert(t[k] == g[k]);
                assert(t[k]@[j] == g[k]@[j]);
            } else {
                assert(g.take(k) =~= t);
                assert(last[j] == g[k]@[j]);
            }
        }
    }
}

/// Puts a slice together: the target, then the converted spans of every
/// dependency group, flattened in order.
pub fn assemble_slice(target: OwnedSpan, dependency_groups: Vec<Vec<Option<OwnedSpan>>>) -> (r:
    SliceOutput)
    ensures
        r.target@ == target@,
        r.dependencies@ == converted(groups_view(dependency_groups@).flatten()),
        r.dependencies@.len() == total_some(dependency_groups@),
        forall|k: int, j: int|
            #![trigger dependency_groups@[k]@[j]]
            0 <= k < dependency_groups@.len() && 0 <= j < dependency_groups@[k]@.len()
                && dependency_groups@[k]@[j] is Some ==> r.dependencies@[dependency_index(
                dependency_groups@,
                k,
                j,
            )] == dependency_groups@[k]@[j]->0,
{
    proof {
        lemma_slice_keeps_every_dependency(dependency_groups@);
    }
    let mut groups = dependency_groups;
    let ghost total = groups_view(groups@).flatten();
    let mut all: Vec<Option<OwnedSpan>> = Vec::new();
    while groups.len() > 0
        invariant
            total == all@ + groups_view(groups@).flatten(),
        decreases groups.len(),
    {
        let ghost before = groups@;
        let mut g = groups.remove(0);
        assert(groups_view(before).first() == g@);
        assert(groups_view(before).drop_first() =~= groups_view(groups@));
        let ghost gv = g@;
        all.append(&mut g);
        assert(total =~= all@ + groups_view(groups@).flatten());
    }
    assert(groups_view(groups@) =~= Seq::<Seq<Option<OwnedSpan>>>::empty());
    assert(all@ =~= total);
    let dependencies = keep_converted(all);
    SliceOutput { target, dependencies }
}

} // verus!
