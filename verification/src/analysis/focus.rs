//! IDE focus mode: the MIR locations of a body are grouped by source span, each
//! group is sliced in both directions, and the result lists every place with
//! its slice.

use vstd::prelude::*;

use crate::analysis::slice::pair_before;
use crate::output::{
    converted, count_some, keep_converted, lemma_converted_keeps_each, spans_view, FocusEntry,
    FocusOutput, OwnedSpan, SpanSpec,
};

verus! {

/// The identity of a source span: its bounds, its syntax context and its parent.
#[derive(Clone, Copy, Debug, PartialEq, Eq, Structural)]
pub struct SpanKey {
    pub lo: u32,
    pub hi: u32,
    pub ctxt: u32,
    pub parent: Option<u32>,
}

/// A MIR span of the analysed body: its identity, and how many MIR locations
/// (each with the same place) it covers.
#[derive(Clone, Copy, Debug, PartialEq, Eq, Structural)]
pub struct MirSpanEntry {
    pub span: SpanKey,
    pub locations: usize,
}

/// The failure when the cursor maps to no source span of the crate.
pub fn unmapped_cursor_message() -> (r: &'static str)
    ensures
        r@ == "could not map location to a source span"@,
{
    "could not map location to a source span"
}

/// A group: a span, and the `(span index, location index)` pairs that share it.
pub type Group = (SpanKey, Seq<(usize, usize)>);

/// `x` is the first group whose span is `k`.
pub open spec fn first_with_key(g: Seq<Group>, k: SpanKey, x: int) -> bool {
    0 <= x < g.len() && g[x].0 == k && forall|y: int| 0 <= y < x ==> g[y].0 != k
}

/// The pairs that a MIR span contributes: one per location.
pub open spec fn span_pairs(i: int, n: nat) -> Seq<(usize, usize)> {
    Seq::new(n, |j: int| (i as usize, j as usize))
}

/// The groups of MIR spans, one per distinct span in order of first occurrence;
/// the pairs of a span join the group of an equal span when there is one.
pub open spec fn span_groups(ms: Seq<MirSpanEntry>) -> Seq<Group>
    decreases ms.len(),
{
    if ms.len() == 0 {
        Seq::empty()
    } else {
        let g = span_groups(ms.drop_last());
        let i = ms.len() - 1;
        let e = ms[i];
        let pairs = span_pairs(i, e.locations as nat);
        if exists|x: int| first_with_key(g, e.span, x) {
            let x = choose|x: int| first_with_key(g, e.span, x);
            g.update(x, (e.span, g[x].1 + pairs))
        } else {
            g.push((e.span, pairs))
        }
    }
}

/// Groups of MIR locations that share a span, in order of first occurrence.
pub struct SpanGroups {
    pub spans: Vec<SpanKey>,
    pub members: Vec<Vec<(usize, usize)>>,
}

/// The groups as values.
pub open spec fn groups_of(spans: Seq<SpanKey>, members: Seq<Vec<(usize, usize)>>) -> Seq<Group> {
    Seq::new(spans.len(), |x: int| (spans[x], members[x]@))
}

impl SpanGroups {
    /// The groups as values.
    pub open spec fn groups(&self) -> Seq<Group> {
        groups_of(self.spans@, self.members@)
    }

    /// Every span has its list of members.
    pub open spec fn well_formed(&self) -> bool {
        self.spans@.len() == self.members@.len()
    }
}

/// Build one target group per unique MIR span: all `(place, location)` pairs
/// that share the same source span are analysed together.
pub fn group_by_span(mir_spans: &Vec<MirSpanEntry>) -> (r: SpanGroups)
    ensures
        r.well_formed(),
        r.groups() == span_groups(mir_spans@),
{
    let mut spans: Vec<SpanKey> = Vec::new();
    let mut members: Vec<Vec<(usize, usize)>> = Vec::new();
    let mut i: usize = 0;
    while i < mir_spans.len()
        invariant
            i <= mir_spans.len(),
            spans@.len() == members@.len(),
            groups_of(spans@, members@) == span_groups(mir_spans@.take(i as int)),
        decreases mir_spans.len() - i,
    {
        let e = mir_spans[i];
        let ghost g = groups_of(spans@, members@);
        assert(mir_spans@.take(i + 1).drop_last() =~= mir_spans@.take(i as int));
        assert(mir_spans@.take(i + 1)[i as int] == e);
        let mut x: usize = 0;
        let mut found = false;
        while x < spans.len()
            invariant_except_break
                !found,
            invariant
                x <= spans@.len(),
                spans@.len() == g.len(),
                g == groups_of(spans@, members@),
                forall|y: int| 0 <= y < x ==> g[y].0 != e.span,
            ensures
                found ==> x < spans@.len() && g[x as int].0 == e.span,
                !found ==> x == spans@.len(),
                forall|y: int| 0 <= y < x ==> g[y].0 != e.span,
            decreases spans.len() - x,
        {
            if spans[x] == e.span {
                found = true;
                break;
            }
            x = x + 1;
        }
        if found {
            assert(first_with_key(g, e.span, x as int));
            proof {
                let c = choose|c: int| first_with_key(g, e.span, c);
                assert(c == x as int) by {
                    if c < x {
                    } else if c > x {
                        assert(g[x as int].0 == e.span);
                    }
                }
            }
            let mut m = members.remove(x);
            let ghost m0 = m@;
            let mut j: usize = 0;
            while j < e.locations
                invariant
                    j <= e.locations,
                    m@ == m0 + span_pairs(i as int, j as nat),
                decreases e.locations - j,
            {
                m.push((i, j));
                assert(m@ =~= m0 + span_pairs(i as int, (j + 1) as nat));
                j = j + 1;
            }
            members.insert(x, m);
            assert(groups_of(spans@, members@) =~= g.update(
                x as int,
                (e.span, g[x as int].1 + span_pairs(i as int, e.locations as nat)),
            ));
        } else {
            assert forall|c: int| !first_with_key(g, e.span, c) by {
                if first_with_key(g, e.span, c) {
                    assert(g[c].0 == e.span);
                }
            }
            let mut m: Vec<(usize, usize)> = Vec::new();
            let mut j: usize = 0;
            while j < e.locations
                invariant
                    j <= e.locations,
                    m@ == span_pairs(i as int, j as nat),
                decreases e.locations - j,
            {
                m.push((i, j));
                assert(m@ =~= span_pairs(i as int, (j + 1) as nat));
                j = j + 1;
            }
            spans.push(e.span);
            members.push(m);
            assert(groups_of(spans@, members@) =~= g.push(
                (e.span, span_pairs(i as int, e.locations as nat)),
            ));
        }
        i = i + 1;
    }
    assert(mir_spans@.take(mir_spans.len() as int) =~= mir_spans@);
    SpanGroups { spans, members }
}

/// Grouping by span yields one group per distinct span: no two groups share a
/// span, every MIR span has its group, and a group holds exactly the pairs
/// `(i, j)` of the MIR spans `i` equal to its span, one per location `j`.
pub proof fn lemma_span_groups(ms: Seq<MirSpanEntry>)
    requires
        ms.len() <= usize::MAX,
    ensures
        forall|x: int, y: int|
            0 <= x < y < span_groups(ms).len() ==> span_groups(ms)[x].0 != span_groups(ms)[y].0,
        forall|i: int|
            0 <= i < ms.len() ==> exists|x: int|
                0 <= x < span_groups(ms).len() && #[trigger] span_groups(ms)[x].0 == #[trigger] ms[i].span,
        forall|x: int, p: (usize, usize)|
            0 <= x < span_groups(ms).len() ==> (span_groups(ms)[x].1.contains(p) <==> (
            p.0 < ms.len() && p.1 < ms[p.0 as int].locations && ms[p.0 as int].span
                == span_groups(ms)[x].0)),
    decreases ms.len(),
{
    if ms.len() > 0 {
        let t = ms.drop_last();
        lemma_span_groups(t);
        let g = span_groups(t);
        let i = ms.len() - 1;
        let e = ms[i];
        let pairs = span_pairs(i, e.locations as nat);
        let h = span_groups(ms);
        assert forall|p: (usize, usize)| pairs.contains(p) <==> (p.0 == i && p.1
            < e.locations) by {
            if p.0 == i && p.1 < e.locations {
                assert(pairs[p.1 as int] == p);
            }
        }
        if exists|x: int| first_with_key(g, e.span, x) {
            let x = choose|x: int| first_with_key(g, e.span, x);
            assert(h == g.update(x, (e.span, g[x].1 + pairs)));
            assert forall|z: int, p: (usize, usize)| 0 <= z < h.len() implies (h[z].1.contains(p)
                <==> (p.0 < ms.len() && p.1 < ms[p.0 as int].locations && ms[p.0 as int].span
                == h[z].0)) by {
                if z == x {
                    if h[z].1.contains(p) {
                        let k = choose|k: int| 0 <= k < h[z].1.len() && h[z].1[k] == p;
                        if k < g[x].1.len() {
                            assert(g[x].1[k] == p);
                            assert(g[x].1.contains(p));
                            assert(t[p.0 as int] == ms[p.0 as int]);
                        } else {
                            assert(pairs[k - g[x].1.len()] == p);
                            assert(pairs.contains(p));
                            assert(p.0 == i);
                        }
                    }
                    if p.0 < ms.len() && p.1 < ms[p.0 as int].locations && ms[p.0 as int].span
                        == h[z].0 {
                        if p.0 < i {
                            assert(t[p.0 as int] == ms[p.0 as int]);
                            assert(g[x].1.contains(p));
                            let k = choose|k: int| 0 <= k < g[x].1.len() && g[x].1[k] == p;
                            assert(h[z].1[k] == p);
                        } else {
                            assert(pairs.contains(p));
                            let k = choose|k: int| 0 <= k < pairs.len() && pairs[k] == p;
                            assert(h[z].1[g[x].1.len() + k] == p);
                        }
                    }
                } else {
                    assert(h[z] == g[z]);
                    if p.0 == i && p.1 < e.locations && e.span == h[z].0 {
                        assert(g[z].0 == g[x].0);
                        if z < x {
                        } else {
                        }
                    }
                    if g[z].1.contains(p) {
                        assert(t[p.0 as int] == ms[p.0 as int]);
                    }
                    if p.0 < i && p.1 < ms[p.0 as int].locations && ms[p.0 as int].span == h[z].0 {
                        assert(t[p.0 as int] == ms[p.0 as int]);
                    }
                }
            }
            assert forall|j: int| #![trigger ms[j]] 0 <= j < ms.len() implies exists|z: int|
                0 <= z < h.len() && #[trigger] h[z].0 == ms[j].span by {
                if j < i {
                    assert(t[j] == ms[j]);
                    let z = choose|z: int| 0 <= z < g.len() && g[z].0 == t[j].span;
                    assert(h[z].0 == ms[j].span);
                } else {
                    assert(h[x].0 == ms[j].span);
                }
            }
        } else {
            assert forall|z: int| 0 <= z < g.len() implies g[z].0 != e.span by {
                if g[z].0 == e.span {
                    assert(first_with_key(g, e.span, z));
                }
            }
            assert(h == g.push((e.span, pairs)));
            assert forall|z: int, p: (usize, usize)| 0 <= z < h.len() implies (h[z].1.contains(p)
                <==> (p.0 < ms.len() && p.1 < ms[p.0 as int].locations && ms[p.0 as int].span
                == h[z].0)) by {
                if z < g.len() {
                    assert(h[z] == g[z]);
                    if g[z].1.contains(p) {
                        assert(t[p.0 as int] == ms[p.0 as int]);
                    }
                    if p.0 < i && p.1 < ms[p.0 as int].locations && ms[p.0 as int].span == h[z].0 {
                        assert(t[p.0 as int] == ms[p.0 as int]);
                    }
                } else {
                    assert(h[z] == (e.span, pairs));
                    if p.0 < i && p.1 < ms[p.0 as int].locations && ms[p.0 as int].span == h[z].0 {
                        assert(t[p.0 as int] == ms[p.0 as int]);
                        let w = choose|w: int| 0 <= w < g.len() && g[w].0 == t[p.0 as int].span;
                    }
                }
            }
            assert forall|j: int| #![trigger ms[j]] 0 <= j < ms.len() implies exists|z: int|
                0 <= z < h.len() && #[trigger] h[z].0 == ms[j].span by {
                if j < i {
                    assert(t[j] == ms[j]);
                    let z = choose|z: int| 0 <= z < g.len() && g[z].0 == t[j].span;
                    assert(h[z].0 == ms[j].span);
                } else {
                    assert(h[g.len() as int].0 == ms[j].span);
                }
            }
        }
    }
}

/// The last MIR span either joins the first group with its span or opens a new
/// group at the end; the groups before it are those of the shorter list.
proof fn lemma_span_groups_step(ms: Seq<MirSpanEntry>)
    requires
        0 < ms.len() <= usize::MAX,
    ensures
        ({
            let g = span_groups(ms.drop_last());
            let e = ms.last();
            let pairs = span_pairs(ms.len() - 1, e.locations as nat);
            ||| exists|x0: int|
                first_with_key(g, e.span, x0) && span_groups(ms) == g.update(
                    x0,
                    (e.span, g[x0].1 + pairs),
                )
            ||| (forall|z: int| 0 <= z < g.len() ==> g[z].0 != e.span) && span_groups(ms)
                == g.push((e.span, pairs))
        }),
{
    let g = span_groups(ms.drop_last());
    let e = ms.last();
    lemma_span_groups(ms.drop_last());
    if !(exists|x: int| first_with_key(g, e.span, x)) {
        assert forall|z: int| 0 <= z < g.len() implies g[z].0 != e.span by {
            if g[z].0 == e.span {
                assert(first_with_key(g, e.span, z));
            }
        }
    }
}

proof fn lemma_group_spans_occur(ms: Seq<MirSpanEntry>)
    requires
        ms.len() <= usize::MAX,
    ensures
        forall|x: int|
            0 <= x < span_groups(ms).len() ==> exists|i: int|
                0 <= i < ms.len() && #[trigger] ms[i].span == #[trigger] span_groups(ms)[x].0,
    decreases ms.len(),
{
    if ms.len() > 0 {
        let t = ms.drop_last();
        lemma_group_spans_occur(t);
        lemma_span_groups_step(ms);
        let g = span_groups(t);
        let h = span_groups(ms);
        let i = ms.len() - 1;
        assert forall|x: int| 0 <= x < h.len() implies exists|i1: int|
            0 <= i1 < ms.len() && #[trigger] ms[i1].span == #[trigger] h[x].0 by {
            if x < g.len() && h[x].0 == g[x].0 {
                let i1 = choose|i1: int| 0 <= i1 < t.len() && #[trigger] t[i1].span == g[x].0;
                assert(ms[i1] == t[i1]);
            } else {
                assert(ms[i].span == h[x].0);
            }
        }
    }
}

proof fn lemma_group_members_ascend(ms: Seq<MirSpanEntry>)
    requires
        ms.len() <= usize::MAX,
    ensures
        forall|x: int, a: int, b: int|
            0 <= x < span_groups(ms).len() && 0 <= a < b < span_groups(ms)[x].1.len() ==> pair_before(
                #[trigger] span_groups(ms)[x].1[a],
                #[trigger] span_groups(ms)[x].1[b],
            ),
    decreases ms.len(),
{
    if ms.len() > 0 {
        let t = ms.drop_last();
        lemma_group_members_ascend(t);
        lemma_span_groups(t);
        lemma_span_groups_step(ms);
        let g = span_groups(t);
        let h = span_groups(ms);
        let i = ms.len() - 1;
        let pairs = span_pairs(i, ms.last().locations as nat);
        assert forall|x: int, a: int, b: int|
            0 <= x < h.len() && 0 <= a < b < h[x].1.len() implies pair_before(
            #[trigger] h[x].1[a],
            #[trigger] h[x].1[b],
        ) by {
            if x < g.len() && h[x] == g[x] {
            } else if x < g.len() {
                let old = g[x].1;
                assert(h[x].1 == old + pairs);
                if b < old.len() {
                    assert(h[x].1[a] == old[a] && h[x].1[b] == old[b]);
                } else if a < old.len() {
                    assert(h[x].1[a] == old[a]);
                    assert(old.contains(old[a]));
                    assert(h[x].1[b] == pairs[b - old.len()]);
                } else {
                    assert(h[x].1[a] == pairs[a - old.len()]);
                    assert(h[x].1[b] == pairs[b - old.len()]);
                }
            } else {
                assert(h[x].1 == pairs);
            }
        }
    }
}

proof fn lemma_group_order_at(ms: Seq<MirSpanEntry>, x: int, y: int, i1: int)
    requires
        ms.len() <= usize::MAX,
        0 <= x < y < span_groups(ms).len(),
        0 <= i1 < ms.len(),
        ms[i1].span == span_groups(ms)[y].0,
    ensures
        exists|i2: int| 0 <= i2 < i1 && #[trigger] ms[i2].span == span_groups(ms)[x].0,
    decreases ms.len(),
{
    let t = ms.drop_last();
    let g = span_groups(t);
    let h = span_groups(ms);
    let i = ms.len() - 1;
    let e = ms.last();
    lemma_span_groups_step(ms);
    assert(h.len() >= g.len());
    assert(h[x].0 == g[x].0);
    if y < g.len() {
        assert(h[y].0 == g[y].0);
        if i1 < i {
            assert(t[i1] == ms[i1]);
            lemma_group_order_at(t, x, y, i1);
            let i2 = choose|i2: int| 0 <= i2 < i1 && #[trigger] t[i2].span == g[x].0;
            assert(ms[i2] == t[i2]);
        } else {
            lemma_group_spans_occur(t);
            let i0 = choose|i0: int| 0 <= i0 < t.len() && #[trigger] t[i0].span == #[trigger] g[y].0;
            lemma_group_order_at(t, x, y, i0);
            let i2 = choose|i2: int| 0 <= i2 < i0 && #[trigger] t[i2].span == g[x].0;
            assert(ms[i2] == t[i2]);
        }
    } else {
        assert(h[y].0 == e.span);
        assert(h == g.push((e.span, span_pairs(i, e.locations as nat))));
        if i1 < i {
            lemma_span_groups(t);
            assert(t[i1] == ms[i1]);
            let z = choose|z: int| 0 <= z < g.len() && #[trigger] g[z].0 == #[trigger] t[i1].span;
            assert(g[z].0 == e.span);
        }
        lemma_group_spans_occur(t);
        let i2 = choose|i2: int| 0 <= i2 < t.len() && #[trigger] t[i2].span == #[trigger] g[x].0;
        assert(ms[i2] == t[i2]);
    }
}

proof fn lemma_groups_in_first_occurrence_order(ms: Seq<MirSpanEntry>)
    requires
        ms.len() <= usize::MAX,
    ensures
        forall|x: int, y: int, i: int|
            #![trigger span_groups(ms)[x], span_groups(ms)[y], ms[i]]
            0 <= x < y < span_groups(ms).len() && 0 <= i < ms.len() && ms[i].span == span_groups(
                ms,
            )[y].0 ==> exists|i2: int| 0 <= i2 < i && #[trigger] ms[i2].span == span_groups(ms)[x].0,
{
    assert forall|x: int, y: int, i: int|
        #![trigger span_groups(ms)[x], span_groups(ms)[y], ms[i]]
        0 <= x < y < span_groups(ms).len() && 0 <= i < ms.len() && ms[i].span == span_groups(
            ms,
        )[y].0 implies exists|i2: int| 0 <= i2 < i && #[trigger] ms[i2].span == span_groups(
        ms,
    )[x].0 by {
        lemma_group_order_at(ms, x, y, i);
    }
}

/// Grouping by span keeps order: every group's span comes from some MIR span,
/// the groups stand in the order in which their spans first occur, and each
/// group's pairs ascend by MIR span and then by location.
pub proof fn lemma_span_groups_order(ms: Seq<MirSpanEntry>)
    requires
        ms.len() <= usize::MAX,
    ensures
        forall|x: int|
            0 <= x < span_groups(ms).len() ==> exists|i: int|
                0 <= i < ms.len() && #[trigger] ms[i].span == #[trigger] span_groups(ms)[x].0,
        forall|x: int, y: int, i: int|
            #![trigger span_groups(ms)[x], span_groups(ms)[y], ms[i]]
            0 <= x < y < span_groups(ms).len() && 0 <= i < ms.len() && ms[i].span == span_groups(
                ms,
            )[y].0 ==> exists|i2: int| 0 <= i2 < i && #[trigger] ms[i2].span == span_groups(ms)[x].0,
        forall|x: int, a: int, b: int|
            0 <= x < span_groups(ms).len() && 0 <= a < b < span_groups(ms)[x].1.len() ==> pair_before(
                #[trigger] span_groups(ms)[x].1[a],
                #[trigger] span_groups(ms)[x].1[b],
            ),
{
    lemma_group_spans_occur(ms);
    lemma_groups_in_first_occurrence_order(ms);
    lemma_group_members_ascend(ms);
}

/// A focus entry as values: the place and its slice.
pub open spec fn entry_view(e: FocusEntry) -> (SpanSpec, Seq<SpanSpec>) {
    (e.range@, spans_view(e.slice@))
}

/// The entries made from the first `n` places and slices: a place whose span was
/// converted keeps its converted slice; one that was not is dropped.
pub open spec fn focus_entries(
    ranges: Seq<Option<OwnedSpan>>,
    slices: Seq<Seq<Option<OwnedSpan>>>,
    n: nat,
) -> Seq<(SpanSpec, Seq<SpanSpec>)>
    decreases n,
{
    if n == 0 {
        Seq::empty()
    } else {
        let before = focus_entries(ranges, slices, (n - 1) as nat);
        match ranges[n - 1] {
            Some(r) => before.push((r@, spans_view(converted(slices[n - 1])))),
            None => before,
        }
    }
}

/// The values of groups of optional spans.
pub open spec fn slices_view(v: Seq<Vec<Option<OwnedSpan>>>) -> Seq<Seq<Option<OwnedSpan>>> {
    v.map_values(|g: Vec<Option<OwnedSpan>>| g@)
}

/// Focus mode keeps every place that was converted, in order, each with the
/// whole converted slice of its group, and nothing else: of the first `n` places
/// there are as many entries as places that hold a span; the place at position
/// `k` becomes the entry after those of the places before it, and its slice holds
/// every converted span of group `k`, as many as that group holds.
pub proof fn lemma_focus_keeps_every_place(
    ranges: Seq<Option<OwnedSpan>>,
    slices: Seq<Vec<Option<OwnedSpan>>>,
    n: nat,
)
    requires
        n <= ranges.len(),
        n <= slices.len(),
    ensures
        focus_entries(ranges, slices_view(slices), n).len() == count_some(ranges.take(n as int)),
        forall|k: int|
            #![trigger ranges[k]]
            0 <= k < n && ranges[k] is Some ==> count_some(ranges.take(k)) < count_some(
                ranges.take(n as int),
            ) && focus_entries(ranges, slices_view(slices), n)[count_some(ranges.take(k)) as int].0
                == (ranges[k]->0)@ && focus_entries(ranges, slices_view(slices), n)[count_some(
                ranges.take(k),
            ) as int].1 == spans_view(converted(slices[k]@)) && focus_entries(
                ranges,
                slices_view(slices),
                n,
            )[count_some(ranges.take(k)) as int].1.len() == count_some(slices[k]@),
    decreases n,
{
    if n > 0 {
        let m = (n - 1) as nat;
        lemma_focus_keeps_every_place(ranges, slices, m);
        let before = focus_entries(ranges, slices_view(slices), m);
        let after = focus_entries(ranges, slices_view(slices), n);
        assert(ranges.take(n as int).drop_last() =~= ranges.take(m as int));
        assert(ranges.take(n as int).last() == ranges[m as int]);
        assert(slices_view(slices)[m as int] == slices[m as int]@);
        lemma_converted_keeps_each(slices[m as int]@);
        assert forall|k: int|
            #![trigger ranges[k]]
            0 <= k < n && ranges[k] is Some implies count_some(ranges.take(k)) < count_some(
                ranges.take(n as int),
            ) && after[count_some(ranges.take(k)) as int].0 == (ranges[k]->0)@ && after[count_some(
                ranges.take(k),
            ) as int].1 == spans_view(converted(slices[k]@)) && after[count_some(ranges.take(k))
                as int].1.len() == count_some(slices[k]@) by {
            if k < m {
                lemma_converted_keeps_each(slices[k]@);
            } else {
                assert(ranges.take(k) =~= ranges.take(m as int));
            }
        }
    }
}

/// The number of places and slices that are paired: as many as the shorter list holds.
pub open spec fn paired(a: nat, b: nat) -> nat {
    if a <= b {
        a
    } else {
        b
    }
}

/// Pairs every group's place with its slice, as far as both lists reach, and keeps
/// the entries whose place was converted.
pub fn assemble_focus(ranges: Vec<Option<OwnedSpan>>, slices: Vec<Vec<Option<OwnedSpan>>>) -> (r:
    FocusOutput)
    ensures
        r.entries@.map_values(|e: FocusEntry| entry_view(e)) == focus_entries(
            ranges@,
            slices_view(slices@),
            if ranges@.len() <= slices@.len() {
                ranges@.len()
            } else {
                slices@.len()
            },
        ),
        r.entries@.len() == count_some(ranges@.take(paired(ranges@.len(), slices@.len()) as int)),
        forall|k: int|
            #![trigger ranges@[k]]
            0 <= k < paired(ranges@.len(), slices@.len()) && ranges@[k] is Some ==> r.entries@[count_some(
                ranges@.take(k),
            ) as int].range@ == (ranges@[k]->0)@ && spans_view(
                r.entries@[count_some(ranges@.take(k)) as int].slice@,
            ) == spans_view(converted(slices@[k]@)) && r.entries@[count_some(ranges@.take(k))
                as int].slice@.len() == count_some(slices@[k]@),
{
    proof {
        lemma_focus_keeps_every_place(ranges@, slices@, paired(ranges@.len(), slices@.len()));
    }
    let n = if ranges.len() <= slices.len() {
        ranges.len()
    } else {
        slices.len()
    };
    let ghost r0 = ranges@;
    let ghost s0 = slices_view(slices@);
    let ghost slices_all = slices@;
    let mut ranges = ranges;
    let mut slices = slices;
    let mut entries: Vec<FocusEntry> = Vec::new();
    let mut k: usize = 0;
    while k < n
        invariant
            k <= n,
            n <= r0.len(),
            n <= s0.len(),
            ranges@ == r0.skip(k as int),
            slices_view(slices@) == s0.skip(k as int),
            entries@.map_values(|e: FocusEntry| entry_view(e)) == focus_entries(r0, s0, k as nat),
        decreases n - k,
    {
        let ghost before_r = ranges@;
        let ghost before_s = slices@;
        assert(slices_view(slices@).len() == slices@.len());
        let range = ranges.remove(0);
        let slice = slices.remove(0);
        assert(ranges@ =~= r0.skip(k + 1));
        assert(slices_view(slices@) =~= s0.skip(k + 1)) by {
            assert(slices_view(before_s).drop_first() =~= slices_view(slices@));
        }
        assert(range == r0[k as int]);
        assert(slice@ == s0[k as int]) by {
            assert(slices_view(before_s)[0] == s0.skip(k as int)[0]);
        }
        let ghost old_entries = entries@;
        match range {
            Some(place) => {
                let kept = keep_converted(slice);
                entries.push(FocusEntry { range: place, slice: kept });
                assert(entries@.map_values(|e: FocusEntry| entry_view(e)) =~= old_entries.map_values(
                    |e: FocusEntry| entry_view(e),
                ).push(entry_view(FocusEntry { range: place, slice: kept })));
            },
            None => {},
        }
        k = k + 1;
    }
    proof {
        let ev = entries@.map_values(|e: FocusEntry| entry_view(e));
        assert(ev.len() == entries@.len());
        assert forall|k: int|
            #![trigger r0[k]]
            0 <= k < n && r0[k] is Some implies entries@[count_some(r0.take(k)) as int].range@
                == (r0[k]->0)@ && spans_view(entries@[count_some(r0.take(k)) as int].slice@)
                == spans_view(converted(slices_all[k]@)) && entries@[count_some(r0.take(k))
                as int].slice@.len() == count_some(slices_all[k]@) by {
            assert(ev[count_some(r0.take(k)) as int] == entry_view(
                entries@[count_some(r0.take(k)) as int],
            ));
        }
    }
    FocusOutput { entries }
}

} // verus!
