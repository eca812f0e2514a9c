//! Listing the analysable function-body spans of a file.

use vstd::prelude::*;

use crate::output::{
    converted, count_some, keep_converted, lemma_converted_keeps_each, OwnedSpan, SpansOutput,
};

verus! {

/// A function body of the compiled crate: whether it lies in the requested
/// file, and its span when that could be converted.
pub struct BodySpan {
    pub in_file: bool,
    pub span: Option<OwnedSpan>,
}

/// The candidate spans of the bodies: a body outside the file counts as not converted.
pub open spec fn in_file_spans(bodies: Seq<BodySpan>) -> Seq<Option<OwnedSpan>> {
    bodies.map_values(
        |b: BodySpan|
            if b.in_file {
                b.span
            } else {
                None
            },
    )
}

/// Whether a body is listed: it lies in the file and its span was converted.
pub open spec fn is_listed(b: BodySpan) -> bool {
    b.in_file && b.span is Some
}

/// How many bodies are listed.
pub open spec fn count_listed(bodies: Seq<BodySpan>) -> nat
    decreases bodies.len(),
{
    if bodies.len() == 0 {
        0
    } else {
        count_listed(bodies.drop_last()) + if is_listed(bodies.last()) {
            1nat
        } else {
            0nat
        }
    }
}

proof fn lemma_count_listed(bodies: Seq<BodySpan>)
    ensures
        count_some(in_file_spans(bodies)) == count_listed(bodies),
    decreases bodies.len(),
{
    if bodies.len() > 0 {
        let t = bodies.drop_last();
        lemma_count_listed(t);
        assert(in_file_spans(bodies).drop_last() =~= in_file_spans(t));
    }
}

/// The listing keeps the span of every body that lies in the file and was
/// converted, whole (its file, positions and source text) and in order, and
/// nothing else: there are as many spans as such bodies, and the body at
/// position `j` gives the span after those of the listed bodies before it.
pub proof fn lemma_spans_keep_every_body(bodies: Seq<BodySpan>)
    ensures
        converted(in_file_spans(bodies)).len() == count_listed(bodies),
        forall|j: int|
            #![trigger bodies[j]]
            0 <= j < bodies.len() && is_listed(bodies[j]) ==> count_listed(bodies.take(j))
                < count_listed(bodies) && converted(in_file_spans(bodies))[count_listed(
                bodies.take(j),
            ) as int] == bodies[j].span->0,
{
    let s = in_file_spans(bodies);
    lemma_converted_keeps_each(s);
    lemma_count_listed(bodies);
    assert forall|j: int|
        #![trigger bodies[j]]
        0 <= j < bodies.len() && is_listed(bodies[j]) implies count_listed(bodies.take(j))
            < count_listed(bodies) && converted(s)[count_listed(bodies.take(j)) as int]
            == bodies[j].span->0 by {
        assert(s.take(j) =~= in_file_spans(bodies.take(j)));
        lemma_count_listed(bodies.take(j));
        assert(s[j] == bodies[j].span);
    }
}

/// The spans of the bodies that lie in the file and were converted, in order.
pub fn collect_spans(bodies: Vec<BodySpan>) -> (r: SpansOutput)
    ensures
        r.spans@ == converted(in_file_spans(bodies@)),
        r.spans@.len() == count_listed(bodies@),
        forall|j: int|
            #![trigger bodies@[j]]
            0 <= j < bodies@.len() && is_listed(bodies@[j]) ==> r.spans@[count_listed(
                bodies@.take(j),
            ) as int] == bodies@[j].span->0,
{
    proof {
        lemma_spans_keep_every_body(bodies@);
    }
    let ghost b0 = bodies@;
    let mut bodies = bodies;
    let mut candidates: Vec<Option<OwnedSpan>> = Vec::new();
    while bodies.len() > 0
        invariant
            b0.len() == candidates@.len() + bodies@.len(),
            bodies@ == b0.skip(candidates@.len() as int),
            candidates@ == in_file_spans(b0.take(candidates@.len() as int)),
        decreases bodies.len(),
    {
        let ghost k = candidates@.len() as int;
        let b = bodies.remove(0);
        assert(b == b0[k]);
        assert(bodies@ =~= b0.skip(k + 1));
        let c = if b.in_file {
            b.span
        } else {
            None
        };
        candidates.push(c);
        assert(candidates@ =~= in_file_spans(b0.take(k + 1)));
    }
    assert(b0.take(b0.len() as int) =~= b0);
    SpansOutput { spans: keep_converted(candidates) }
}

/// The message when the requested file is not part of the compiled crate.
pub open spec fn missing_file_text(filename: Seq<char>) -> Seq<char> {
    "file not found in the compiled crate: "@ + filename
        + "\nhint: make sure the path matches what Cargo uses"@
}

/// The message when the requested file is not part of the compiled crate.
pub fn missing_file_message(filename: &str) -> (s: String)
    ensures
        s@ == missing_file_text(filename@),
{
    let mut s = "file not found in the compiled crate: ".to_owned();
    s.append(filename);
    s.append("\nhint: make sure the path matches what Cargo uses");
    s
}

} // verus!
