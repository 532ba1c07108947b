//! What drawing gives: the bytes a renderer appends, the renderer it
//! leaves, and its result, for one visit and for a run of visits.
use crate::view::FrameWriter;
use crate::walk::Visit;
use vstd::prelude::*;

verus! {

/// The outcome of drawing: the bytes appended to the writer, the renderer
/// as it is left, and the result returned.
pub struct Drawn<R> {
    pub bytes: Seq<u8>,
    pub next: R,
    pub result: Result<(), std::io::Error>,
}

/// Whether a call that found renderer `before` and writer `target`, left
/// them as `after` and `written`, and returned `result`, gave `drawn`.
pub open spec fn gives<R>(
    before: R,
    target: FrameWriter,
    after: R,
    written: FrameWriter,
    result: Result<(), std::io::Error>,
    drawn: Drawn<R>,
) -> bool {
    &&& after == drawn.next
    &&& written.bytes() == target.bytes() + drawn.bytes
    &&& result == drawn.result
}

/// Nothing drawn: no bytes, the renderer as it is, success.
pub open spec fn nothing<R>(r: R) -> Drawn<R> {
    Drawn { bytes: Seq::empty(), next: r, result: Ok(()) }
}

/// One outcome followed by another: the bytes of both, and the renderer
/// and result of the second.
pub open spec fn joined<R>(first: Drawn<R>, second: Drawn<R>) -> Drawn<R> {
    Drawn { bytes: first.bytes + second.bytes, next: second.next, result: second.result }
}

/// The outcome of drawing `visits` in order, each with the renderer that
/// the one before left, up to and including the first that fails.
pub open spec fn walk<R>(step: spec_fn(R, Visit) -> Drawn<R>, r: R, visits: Seq<Visit>) -> Drawn<R>
    decreases visits.len(),
{
    if visits.len() == 0 {
        nothing(r)
    } else {
        let head = walk(step, r, visits.drop_last());
        if head.result.is_err() {
            head
        } else {
            joined(head, step(head.next, visits.last()))
        }
    }
}

/// A result without failure is the one success there is.
pub proof fn lemma_ok(result: Result<(), std::io::Error>)
    requires
        result.is_ok(),
    ensures
        result == Ok::<(), std::io::Error>(()),
{
    let u = result.unwrap();
    assert(u == ());
    assert(result == Ok::<(), std::io::Error>(u));
}

/// Once a visit has failed, no later visit is drawn.
pub proof fn lemma_walk_stops<R>(
    step: spec_fn(R, Visit) -> Drawn<R>,
    r: R,
    a: Seq<Visit>,
    b: Seq<Visit>,
)
    requires
        walk(step, r, a).result.is_err(),
    ensures
        walk(step, r, a + b) == walk(step, r, a),
    decreases b.len(),
{
    if b.len() == 0 {
        assert(a + b =~= a);
    } else {
        assert((a + b).drop_last() =~= a + b.drop_last());
        lemma_walk_stops(step, r, a, b.drop_last());
    }
}

/// Drawing two runs of visits one after the other is drawing the first,
/// and, where it succeeds, the second with the renderer that it left.
pub proof fn lemma_walk_joined<R>(
    step: spec_fn(R, Visit) -> Drawn<R>,
    r: R,
    a: Seq<Visit>,
    b: Seq<Visit>,
)
    requires
        walk(step, r, a).result.is_ok(),
    ensures
        walk(step, r, a + b) == joined(walk(step, r, a), walk(step, walk(step, r, a).next, b)),
    decreases b.len(),
{
    let first = walk(step, r, a);
    if b.len() == 0 {
        assert(a + b =~= a);
        assert(first.bytes + Seq::<u8>::empty() =~= first.bytes);
        lemma_ok(first.result);
        assert(walk(step, first.next, b) == nothing(first.next));
    } else {
        assert((a + b).drop_last() =~= a + b.drop_last());
        assert((a + b).last() == b.last());
        lemma_walk_joined(step, r, a, b.drop_last());
        let rest = walk(step, first.next, b.drop_last());
        assert(walk(step, r, a + b.drop_last()) == joined(first, rest));
        if rest.result.is_ok() {
            let last = step(rest.next, b.last());
            assert((first.bytes + rest.bytes) + last.bytes =~= first.bytes + (rest.bytes
                + last.bytes));
            assert(walk(step, first.next, b) == joined(rest, last));
            assert(walk(step, r, a + b) == joined(joined(first, rest), last));
        } else {
            assert(walk(step, first.next, b) == rest);
        }
    }
}

/// Where no visit draws anything, a run of visits draws nothing: no bytes,
/// no failure, and the renderer is left as it was.
pub proof fn lemma_walk_silent<R>(step: spec_fn(R, Visit) -> Drawn<R>, r: R, visits: Seq<Visit>)
    requires
        forall|s: R, v: Visit| #[trigger] step(s, v) == nothing(s),
    ensures
        walk(step, r, visits) == nothing(r),
    decreases visits.len(),
{
    if visits.len() > 0 {
        lemma_walk_silent(step, r, visits.drop_last());
        let last = step(r, visits.last());
        assert(last == nothing(r));
        assert(Seq::<u8>::empty() + last.bytes =~= Seq::<u8>::empty());
    }
}

} // verus!
