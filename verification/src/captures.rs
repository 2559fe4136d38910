//! Candidates from the captures of a syntax query.
//!
//! A query marks, in each of its matches, the span that may be collapsed and
//! the spans that are kept of it. Each capture carries the index of the mark it
//! answers to.

use crate::candidate::Match;
use std::ops::Range;
use vstd::prelude::*;

verus! {

/// A span that a query has captured, and the index of the mark it answers to.
#[derive(Debug)]
pub struct Capture {
    pub index: u32,
    pub range: Range<usize>,
}

/// The capture answers to the mark `ix`. No capture answers to a mark that the
/// query does not have.
pub open spec fn answers_to(capture: Capture, ix: Option<u32>) -> bool {
    ix == Some(capture.index)
}

/// The spans of the captures that answer to the mark `ix`, in their order.
pub open spec fn ranges_of(captures: Seq<Capture>, ix: Option<u32>) -> Seq<Range<usize>>
    decreases captures.len(),
{
    if captures.len() == 0 {
        Seq::empty()
    } else if answers_to(captures.last(), ix) {
        ranges_of(captures.drop_last(), ix).push(captures.last().range)
    } else {
        ranges_of(captures.drop_last(), ix)
    }
}

/// Whether the capture answers to the mark `ix`.
fn is_answer(capture: &Capture, ix: Option<u32>) -> (yes: bool)
    ensures
        yes == answers_to(*capture, ix),
{
    match ix {
        Some(ix) => capture.index == ix,
        None => false,
    }
}

/// The candidate that the captures of one match describe: it collapses the
/// span of the first capture that answers to the collapse mark, and keeps the
/// spans of all captures that answer to the keep mark. Captures without an
/// answer to the collapse mark describe no candidate.
pub fn match_from_captures(
    captures: &Vec<Capture>,
    collapse_capture_ix: Option<u32>,
    keep_capture_ix: Option<u32>,
) -> (candidate: Option<Match>)
    ensures
        candidate is None <==> forall|i: int|
            0 <= i < captures@.len() ==> !answers_to(#[trigger] captures@[i], collapse_capture_ix),
        candidate matches Some(m) ==> {
            &&& exists|i: int|
                {
                    &&& 0 <= i < captures@.len()
                    &&& answers_to(#[trigger] captures@[i], collapse_capture_ix)
                    &&& m.collapse == captures@[i].range
                    &&& forall|j: int|
                        0 <= j < i ==> !answers_to(#[trigger] captures@[j], collapse_capture_ix)
                }
            &&& m.keep@ == ranges_of(captures@, keep_capture_ix)
        },
{
    let mut first: usize = 0;
    while first < captures.len() && !is_answer(&captures[first], collapse_capture_ix)
        invariant
            first <= captures@.len(),
            forall|j: int|
                0 <= j < first ==> !answers_to(#[trigger] captures@[j], collapse_capture_ix),
        decreases captures@.len() - first,
    {
        first += 1;
    }
    if first == captures.len() {
        return None;
    }
    let collapse = captures[first].range.start..captures[first].range.end;
    let mut keep: Vec<Range<usize>> = Vec::new();
    let mut k: usize = 0;
    proof {
        assert(captures@.take(0) == Seq::<Capture>::empty());
    }
    while k < captures.len()
        invariant
            k <= captures@.len(),
            keep@ == ranges_of(captures@.take(k as int), keep_capture_ix),
        decreases captures@.len() - k,
    {
        proof {
            let upto = captures@.take(k + 1);
            assert(upto.drop_last() == captures@.take(k as int));
            assert(upto.last() == captures@[k as int]);
        }
        if is_answer(&captures[k], keep_capture_ix) {
            keep.push(captures[k].range.start..captures[k].range.end);
        }
        k += 1;
    }
    proof {
        assert(captures@.take(k as int) == captures@);
    }
    Some(Match { collapse, keep })
}

} // verus!
