//! Candidates for collapsing: spans of a document, and what is kept of them.

use crate::text::{is_range_of, is_text_range};
use std::ops::Range;
use vstd::prelude::*;

verus! {

/// A span of the document that may be collapsed, and what is kept of it then.
#[derive(Debug)]
pub struct Match {
    pub collapse: Range<usize>,
    pub keep: Vec<Range<usize>>,
}

/// A range that is inverted, leaves the document or splits a character.
#[derive(Debug, Clone, Copy, PartialEq, Eq, Structural)]
pub struct InvalidRange;

/// `range` delimits a slice of `text`.
pub open spec fn range_ok(text: Seq<char>, range: Range<usize>) -> bool {
    is_text_range(text, range.start as int, range.end as int)
}

/// The collapse range of `m` and each of its keep ranges delimit slices of `text`.
pub open spec fn match_ok(text: Seq<char>, m: Match) -> bool {
    &&& range_ok(text, m.collapse)
    &&& forall|k: int| 0 <= k < m.keep@.len() ==> range_ok(text, #[trigger] m.keep@[k])
}

/// Each candidate is well-formed for `text`.
pub open spec fn matches_ok(text: Seq<char>, ms: Seq<Match>) -> bool {
    forall|i: int| 0 <= i < ms.len() ==> match_ok(text, #[trigger] ms[i])
}

/// `a` may stand before `b`: it starts earlier, or starts with it and ends no
/// earlier.
pub open spec fn precedes(a: Match, b: Match) -> bool {
    a.collapse.start < b.collapse.start || (a.collapse.start == b.collapse.start
        && a.collapse.end >= b.collapse.end)
}

/// The collapse range of `inner` lies within that of `outer`.
pub open spec fn encloses(outer: Match, inner: Match) -> bool {
    outer.collapse.start <= inner.collapse.start && outer.collapse.end >= inner.collapse.end
}

/// Whether each range of `m` delimits a slice of `text`.
pub fn check_match(text: &str, m: &Match) -> (ok: bool)
    ensures
        ok == match_ok(text@, *m),
{
    if !is_range_of(text, m.collapse.start, m.collapse.end) {
        return false;
    }
    let mut k: usize = 0;
    while k < m.keep.len()
        invariant
            k <= m.keep@.len(),
            forall|j: int| 0 <= j < k ==> range_ok(text@, #[trigger] m.keep@[j]),
        decreases m.keep@.len() - k,
    {
        if !is_range_of(text, m.keep[k].start, m.keep[k].end) {
            return false;
        }
        k += 1;
    }
    true
}

/// Whether each range of each candidate delimits a slice of `text`.
pub fn check_matches(text: &str, matches: &Vec<Match>) -> (ok: bool)
    ensures
        ok == matches_ok(text@, matches@),
{
    let mut i: usize = 0;
    while i < matches.len()
        invariant
            i <= matches@.len(),
            forall|j: int| 0 <= j < i ==> match_ok(text@, #[trigger] matches@[j]),
        decreases matches@.len() - i,
    {
        if !check_match(text, &matches[i]) {
            return false;
        }
        i += 1;
    }
    true
}

} // verus!
