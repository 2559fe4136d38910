//! Candidates nested in other candidates leave no trace in an outline.

use crate::candidate::{encloses, precedes, Match};
use crate::ordering::{
    lemma_ordered_elements,
    lemma_ordered_sorted,
    lemma_ordered_without,
    ordered,
    sorted,
};
use crate::outline::{outline, survivors};
use std::ops::Range;
use vstd::prelude::*;

verus! {

/// Among sorted candidates, the last one left ends no earlier than any
/// candidate dealt with, and it is one of them.
pub proof fn lemma_last_survivor(s: Seq<Match>, n: int) -> (at: int)
    requires
        sorted(s),
        1 <= n <= s.len(),
    ensures
        0 <= at < n,
        survivors(s.take(n)).len() > 0,
        survivors(s.take(n)).last() == s[at],
        forall|i: int| 0 <= i < n ==> s[at].collapse.end >= (#[trigger] s[i]).collapse.end,
    decreases n,
{
    let upto = s.take(n);
    assert(upto.drop_last() == s.take(n - 1));
    assert(upto.last() == s[n - 1]);
    if n == 1 {
        assert(survivors(s.take(0)).len() == 0);
        0
    } else {
        let before = lemma_last_survivor(s, n - 1);
        if encloses(s[before], s[n - 1]) {
            before
        } else {
            assert(precedes(s[before], s[n - 1]));
            n - 1
        }
    }
}

/// Among sorted candidates, one that an earlier candidate encloses is dropped:
/// the candidates left are the same with it and without it.
pub proof fn lemma_enclosed_is_dropped(s: Seq<Match>, q: int, pos: int, n: int)
    requires
        sorted(s),
        0 <= q < pos < n <= s.len(),
        encloses(s[q], s[pos]),
    ensures
        survivors(s.take(n)) == survivors(s.remove(pos).take(n - 1)),
    decreases n,
{
    let upto = s.take(n);
    assert(upto.drop_last() == s.take(n - 1));
    assert(upto.last() == s[n - 1]);
    if n == pos + 1 {
        let at = lemma_last_survivor(s, pos);
        assert(precedes(s[at], s[pos]));
        assert(s[at].collapse.end >= s[q].collapse.end);
        assert(s.remove(pos).take(pos) == s.take(pos));
    } else {
        lemma_enclosed_is_dropped(s, q, pos, n - 1);
        let other = s.remove(pos).take(n - 1);
        assert(other.drop_last() == s.remove(pos).take(n - 2));
        assert(other.last() == s[n - 1]);
    }
}

/// A candidate nested in another one changes nothing: the outline is the same
/// with it and without it.
///
/// Of two candidates with the same collapse range the one given first stays, so
/// the statement is about a nested candidate that has a range of its own or is
/// given behind the one that encloses it.
pub proof fn lemma_nested_candidate_is_idle(
    text: Seq<char>,
    ms: Seq<Match>,
    selection: Range<usize>,
    a: int,
    b: int,
)
    requires
        0 <= a < ms.len(),
        0 <= b < ms.len(),
        a != b,
        encloses(ms[a], ms[b]),
        a < b || ms[a].collapse.start != ms[b].collapse.start || ms[a].collapse.end
            != ms[b].collapse.end,
    ensures
        survivors(ordered(ms.remove(b))) == survivors(ordered(ms)),
        outline(text, ms.remove(b), selection) == outline(text, ms, selection),
{
    let s = ordered(ms);
    let pos = lemma_ordered_without(ms, b);
    lemma_ordered_sorted(ms);
    lemma_ordered_elements(ms);
    let q = if a < b {
        assert(precedes(ms[a], ms[b]));
        choose|q: int| 0 <= q < pos && #[trigger] s[q] == ms[a]
    } else {
        assert(ms.contains(ms[a]));
        assert(s.contains(ms[a]));
        let q = choose|q: int| 0 <= q < s.len() && s[q] == ms[a];
        if q > pos {
            assert(precedes(s[pos], s[q]));
        }
        q
    };
    lemma_enclosed_is_dropped(s, q, pos, s.len() as int);
    assert(s.take(s.len() as int) == s);
    assert(s.remove(pos).take(s.len() - 1) == s.remove(pos));
}

} // verus!
