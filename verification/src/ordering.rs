//! The order in which candidates are scanned: by ascending start, and among
//! candidates that start together the longer one first.

use crate::candidate::{precedes, Match};
use vstd::prelude::*;

verus! {

/// `m` placed into `s` behind the last element that may stand before it.
pub open spec fn insert_ordered(s: Seq<Match>, m: Match) -> Seq<Match>
    decreases s.len(),
{
    if s.len() == 0 {
        seq![m]
    } else if precedes(s.last(), m) {
        s.push(m)
    } else {
        insert_ordered(s.drop_last(), m).push(s.last())
    }
}

/// The candidates by ascending start and, among equal starts, descending end;
/// candidates with the same collapse range stay in the order given.
pub open spec fn ordered(ms: Seq<Match>) -> Seq<Match>
    decreases ms.len(),
{
    if ms.len() == 0 {
        Seq::empty()
    } else {
        insert_ordered(ordered(ms.drop_last()), ms.last())
    }
}

/// Each candidate may stand before all that follow it.
pub open spec fn sorted(s: Seq<Match>) -> bool {
    forall|i: int, j: int| 0 <= i < j < s.len() ==> precedes(#[trigger] s[i], #[trigger] s[j])
}

/// `p` is where `m` belongs in `s`: behind a candidate that may stand before
/// it, and before all that may not.
pub open spec fn belongs_at(s: Seq<Match>, m: Match, p: int) -> bool {
    &&& 0 <= p <= s.len()
    &&& p == 0 || precedes(s[p - 1], m)
    &&& forall|k: int| p <= k < s.len() ==> !precedes(#[trigger] s[k], m)
}

/// Every candidate has a place where it belongs.
pub proof fn lemma_place_exists(s: Seq<Match>, m: Match) -> (p: int)
    ensures
        belongs_at(s, m, p),
    decreases s.len(),
{
    if s.len() == 0 {
        0
    } else if precedes(s.last(), m) {
        s.len() as int
    } else {
        let p = lemma_place_exists(s.drop_last(), m);
        assert forall|k: int| p <= k < s.len() implies !precedes(#[trigger] s[k], m) by {
            if k < s.len() - 1 {
                assert(s.drop_last()[k] == s[k]);
            }
        }
        if p > 0 {
            assert(s.drop_last()[p - 1] == s[p - 1]);
        }
        p
    }
}

/// A candidate is put where it belongs.
pub proof fn lemma_insert_at(s: Seq<Match>, m: Match, p: int)
    requires
        belongs_at(s, m, p),
    ensures
        insert_ordered(s, m) == s.insert(p, m),
    decreases s.len(),
{
    if s.len() == 0 {
        assert(seq![m] == s.insert(p, m));
    } else if precedes(s.last(), m) {
        if p < s.len() {
            assert(!precedes(s[s.len() - 1], m));
        }
        assert(s.push(m) == s.insert(p, m));
    } else {
        let head = s.drop_last();
        assert(p < s.len());
        assert forall|k: int| p <= k < head.len() implies !precedes(#[trigger] head[k], m) by {
            assert(head[k] == s[k]);
        }
        if p > 0 {
            assert(head[p - 1] == s[p - 1]);
        }
        lemma_insert_at(head, m, p);
        assert(head.insert(p, m).push(s.last()) == s.insert(p, m));
    }
}

/// A candidate put where it belongs among sorted candidates leaves them sorted.
pub proof fn lemma_insert_sorted(s: Seq<Match>, m: Match, p: int)
    requires
        sorted(s),
        belongs_at(s, m, p),
    ensures
        sorted(s.insert(p, m)),
{
    let r = s.insert(p, m);
    assert forall|i: int, j: int| 0 <= i < j < r.len() implies precedes(
        #[trigger] r[i],
        #[trigger] r[j],
    ) by {
        if j < p {
            assert(r[i] == s[i] && r[j] == s[j]);
        } else if j == p {
            assert(r[i] == s[i]);
            if i < p - 1 {
                assert(precedes(s[i], s[p - 1]));
            }
        } else if i == p {
            assert(r[j] == s[j - 1]);
            assert(!precedes(s[j - 1], m));
        } else if i < p {
            assert(r[i] == s[i] && r[j] == s[j - 1]);
        } else {
            assert(r[i] == s[i - 1] && r[j] == s[j - 1]);
        }
    }
}

/// Ordered candidates are sorted.
pub proof fn lemma_ordered_sorted(ms: Seq<Match>)
    ensures
        sorted(ordered(ms)),
    decreases ms.len(),
{
    if ms.len() > 0 {
        let s = ordered(ms.drop_last());
        lemma_ordered_sorted(ms.drop_last());
        let p = lemma_place_exists(s, ms.last());
        lemma_insert_at(s, ms.last(), p);
        lemma_insert_sorted(s, ms.last(), p);
    }
}

/// Among sorted candidates, a candidate belongs at the same place whether or
/// not another one is there.
pub proof fn lemma_place_without(s: Seq<Match>, m: Match, p: int, d: int)
    requires
        sorted(s),
        belongs_at(s, m, p),
        0 <= d < s.len(),
    ensures
        belongs_at(
            s.remove(d),
            m,
            if p <= d {
                p
            } else {
                p - 1
            },
        ),
        s.remove(d).insert(
            if p <= d {
                p
            } else {
                p - 1
            },
            m,
        ) == s.insert(p, m).remove(
            if p <= d {
                d + 1
            } else {
                d
            },
        ),
{
    let t = s.remove(d);
    let q = if p <= d {
        p
    } else {
        p - 1
    };
    assert forall|k: int| q <= k < t.len() implies !precedes(#[trigger] t[k], m) by {
        if k < d {
            assert(t[k] == s[k]);
        } else {
            assert(t[k] == s[k + 1]);
        }
    }
    if q > 0 {
        if q - 1 < d {
            assert(t[q - 1] == s[q - 1]);
            if p > d {
                // The candidate taken away stood just before the place.
                assert(precedes(s[q - 1], s[p - 1]));
            }
        } else {
            assert(t[q - 1] == s[q]);
        }
    }
    assert(t.insert(q, m) == s.insert(p, m).remove(
        if p <= d {
            d + 1
        } else {
            d
        },
    ));
}

/// Ordering the candidates without one of them gives the ordered candidates
/// without that one. The candidate stands at the place returned, behind every
/// candidate that was given before it and may stand before it.
pub proof fn lemma_ordered_without(ms: Seq<Match>, b: int) -> (pos: int)
    requires
        0 <= b < ms.len(),
    ensures
        0 <= pos < ms.len(),
        ordered(ms).len() == ms.len(),
        ordered(ms)[pos] == ms[b],
        ordered(ms.remove(b)) == ordered(ms).remove(pos),
        forall|a: int|
            0 <= a < b && precedes(#[trigger] ms[a], ms[b]) ==> exists|q: int|
                0 <= q < pos && #[trigger] ordered(ms)[q] == ms[a],
    decreases ms.len(),
{
    let head = ms.drop_last();
    let s = ordered(head);
    let last = ms.last();
    lemma_ordered_elements(ms);
    lemma_ordered_elements(head);
    lemma_ordered_sorted(head);
    let p = lemma_place_exists(s, last);
    lemma_insert_at(s, last, p);
    if b == ms.len() - 1 {
        assert(ms.remove(b) == head);
        assert(s.insert(p, last).remove(p) == s);
        assert forall|a: int| 0 <= a < b && precedes(#[trigger] ms[a], ms[b]) implies exists|
            q: int,
        |
            0 <= q < p && #[trigger] ordered(ms)[q] == ms[a] by {
            assert(head[a] == ms[a]);
            assert(head.contains(ms[a]));
            assert(s.contains(ms[a]));
            let q = choose|q: int| 0 <= q < s.len() && s[q] == ms[a];
            assert(q < p);
            assert(ordered(ms)[q] == s[q]);
        }
        p
    } else {
        let before = lemma_ordered_without(head, b);
        assert(ms.remove(b).drop_last() == head.remove(b));
        assert(ms.remove(b).last() == last);
        lemma_place_without(s, last, p, before);
        let q = if p <= before {
            p
        } else {
            p - 1
        };
        lemma_insert_at(s.remove(before), last, q);
        let pos = if p <= before {
            before + 1
        } else {
            before
        };
        assert(head[b] == ms[b]);
        assert forall|a: int| 0 <= a < b && precedes(#[trigger] ms[a], ms[b]) implies exists|
            q: int,
        |
            0 <= q < pos && #[trigger] ordered(ms)[q] == ms[a] by {
            assert(head[a] == ms[a]);
            let at = choose|at: int| 0 <= at < before && #[trigger] s[at] == head[a];
            let moved = if p <= at {
                at + 1
            } else {
                at
            };
            assert(ordered(ms)[moved] == s[at]);
        }
        pos
    }
}

/// Putting a candidate in adds it and nothing else.
pub proof fn lemma_insert_ordered_elements(s: Seq<Match>, m: Match)
    ensures
        insert_ordered(s, m).len() == s.len() + 1,
        forall|x: Match| #[trigger]
            insert_ordered(s, m).contains(x) <==> (s.contains(x) || x == m),
    decreases s.len(),
{
    let r = insert_ordered(s, m);
    if s.len() == 0 {
        assert(r[0] == m);
        assert forall|x: Match| r.contains(x) <==> (s.contains(x) || x == m) by {
            if r.contains(x) {
                let i = choose|i: int| 0 <= i < r.len() && r[i] == x;
            }
        }
    } else if precedes(s.last(), m) {
        assert forall|x: Match| r.contains(x) <==> (s.contains(x) || x == m) by {
            if r.contains(x) {
                let i = choose|i: int| 0 <= i < r.len() && r[i] == x;
                if i < s.len() {
                    assert(s[i] == x);
                }
            }
            if s.contains(x) {
                let i = choose|i: int| 0 <= i < s.len() && s[i] == x;
                assert(r[i] == x);
            }
            if x == m {
                assert(r[s.len() as int] == x);
            }
        }
    } else {
        let t = insert_ordered(s.drop_last(), m);
        lemma_insert_ordered_elements(s.drop_last(), m);
        assert forall|x: Match| r.contains(x) <==> (s.contains(x) || x == m) by {
            if r.contains(x) {
                let i = choose|i: int| 0 <= i < r.len() && r[i] == x;
                if i < t.len() {
                    assert(t[i] == x);
                    assert(t.contains(x));
                    if s.drop_last().contains(x) {
                        let j = choose|j: int| 0 <= j < s.drop_last().len() && s.drop_last()[j] == x;
                        assert(s[j] == x);
                    }
                } else {
                    assert(s[s.len() - 1] == x);
                }
            }
            if s.contains(x) {
                let i = choose|i: int| 0 <= i < s.len() && s[i] == x;
                if i < s.len() - 1 {
                    assert(s.drop_last()[i] == x);
                    assert(s.drop_last().contains(x));
                    assert(t.contains(x));
                    let j = choose|j: int| 0 <= j < t.len() && t[j] == x;
                    assert(r[j] == x);
                } else {
                    assert(r[t.len() as int] == x);
                }
            }
            if x == m {
                assert(t.contains(x));
                let j = choose|j: int| 0 <= j < t.len() && t[j] == x;
                assert(r[j] == x);
            }
        }
    }
}

/// Ordering keeps the candidates: nothing is lost and nothing is added.
pub proof fn lemma_ordered_elements(ms: Seq<Match>)
    ensures
        ordered(ms).len() == ms.len(),
        forall|x: Match| #[trigger] ordered(ms).contains(x) <==> ms.contains(x),
    decreases ms.len(),
{
    if ms.len() > 0 {
        let head = ms.drop_last();
        lemma_ordered_elements(head);
        lemma_insert_ordered_elements(ordered(head), ms.last());
        assert forall|x: Match| ordered(ms).contains(x) <==> ms.contains(x) by {
            if ms.contains(x) {
                let i = choose|i: int| 0 <= i < ms.len() && ms[i] == x;
                if i < ms.len() - 1 {
                    assert(head[i] == x);
                }
            }
            if head.contains(x) {
                let i = choose|i: int| 0 <= i < head.len() && head[i] == x;
                assert(ms[i] == x);
            }
            if x == ms.last() {
                assert(ms[ms.len() - 1] == x);
            }
        }
    } else {
        assert forall|x: Match| ordered(ms).contains(x) <==> ms.contains(x) by {
            if ordered(ms).contains(x) {
                let i = choose|i: int| 0 <= i < ordered(ms).len() && ordered(ms)[i] == x;
            }
            if ms.contains(x) {
                let i = choose|i: int| 0 <= i < ms.len() && ms[i] == x;
            }
        }
    }
}

/// Puts `m` into `placed` where it belongs.
fn insert_match(placed: &mut Vec<Match>, m: Match)
    ensures
        final(placed)@ == insert_ordered(old(placed)@, m),
{
    let mut at = placed.len();
    while at > 0 && !(placed[at - 1].collapse.start < m.collapse.start || (placed[at
        - 1].collapse.start == m.collapse.start && placed[at - 1].collapse.end
        >= m.collapse.end))
        invariant
            placed@ == old(placed)@,
            at <= placed@.len(),
            forall|k: int| at <= k < placed@.len() ==> !precedes(#[trigger] placed@[k], m),
        decreases at,
    {
        at -= 1;
    }
    proof {
        lemma_insert_at(placed@, m, at as int);
    }
    placed.insert(at, m);
}

/// Ordered candidates are the candidates given, each as often as it was given.
pub proof fn lemma_ordered_permutes(ms: Seq<Match>)
    ensures
        ordered(ms).to_multiset() == ms.to_multiset(),
    decreases ms.len(),
{
    broadcast use vstd::seq_lib::group_to_multiset_ensures;

    if ms.len() > 0 {
        let head = ms.drop_last();
        let s = ordered(head);
        lemma_ordered_permutes(head);
        let p = lemma_place_exists(s, ms.last());
        lemma_insert_at(s, ms.last(), p);
        let r = s.insert(p, ms.last());
        assert(r.remove(p) == s);
        assert(r[p] == ms.last());
        assert(r.contains(ms.last()));
        assert(r.to_multiset() =~= s.to_multiset().insert(ms.last()));
        assert(head.push(ms.last()) == ms);
    } else {
        assert(ordered(ms) == ms);
    }
}

/// Orders the candidates for a scan of the document from its start: by
/// ascending start, among candidates that start together the longer one first,
/// and candidates with the same collapse range in the order given.
pub fn sort_matches(matches: Vec<Match>) -> (result: Vec<Match>)
    ensures
        result@ == ordered(matches@),
        sorted(result@),
        result@.to_multiset() == matches@.to_multiset(),
{
    proof {
        lemma_ordered_sorted(matches@);
        lemma_ordered_permutes(matches@);
    }
    let ghost all = matches@;
    let mut placed: Vec<Match> = Vec::new();
    for m in it: matches
        invariant
            it.seq() == all,
            placed@ == ordered(all.take(it.index() as int)),
    {
        proof {
            let head = all.take(it.index() + 1);
            assert(head.drop_last() == all.take(it.index() as int));
            assert(head.last() == m);
        }
        insert_match(&mut placed, m);
    }
    proof {
        assert(all.take(all.len() as int) == all);
    }
    placed
}

} // verus!
