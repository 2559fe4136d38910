//! What an outline owes the selection.
//!
//! The statements here hold where the candidates that are left after nested
//! ones are dropped do not overlap: each ends before the next starts. Where
//! two of them overlap in part, a scan may pass the start of the selection
//! before it gets to write it.

use crate::candidate::{match_ok, matches_ok, range_ok, Match};
use crate::ordering::{lemma_ordered_elements, ordered};
use crate::outline::{
    collapses,
    cursor_marker,
    kept_text,
    lemma_scan_offset,
    marked_document,
    marked_selection,
    outline,
    outline_of,
    scan,
    survivors,
};
use crate::text::{lemma_slices_join, lemma_whole_slice, text_len, text_slice};
use std::ops::Range;
use vstd::prelude::*;

verus! {

/// Each candidate ends before the next starts.
pub open spec fn disjoint(ms: Seq<Match>) -> bool {
    forall|i: int, j: int|
        0 <= i < j < ms.len() ==> (#[trigger] ms[i]).collapse.end <= (
        #[trigger] ms[j]).collapse.start
}

/// Every candidate that is left was given.
pub proof fn lemma_survivors_elements(ms: Seq<Match>)
    ensures
        forall|x: Match| #[trigger] survivors(ms).contains(x) ==> ms.contains(x),
    decreases ms.len(),
{
    if ms.len() > 0 {
        let head = ms.drop_last();
        lemma_survivors_elements(head);
        assert forall|x: Match| #[trigger] survivors(ms).contains(x) implies ms.contains(x) by {
            let i = choose|i: int| 0 <= i < survivors(ms).len() && survivors(ms)[i] == x;
            if i < survivors(head).len() {
                assert(survivors(head)[i] == x);
                assert(survivors(head).contains(x));
                let j = choose|j: int| 0 <= j < head.len() && head[j] == x;
                assert(ms[j] == x);
            } else {
                assert(ms[ms.len() - 1] == x);
            }
        }
    } else {
        assert forall|x: Match| #[trigger] survivors(ms).contains(x) implies ms.contains(x) by {
            let i = choose|i: int| 0 <= i < survivors(ms).len() && survivors(ms)[i] == x;
        }
    }
}

/// The candidates that are left of well-formed candidates are well-formed.
pub proof fn lemma_survivors_ok(text: Seq<char>, ms: Seq<Match>)
    requires
        matches_ok(text, ms),
    ensures
        matches_ok(text, survivors(ordered(ms))),
{
    let left = survivors(ordered(ms));
    lemma_ordered_elements(ms);
    lemma_survivors_elements(ordered(ms));
    assert forall|i: int| 0 <= i < left.len() implies match_ok(text, #[trigger] left[i]) by {
        assert(left.contains(left[i]));
        assert(ordered(ms).contains(left[i]));
        assert(ms.contains(left[i]));
    }
}

/// While the selection is not written, a scan of candidates that do not overlap
/// stays before it and before the candidates to come. Once the selection is
/// written, the scan stands at its end or beyond, and some candidate dealt with
/// ends at the start of the selection or behind it.
pub proof fn lemma_scan_and_selection(
    text: Seq<char>,
    ms: Seq<Match>,
    selection: Range<usize>,
    n: int,
)
    requires
        matches_ok(text, ms),
        range_ok(text, selection),
        disjoint(ms),
        0 <= n <= ms.len(),
    ensures
        ({
            let o = scan(text, ms.take(n), selection);
            &&& !o.marked ==> o.offset <= selection.start && forall|j: int|
                n <= j < ms.len() ==> o.offset <= (#[trigger] ms[j]).collapse.start
            &&& o.marked ==> o.offset >= selection.end && exists|j: int|
                0 <= j < n && selection.start <= (#[trigger] ms[j]).collapse.end
        }),
    decreases n,
{
    if n > 0 {
        lemma_scan_and_selection(text, ms, selection, n - 1);
        let upto = ms.take(n);
        assert(upto.drop_last() == ms.take(n - 1));
        assert(upto.last() == ms[n - 1]);
        let before = scan(text, ms.take(n - 1), selection);
        let o = scan(text, upto, selection);
        let m = ms[n - 1];
        assert(match_ok(text, m));
        if !o.marked {
            assert forall|j: int| n <= j < ms.len() implies o.offset <= (
            #[trigger] ms[j]).collapse.start by {
                assert(ms[n - 1].collapse.end <= ms[j].collapse.start);
            }
        } else if before.marked {
            let j = choose|j: int|
                0 <= j < n - 1 && selection.start <= (#[trigger] ms[j]).collapse.end;
            assert(0 <= j < n && selection.start <= ms[j].collapse.end);
        } else {
            assert(selection.start <= ms[n - 1].collapse.end);
        }
    }
}

/// Without candidates the outline is the document with the selection marked.
pub proof fn lemma_outline_without_candidates(text: Seq<char>, selection: Range<usize>)
    requires
        range_ok(text, selection),
    ensures
        outline(text, Seq::empty(), selection) == marked_document(text, selection),
{
    let none = Seq::<Match>::empty();
    assert(ordered(none) == none);
    assert(survivors(none) == none);
    let head = text_slice(text, 0, selection.start as int);
    assert(Seq::<char>::empty() + head == head);
    let tail = text_slice(text, selection.end as int, text_len(text) as int);
    assert(Seq::<char>::empty() + tail == tail);
}

/// An outline shows the selection: its text is what stands before the
/// selection, the selection as the document has it between the markers, and
/// what stands after it.
pub proof fn lemma_selection_preserved(text: Seq<char>, ms: Seq<Match>, selection: Range<usize>)
    requires
        matches_ok(text, ms),
        range_ok(text, selection),
        disjoint(survivors(ordered(ms))),
    ensures
        ({
            let o = outline_of(text, ms, selection);
            &&& o.marked
            &&& outline(text, ms, selection) == o.before + marked_selection(text, selection)
                + o.after
        }),
{
    let left = survivors(ordered(ms));
    lemma_survivors_ok(text, ms);
    lemma_scan_and_selection(text, left, selection, left.len() as int);
    assert(left.take(left.len() as int) == left);
}

/// An outline shows a cursor by the one marker for it: the start marker closed
/// at once, and no end marker.
pub proof fn lemma_cursor_marker(text: Seq<char>, ms: Seq<Match>, selection: Range<usize>)
    requires
        matches_ok(text, ms),
        range_ok(text, selection),
        disjoint(survivors(ordered(ms))),
        selection.start == selection.end,
    ensures
        ({
            let o = outline_of(text, ms, selection);
            outline(text, ms, selection) == o.before + cursor_marker() + o.after
        }),
{
    lemma_selection_preserved(text, ms, selection);
}

/// A candidate that the selection meets is not collapsed.
///
/// The selection meets the candidate where it starts no later than the
/// candidate ends and ends no earlier than the candidate starts. Where a
/// selection that is not empty ends just at the start of the candidate, the
/// statement holds if no candidate before this one extends to the start of the
/// selection: otherwise the selection is written there, and this candidate is
/// collapsed behind it.
pub proof fn lemma_selection_overrides_collapse(
    text: Seq<char>,
    ms: Seq<Match>,
    selection: Range<usize>,
    i: int,
)
    requires
        matches_ok(text, ms),
        range_ok(text, selection),
        disjoint(survivors(ordered(ms))),
        0 <= i < survivors(ordered(ms)).len(),
        ({
            let left = survivors(ordered(ms));
            &&& selection.start <= left[i].collapse.end
            &&& left[i].collapse.start <= selection.end
            &&& left[i].collapse.start < selection.end || selection.start == selection.end
                || forall|j: int|
                0 <= j < i ==> (#[trigger] left[j]).collapse.end < selection.start
        }),
    ensures
        ({
            let left = survivors(ordered(ms));
            !collapses(scan(text, left.take(i), selection), left[i], selection)
        }),
{
    let left = survivors(ordered(ms));
    lemma_survivors_ok(text, ms);
    lemma_scan_and_selection(text, left, selection, i);
    let o = scan(text, left.take(i), selection);
    if o.marked {
        let j = choose|j: int| 0 <= j < i && selection.start <= (#[trigger] left[j]).collapse.end;
        assert(left[i].collapse.start < selection.end || selection.start == selection.end);
    } else {
        assert(o.offset <= left[i].collapse.start);
    }
}

/// The selection lies in the candidate `i`, and no candidate before it extends
/// to the start of the selection.
pub open spec fn selection_within(ms: Seq<Match>, selection: Range<usize>, i: int) -> bool {
    &&& 0 <= i < ms.len()
    &&& ms[i].collapse.start <= selection.start
    &&& selection.end <= ms[i].collapse.end
    &&& forall|j: int| 0 <= j < i ==> (#[trigger] ms[j]).collapse.end < selection.start
}

/// Where the selection lies in a candidate, a scan that has dealt with the
/// candidate has written the candidate up to the selection. Behind the
/// selection it has written nothing yet and stands at the end of the selection,
/// or what it has written starts with the rest of the candidate and goes on
/// with the text returned.
proof fn lemma_scan_within(
    text: Seq<char>,
    ms: Seq<Match>,
    selection: Range<usize>,
    i: int,
    n: int,
) -> (rest: Option<Seq<char>>)
    requires
        matches_ok(text, ms),
        range_ok(text, selection),
        disjoint(ms),
        selection_within(ms, selection, i),
        i < n <= ms.len(),
    ensures
        ({
            let at = scan(text, ms.take(i), selection);
            let o = scan(text, ms.take(n), selection);
            &&& !at.marked
            &&& at.offset <= ms[i].collapse.start
            &&& o.marked
            &&& o.before == at.before + text_slice(text, at.offset, ms[i].collapse.start as int)
                + text_slice(text, ms[i].collapse.start as int, selection.start as int)
            &&& forall|k: int| n <= k < ms.len() ==> o.offset <= (#[trigger] ms[k]).collapse.start
            &&& match rest {
                None => o.after == Seq::<char>::empty() && o.offset == selection.end,
                Some(rest) => o.after == text_slice(
                    text,
                    selection.end as int,
                    ms[i].collapse.end as int,
                ) + rest && o.offset >= ms[i].collapse.end,
            }
        }),
    decreases n,
{
    let upto = ms.take(n);
    assert(upto.drop_last() == ms.take(n - 1));
    assert(upto.last() == ms[n - 1]);
    assert(match_ok(text, ms[i]));
    assert(match_ok(text, ms[n - 1]));
    let at = scan(text, ms.take(i), selection);
    lemma_scan_and_selection(text, ms, selection, i);
    lemma_scan_offset(text, ms.take(i), selection);
    if at.marked {
        let j = choose|j: int| 0 <= j < i && selection.start <= (#[trigger] ms[j]).collapse.end;
        assert(false);
    }
    if n == i + 1 {
        lemma_slices_join(
            text,
            at.offset,
            ms[i].collapse.start as int,
            selection.start as int,
        );
        assert forall|k: int| n <= k < ms.len() implies selection.end <= (
        #[trigger] ms[k]).collapse.start by {
            assert(ms[i].collapse.end <= ms[k].collapse.start);
        }
        None
    } else {
        let rest = lemma_scan_within(text, ms, selection, i, n - 1);
        let before = scan(text, ms.take(n - 1), selection);
        let m = ms[n - 1];
        assert(before.offset <= m.collapse.start);
        assert(ms[i].collapse.end <= m.collapse.start);
        if collapses(before, m, selection) {
            let piece = text_slice(text, before.offset, m.collapse.start as int) + kept_text(
                text,
                m.keep@,
            );
            assert forall|k: int| n <= k < ms.len() implies m.collapse.end <= (
            #[trigger] ms[k]).collapse.start by {
                assert(ms[n - 1].collapse.end <= ms[k].collapse.start);
            }
            let shown = text_slice(text, selection.end as int, ms[i].collapse.end as int);
            match rest {
                None => {
                    lemma_slices_join(
                        text,
                        selection.end as int,
                        ms[i].collapse.end as int,
                        m.collapse.start as int,
                    );
                    let later = text_slice(
                        text,
                        ms[i].collapse.end as int,
                        m.collapse.start as int,
                    ) + kept_text(text, m.keep@);
                    assert(Seq::<char>::empty() + piece == shown + later);
                    Some(later)
                },
                Some(rest) => {
                    assert(shown + rest + piece == shown + (rest + piece));
                    Some(rest + piece)
                },
            }
        } else {
            // A cursor at the end of the candidate, where the next one starts.
            assert forall|k: int| n <= k < ms.len() implies before.offset <= (
            #[trigger] ms[k]).collapse.start by {
                assert(ms[i].collapse.end <= ms[k].collapse.start);
            }
            rest
        }
    }
}

/// A candidate in which the selection lies is written in full: the outline
/// holds the candidate from its start to the selection, the selection between
/// its markers, and the candidate from the selection to its end. The parts
/// returned are what the outline holds before and behind that.
pub proof fn lemma_selected_candidate_in_full(
    text: Seq<char>,
    ms: Seq<Match>,
    selection: Range<usize>,
    i: int,
) -> (around: (Seq<char>, Seq<char>))
    requires
        matches_ok(text, ms),
        range_ok(text, selection),
        disjoint(survivors(ordered(ms))),
        selection_within(survivors(ordered(ms)), selection, i),
    ensures
        ({
            let m = survivors(ordered(ms))[i];
            outline(text, ms, selection) == around.0 + text_slice(
                text,
                m.collapse.start as int,
                selection.start as int,
            ) + marked_selection(text, selection) + text_slice(
                text,
                selection.end as int,
                m.collapse.end as int,
            ) + around.1
        }),
{
    let left = survivors(ordered(ms));
    let m = left[i];
    lemma_survivors_ok(text, ms);
    assert(match_ok(text, m));
    let n = left.len() as int;
    let rest = lemma_scan_within(text, left, selection, i, n);
    assert(left.take(n) == left);
    let at = scan(text, left.take(i), selection);
    let o = scan(text, left, selection);
    lemma_whole_slice(text);
    lemma_scan_offset(text, left, selection);
    let head = at.before + text_slice(text, at.offset, m.collapse.start as int);
    let within = text_slice(text, m.collapse.start as int, selection.start as int);
    let shown = text_slice(text, selection.end as int, m.collapse.end as int);
    let end = text_slice(text, o.offset, text_len(text) as int);
    let marked = marked_selection(text, selection);
    match rest {
        None => {
            lemma_slices_join(
                text,
                selection.end as int,
                m.collapse.end as int,
                text_len(text) as int,
            );
            let tail = text_slice(text, m.collapse.end as int, text_len(text) as int);
            assert(Seq::<char>::empty() + end == shown + tail);
            assert(head + within + marked + (shown + tail) == head + within + marked + shown
                + tail);
            (head, tail)
        },
        Some(rest) => {
            assert(head + within + marked + (shown + rest + end) == head + within + marked + shown
                + (rest + end));
            (head, rest + end)
        },
    }
}

} // verus!
