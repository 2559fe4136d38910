//! Outline of a document around a selection.
//!
//! Candidates name spans of the document that may be shown collapsed to a few
//! kept sub-spans. The outline shows the selection in full between markers and
//! collapses every candidate that the selection does not reach.

use crate::candidate::{
    check_matches,
    encloses,
    match_ok,
    matches_ok,
    range_ok,
    InvalidRange,
    Match,
};
use crate::ordering::{lemma_ordered_elements, ordered, sort_matches};
use crate::text::{
    byte_len,
    is_range_of,
    is_text_offset,
    is_text_range,
    lemma_whole_slice,
    text_for_range,
    text_len,
    text_slice,
};
use std::ops::Range;
use vstd::prelude::*;
use vstd::string::*;

verus! {

/// What is left of an ordered sequence when each candidate that the last one
/// left before it encloses is dropped.
pub open spec fn survivors(ms: Seq<Match>) -> Seq<Match>
    decreases ms.len(),
{
    if ms.len() == 0 {
        Seq::empty()
    } else {
        let before = survivors(ms.drop_last());
        if before.len() > 0 && encloses(before.last(), ms.last()) {
            before
        } else {
            before.push(ms.last())
        }
    }
}

/// The marker that opens the selection.
pub open spec fn start_marker() -> Seq<char> {
    "<|START|"@
}

/// The marker that closes a selection that is not empty.
pub open spec fn end_marker() -> Seq<char> {
    "|END|>"@
}

/// The marker that stands for an empty selection, a cursor.
pub open spec fn cursor_marker() -> Seq<char> {
    "<|START|>"@
}

/// The selection as it is shown: a cursor by the cursor marker alone, any other
/// selection by its text between the start and the end marker.
pub open spec fn marked_selection(text: Seq<char>, selection: Range<usize>) -> Seq<char> {
    if selection.start == selection.end {
        cursor_marker()
    } else {
        start_marker() + text_slice(text, selection.start as int, selection.end as int)
            + end_marker()
    }
}

/// The document with the selection between its markers, and nothing collapsed.
pub open spec fn marked_document(text: Seq<char>, selection: Range<usize>) -> Seq<char> {
    text_slice(text, 0, selection.start as int) + marked_selection(text, selection) + text_slice(
        text,
        selection.end as int,
        text_len(text) as int,
    )
}

/// An outline while it is written: what stands before the selection, whether
/// the selection has been written, what stands after it, and the offset up to
/// which the document has been dealt with.
pub struct Outline {
    pub before: Seq<char>,
    pub marked: bool,
    pub after: Seq<char>,
    pub offset: int,
}

/// The text of an outline. It shows the selection once, where it was written.
pub open spec fn render(text: Seq<char>, o: Outline, selection: Range<usize>) -> Seq<char> {
    if o.marked {
        o.before + marked_selection(text, selection) + o.after
    } else {
        o.before
    }
}

/// The outline with `piece` added at its end.
pub open spec fn emit(o: Outline, piece: Seq<char>) -> Outline {
    if o.marked {
        Outline { after: o.after + piece, ..o }
    } else {
        Outline { before: o.before + piece, ..o }
    }
}

/// The slices of the keep ranges, one after the other.
pub open spec fn kept_text(text: Seq<char>, keep: Seq<Range<usize>>) -> Seq<char>
    decreases keep.len(),
{
    if keep.len() == 0 {
        Seq::empty()
    } else {
        kept_text(text, keep.drop_last()) + text_slice(
            text,
            keep.last().start as int,
            keep.last().end as int,
        )
    }
}

/// The outline after the selection is written: the document up to the
/// selection, then the selection itself.
pub open spec fn mark(text: Seq<char>, o: Outline, selection: Range<usize>) -> Outline {
    Outline {
        before: o.before + text_slice(text, o.offset, selection.start as int),
        marked: true,
        after: Seq::empty(),
        offset: selection.end as int,
    }
}

/// The outline after `m` is written collapsed: the document up to `m`, then
/// what `m` keeps.
pub open spec fn collapse(text: Seq<char>, o: Outline, m: Match) -> Outline {
    Outline {
        offset: m.collapse.end as int,
        ..emit(o, text_slice(text, o.offset, m.collapse.start as int) + kept_text(text, m.keep@))
    }
}

/// The scan stands at the selection when it gets to `m`: the selection starts
/// between the offset reached and the end of `m`.
pub open spec fn at_selection(o: Outline, m: Match, selection: Range<usize>) -> bool {
    o.offset <= selection.start && selection.start <= m.collapse.end
}

/// `m` is written collapsed: the outline has not gone beyond its start, and
/// the scan does not stand at a selection that extends to the start of `m`.
pub open spec fn collapses(o: Outline, m: Match, selection: Range<usize>) -> bool {
    o.offset <= m.collapse.start && !(at_selection(o, m, selection) && selection.end
        >= m.collapse.start)
}

/// The outline after the candidate `m` is dealt with. A candidate that starts
/// before the offset reached is passed, and the offset moves to its end where
/// that lies further on. Where the scan stands at the selection, the selection
/// is written unless it has been.
pub open spec fn visit(text: Seq<char>, o: Outline, m: Match, selection: Range<usize>) -> Outline {
    if o.offset > m.collapse.start {
        Outline {
            offset: if o.offset >= m.collapse.end {
                o.offset
            } else {
                m.collapse.end as int
            },
            ..o
        }
    } else {
        let marked = if at_selection(o, m, selection) && !o.marked {
            mark(text, o, selection)
        } else {
            o
        };
        if collapses(o, m, selection) {
            collapse(text, marked, m)
        } else {
            marked
        }
    }
}

/// The outline after the candidates `ms` are dealt with in turn.
pub open spec fn scan(text: Seq<char>, ms: Seq<Match>, selection: Range<usize>) -> Outline
    decreases ms.len(),
{
    if ms.len() == 0 {
        Outline { before: Seq::empty(), marked: false, after: Seq::empty(), offset: 0 }
    } else {
        visit(text, scan(text, ms.drop_last(), selection), ms.last(), selection)
    }
}

/// The outline completed: the selection is written if it has not been and still
/// lies ahead, and the rest of the document follows.
pub open spec fn finish(text: Seq<char>, o: Outline, selection: Range<usize>) -> Outline {
    let o = if !o.marked && o.offset <= selection.start {
        mark(text, o, selection)
    } else {
        o
    };
    Outline {
        offset: text_len(text) as int,
        ..emit(o, text_slice(text, o.offset, text_len(text) as int))
    }
}

/// The outline of `text` for the candidates `ms` and the selection, as it is
/// written.
pub open spec fn outline_of(text: Seq<char>, ms: Seq<Match>, selection: Range<usize>) -> Outline {
    finish(text, scan(text, survivors(ordered(ms)), selection), selection)
}

/// The text of the outline of `text` for the candidates `ms` and the selection.
pub open spec fn outline(text: Seq<char>, ms: Seq<Match>, selection: Range<usize>) -> Seq<char> {
    render(text, outline_of(text, ms, selection), selection)
}

/// The offset that an outline has reached lies in the document.
pub proof fn lemma_scan_offset(text: Seq<char>, ms: Seq<Match>, selection: Range<usize>)
    requires
        matches_ok(text, ms),
        range_ok(text, selection),
    ensures
        is_text_offset(text, scan(text, ms, selection).offset),
    decreases ms.len(),
{
    if ms.len() > 0 {
        lemma_scan_offset(text, ms.drop_last(), selection);
        assert(match_ok(text, ms[ms.len() - 1]));
    } else {
        lemma_whole_slice(text);
    }
}

/// An outline in the making, as a string.
struct Writer {
    summary: String,
    offset: usize,
    flushed: bool,
}

impl Writer {
    /// The writer holds the text of `o` and stands where `o` stands.
    spec fn shows(&self, text: Seq<char>, o: Outline, selection: Range<usize>) -> bool {
        &&& self.summary@ == render(text, o, selection)
        &&& self.offset == o.offset
        &&& self.flushed == o.marked
    }

    /// Writes the document from the offset reached up to `end`.
    fn push_text(&mut self, text: &str, end: usize, Ghost(o): Ghost<Outline>, Ghost(
        selection,
    ): Ghost<Range<usize>>)
        requires
            old(self).shows(text@, o, selection),
            is_text_range(text@, o.offset, end as int),
        ensures
            final(self).shows(
                text@,
                Outline { offset: end as int, ..emit(o, text_slice(text@, o.offset, end as int)) },
                selection,
            ),
    {
        let piece = text_for_range(text, self.offset, end);
        self.summary.append(piece);
        self.offset = end;
        proof {
            let shown = marked_selection(text@, selection);
            assert((o.before + shown + o.after) + piece@ == o.before + shown + (o.after
                + piece@));
        }
    }

    /// Writes the document up to the selection, then the selection between its
    /// markers.
    fn push_selection(&mut self, text: &str, selection: &Range<usize>, Ghost(o): Ghost<Outline>)
        requires
            old(self).shows(text@, o, *selection),
            !o.marked,
            range_ok(text@, *selection),
            is_text_range(text@, o.offset, selection.start as int),
        ensures
            final(self).shows(text@, mark(text@, o, *selection), *selection),
    {
        let head = text_for_range(text, self.offset, selection.start);
        self.summary.append(head);
        if selection.start == selection.end {
            self.summary.append("<|START|>");
        } else {
            let chosen = text_for_range(text, selection.start, selection.end);
            self.summary.append("<|START|");
            self.summary.append(chosen);
            self.summary.append("|END|>");
        }
        self.offset = selection.end;
        self.flushed = true;
        proof {
            let before = o.before + head@;
            if selection.start != selection.end {
                assert(before + start_marker() + text_slice(
                    text@,
                    selection.start as int,
                    selection.end as int,
                ) + end_marker() == before + marked_selection(text@, *selection));
            }
            assert(before + marked_selection(text@, *selection) + Seq::<char>::empty() == before
                + marked_selection(text@, *selection));
        }
    }

    /// Writes the document up to `m`, then what `m` keeps.
    fn push_collapsed(&mut self, text: &str, m: &Match, Ghost(o): Ghost<Outline>, Ghost(
        selection,
    ): Ghost<Range<usize>>)
        requires
            old(self).shows(text@, o, selection),
            match_ok(text@, *m),
            is_text_range(text@, o.offset, m.collapse.start as int),
        ensures
            final(self).shows(text@, collapse(text@, o, *m), selection),
    {
        let ghost start = self.summary@;
        let head = text_for_range(text, self.offset, m.collapse.start);
        self.summary.append(head);
        let mut k: usize = 0;
        while k < m.keep.len()
            invariant
                k <= m.keep@.len(),
                match_ok(text@, *m),
                self.summary@ == start + head@ + kept_text(text@, m.keep@.take(k as int)),
                self.offset == old(self).offset,
                self.flushed == old(self).flushed,
            decreases m.keep@.len() - k,
        {
            let piece = text_for_range(text, m.keep[k].start, m.keep[k].end);
            self.summary.append(piece);
            proof {
                let upto = m.keep@.take(k + 1);
                assert(upto.drop_last() == m.keep@.take(k as int));
                assert(upto.last() == m.keep@[k as int]);
                assert(start + head@ + kept_text(text@, m.keep@.take(k as int)) + piece@ == start
                    + head@ + (kept_text(text@, m.keep@.take(k as int)) + piece@));
            }
            k += 1;
        }
        self.offset = m.collapse.end;
        proof {
            assert(m.keep@.take(k as int) == m.keep@);
            let piece = head@ + kept_text(text@, m.keep@);
            assert(start + head@ + kept_text(text@, m.keep@) == start + piece);
            let shown = marked_selection(text@, selection);
            assert((o.before + shown + o.after) + piece == o.before + shown + (o.after + piece));
        }
    }

    /// Deals with the candidate `m`.
    fn visit_match(&mut self, text: &str, m: &Match, selection: &Range<usize>, Ghost(o): Ghost<
        Outline,
    >)
        requires
            old(self).shows(text@, o, *selection),
            match_ok(text@, *m),
            range_ok(text@, *selection),
            is_text_offset(text@, o.offset),
        ensures
            final(self).shows(text@, visit(text@, o, *m, *selection), *selection),
    {
        if self.offset > m.collapse.start {
            if self.offset < m.collapse.end {
                self.offset = m.collapse.end;
            }
            return ;
        }
        let mut o = Ghost(o);
        if self.offset <= selection.start && selection.start <= m.collapse.end {
            if !self.flushed {
                self.push_selection(text, selection, o);
                proof {
                    o@ = mark(text@, o@, *selection);
                }
            }
            if selection.end >= m.collapse.start {
                return ;
            }
        }
        self.push_collapsed(text, m, o, Ghost(*selection));
    }
}

/// The outline of `text`: the selection in full between markers, each candidate
/// that the selection does not reach collapsed to what it keeps, and the rest
/// of the document as it is.
///
/// Fails where the selection or a range of a candidate is inverted, leaves the
/// document or splits a character, and only there.
pub fn summarize(text: &str, matches: Vec<Match>, selected_range: Range<usize>) -> (result: Result<
    String,
    InvalidRange,
>)
    ensures
        result is Ok <==> range_ok(text@, selected_range) && matches_ok(text@, matches@),
        result matches Ok(summary) ==> summary@ == outline(text@, matches@, selected_range),
{
    if !is_range_of(text, selected_range.start, selected_range.end) || !check_matches(
        text,
        &matches,
    ) {
        return Err(InvalidRange);
    }
    let ghost given = matches@;
    let sorted = sort_matches(matches);
    proof {
        lemma_ordered_elements(given);
        assert forall|i: int| 0 <= i < sorted@.len() implies match_ok(
            text@,
            #[trigger] sorted@[i],
        ) by {
            assert(sorted@.contains(sorted@[i]));
            assert(given.contains(sorted@[i]));
        }
    }
    let mut writer = Writer { summary: String::new(), offset: 0, flushed: false };
    let mut last: Option<usize> = None;
    let mut o = Ghost(scan(text@, Seq::empty(), selected_range));
    let mut i: usize = 0;
    proof {
        lemma_scan_offset(text@, Seq::empty(), selected_range);
        assert(sorted@.take(0) == Seq::<Match>::empty());
    }
    while i < sorted.len()
        invariant
            i <= sorted@.len(),
            matches_ok(text@, sorted@),
            range_ok(text@, selected_range),
            o@ == scan(text@, survivors(sorted@.take(i as int)), selected_range),
            writer.shows(text@, o@, selected_range),
            is_text_offset(text@, o@.offset),
            match last {
                Some(at) => at < i && survivors(sorted@.take(i as int)).len() > 0 && survivors(
                    sorted@.take(i as int),
                ).last() == sorted@[at as int],
                None => survivors(sorted@.take(i as int)).len() == 0,
            },
        decreases sorted@.len() - i,
    {
        let m = &sorted[i];
        let nested = match last {
            Some(at) => sorted[at].collapse.start <= m.collapse.start && sorted[at].collapse.end
                >= m.collapse.end,
            None => false,
        };
        proof {
            let upto = sorted@.take(i + 1);
            assert(upto.drop_last() == sorted@.take(i as int));
            assert(upto.last() == sorted@[i as int]);
        }
        if !nested {
            writer.visit_match(text, m, &selected_range, o);
            proof {
                let kept = survivors(sorted@.take(i + 1));
                assert(kept.drop_last() == survivors(sorted@.take(i as int)));
                o@ = visit(text@, o@, *m, selected_range);
                assert(match_ok(text@, sorted@[i as int]));
            }
            last = Some(i);
        }
        i += 1;
    }
    proof {
        assert(sorted@.take(i as int) == sorted@);
    }
    if !writer.flushed && writer.offset <= selected_range.start {
        writer.push_selection(text, &selected_range, o);
        proof {
            o@ = mark(text@, o@, selected_range);
        }
    }
    let len = byte_len(text);
    proof {
        lemma_whole_slice(text@);
    }
    writer.push_text(text, len, o, Ghost(selected_range));
    Ok(writer.summary)
}

} // verus!
