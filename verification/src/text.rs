//! Texts addressed by byte offsets.
//!
//! A text is modelled by its characters, `Seq<char>`. Offsets count the bytes of
//! its UTF-8 encoding, and only offsets on character boundaries delimit a slice.

use vstd::prelude::*;
use vstd::string::*;
use vstd::utf8::*;

verus! {

/// The number of bytes that `text` occupies.
pub open spec fn text_len(text: Seq<char>) -> nat {
    encode_utf8(text).len()
}

/// `offset` lies within `text`, at the start of a character or at the very end.
pub open spec fn is_text_offset(text: Seq<char>, offset: int) -> bool {
    0 <= offset <= text_len(text) && is_char_boundary(encode_utf8(text), offset)
}

/// `start..end` delimits a slice of `text`.
pub open spec fn is_text_range(text: Seq<char>, start: int, end: int) -> bool {
    is_text_offset(text, start) && is_text_offset(text, end) && start <= end
}

/// The characters of `text` whose bytes lie in `start..end`.
pub open spec fn text_slice(text: Seq<char>, start: int, end: int) -> Seq<char> {
    decode_utf8(encode_utf8(text).subrange(start, end))
}

/// A character boundary of a text is one of each prefix that reaches it.
pub proof fn lemma_boundary_in_prefix(bytes: Seq<u8>, start: int, end: int)
    requires
        valid_utf8(bytes),
        0 <= start <= end <= bytes.len(),
        is_char_boundary(bytes, start),
        is_char_boundary(bytes, end),
    ensures
        valid_utf8(bytes.subrange(0, end)),
        is_char_boundary(bytes.subrange(0, end), start),
{
    let head = bytes.subrange(0, end);
    valid_utf8_split(bytes, end);
    if start == end {
        is_char_boundary_start_end_of_seq(head);
    } else {
        is_char_boundary_iff_not_is_continuation_byte(bytes, start);
        is_char_boundary_iff_not_is_continuation_byte(head, start);
    }
}

/// Slices that meet end to start join into one slice.
pub proof fn lemma_slices_join(text: Seq<char>, start: int, mid: int, end: int)
    requires
        is_text_range(text, start, mid),
        is_text_range(text, mid, end),
    ensures
        text_slice(text, start, mid) + text_slice(text, mid, end) == text_slice(text, start, end),
{
    let bytes = encode_utf8(text);
    encode_utf8_valid_utf8(text);
    lemma_boundary_in_prefix(bytes, start, end);
    let head = bytes.subrange(0, end);
    valid_utf8_split(head, start);
    let piece = head.subrange(start, end);
    assert(piece == bytes.subrange(start, end));
    lemma_boundary_in_prefix(bytes, mid, end);
    // `mid` is a boundary of `piece`, counted from its start.
    if mid == start {
        is_char_boundary_start_end_of_seq(piece);
    } else if mid == end {
        is_char_boundary_start_end_of_seq(piece);
    } else {
        is_char_boundary_iff_not_is_continuation_byte(bytes, mid);
        is_char_boundary_iff_not_is_continuation_byte(piece, mid - start);
    }
    decode_utf8_split(piece, mid - start);
    assert(piece.subrange(0, mid - start) == bytes.subrange(start, mid));
    assert(piece.subrange(mid - start, piece.len() as int) == bytes.subrange(mid, end));
}

/// The whole of a text is the slice from 0 to its length.
pub proof fn lemma_whole_slice(text: Seq<char>)
    ensures
        is_text_range(text, 0, text_len(text) as int),
        text_slice(text, 0, text_len(text) as int) == text,
{
    let bytes = encode_utf8(text);
    encode_utf8_valid_utf8(text);
    is_char_boundary_start_end_of_seq(bytes);
    assert(bytes.subrange(0, bytes.len() as int) == bytes);
    encode_utf8_decode_utf8(text);
}

/// Whether `start..end` delimits a slice of `text`.
pub fn is_range_of(text: &str, start: usize, end: usize) -> (ok: bool)
    ensures
        ok == is_text_range(text@, start as int, end as int),
{
    proof {
        encode_utf8_valid_utf8(text@);
    }
    start <= end && text.is_char_boundary(start) && text.is_char_boundary(end)
}

/// The number of bytes that `text` occupies.
pub fn byte_len(text: &str) -> (len: usize)
    ensures
        len == text_len(text@),
{
    text.as_bytes().len()
}

/// The slice of `text` between two of its offsets.
pub fn text_for_range<'a>(text: &'a str, start: usize, end: usize) -> (piece: &'a str)
    requires
        is_text_range(text@, start as int, end as int),
    ensures
        piece@ == text_slice(text@, start as int, end as int),
{
    proof {
        encode_utf8_valid_utf8(text@);
        lemma_boundary_in_prefix(encode_utf8(text@), start as int, end as int);
    }
    let (head, _) = text.split_at(end);
    let (_, piece) = head.split_at(start);
    proof {
        assert(encode_utf8(piece@) == encode_utf8(text@).subrange(start as int, end as int));
        encode_utf8_decode_utf8(piece@);
    }
    piece
}

/// The lower-case form of a text, as `str::to_lowercase` returns it.
pub uninterp spec fn lowercase(text: Seq<char>) -> Seq<char>;

/// Calls `str::to_lowercase`. Nothing is proved of it: the contract claims that
/// the result depends on the text alone.
#[verifier::external_body]
pub(crate) fn to_lowercase(text: &str) -> (lower: String)
    ensures
        lower@ == lowercase(text@),
{
    text.to_lowercase()
}

} // verus!
