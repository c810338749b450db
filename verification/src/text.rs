//! Byte ranges of a text, and the pieces of text they cut out.
//!
//! A search reports where it matched as byte offsets into the UTF-8
//! encoding of the text, while the contracts of this crate speak of texts as
//! sequences of characters. This module connects the two.

use vstd::prelude::*;
use vstd::string::*;
use vstd::utf8::*;

verus! {

/// The characters spelled by bytes `from..to` of the UTF-8 encoding of `text`.
pub open spec fn text_between(text: Seq<char>, from: int, to: int) -> Seq<char> {
    decode_utf8(encode_utf8(text).subrange(from, to))
}

/// The number of bytes in the UTF-8 encoding of `text`.
pub open spec fn byte_len(text: Seq<char>) -> int {
    encode_utf8(text).len() as int
}

/// A half-open range `start..end` of byte offsets into an encoded text.
#[derive(Clone, Copy, Debug, PartialEq, Eq, Structural)]
pub struct Span {
    pub start: usize,
    pub end: usize,
}

impl Span {
    /// The range is not reversed and both its ends fall between two
    /// characters of `text` (or at its very beginning or end).
    pub open spec fn fits(self, text: Seq<char>) -> bool {
        &&& self.start <= self.end
        &&& is_char_boundary(encode_utf8(text), self.start as int)
        &&& is_char_boundary(encode_utf8(text), self.end as int)
    }

    /// The piece of `text` that the range covers.
    pub open spec fn of(self, text: Seq<char>) -> Seq<char> {
        text_between(text, self.start as int, self.end as int)
    }

    /// Decides whether the range can be cut out of `text`.
    pub fn fits_in(&self, text: &str) -> (ok: bool)
        ensures
            ok == self.fits(text@),
    {
        self.start <= self.end && text.is_char_boundary(self.start) && text.is_char_boundary(
            self.end,
        )
    }

    /// Cuts the range out of `text`, if it fits.
    pub fn slice<'a>(&self, text: &'a str) -> (piece: Option<&'a str>)
        ensures
            piece is Some <==> self.fits(text@),
            piece matches Some(found) ==> found@ == self.of(text@),
    {
        if self.fits_in(text) {
            Some(cut(text, self.start, self.end))
        } else {
            None
        }
    }
}

/// Whether two texts are the same.
pub fn same_text(a: &str, b: &str) -> (same: bool)
    ensures
        same == (a@ == b@),
{
    let left = a.as_bytes();
    let right = b.as_bytes();
    if left.len() != right.len() {
        return false;
    }
    let mut i: usize = 0;
    while i < left.len()
        invariant
            i <= left.len(),
            left.len() == right.len(),
            left@ == encode_utf8(a@),
            right@ == encode_utf8(b@),
            forall|j: int| 0 <= j < i ==> left@[j] == right@[j],
        decreases left.len() - i,
    {
        if left[i] != right[i] {
            return false;
        }
        i += 1;
    }
    proof {
        assert(left@ =~= right@);
        lemma_same_encoding(a@, b@);
    }
    true
}

/// The piece of `text` between two of its character boundaries.
pub(crate) fn cut<'a>(text: &'a str, from: usize, to: usize) -> (piece: &'a str)
    requires
        from <= to,
        is_char_boundary(encode_utf8(text@), from as int),
        is_char_boundary(encode_utf8(text@), to as int),
    ensures
        piece@ == text_between(text@, from as int, to as int),
{
    let ghost bytes = encode_utf8(text@);
    proof {
        encode_utf8_valid_utf8(text@);
        lemma_boundary_within(bytes, to as int);
        lemma_boundary_of_head(bytes, from as int, to as int);
    }
    let (head, _) = text.split_at(to);
    let (_, piece) = head.split_at(from);
    proof {
        assert(piece.spec_bytes() =~= bytes.subrange(from as int, to as int));
        encode_utf8_decode_utf8(piece@);
    }
    piece
}

/// A character boundary of a valid encoding lies inside it.
pub proof fn lemma_boundary_within(bytes: Seq<u8>, index: int)
    requires
        valid_utf8(bytes),
        is_char_boundary(bytes, index),
    ensures
        0 <= index <= bytes.len(),
    decreases bytes.len(),
{
    if index != 0 {
        lemma_boundary_within(pop_first_scalar(bytes), index - length_of_first_scalar(bytes));
    }
}

/// Cutting an encoding at a boundary keeps the earlier boundaries.
proof fn lemma_boundary_of_head(bytes: Seq<u8>, from: int, to: int)
    requires
        valid_utf8(bytes),
        is_char_boundary(bytes, from),
        is_char_boundary(bytes, to),
        from <= to,
    ensures
        valid_utf8(bytes.subrange(0, to)),
        is_char_boundary(bytes.subrange(0, to), from),
{
    lemma_boundary_within(bytes, from);
    lemma_boundary_within(bytes, to);
    valid_utf8_split(bytes, to);
    let head = bytes.subrange(0, to);
    if from == to {
        is_char_boundary_start_end_of_seq(head);
    } else {
        is_char_boundary_iff_not_is_continuation_byte(bytes, from);
        is_char_boundary_iff_not_is_continuation_byte(head, from);
    }
}

/// The whole range of a text spells the text itself.
pub proof fn lemma_text_between_all(text: Seq<char>)
    ensures
        text_between(text, 0, byte_len(text)) == text,
{
    let bytes = encode_utf8(text);
    assert(bytes.subrange(0, bytes.len() as int) =~= bytes);
    encode_utf8_decode_utf8(text);
}

/// The byte offset at which character `k` of `text` begins; for `k` the
/// length of the text, the offset of its end.
pub open spec fn offset_of(text: Seq<char>, k: int) -> int {
    byte_len(text.take(k))
}

/// The encoding of two texts in a row is their encodings in a row.
pub proof fn lemma_encoding_of_concat(a: Seq<char>, b: Seq<char>)
    ensures
        encode_utf8(a + b) == encode_utf8(a) + encode_utf8(b),
    decreases a.len(),
{
    if a.len() == 0 {
        assert(a + b =~= b);
        assert(encode_utf8(a) + encode_utf8(b) =~= encode_utf8(b));
    } else {
        assert((a + b).drop_first() =~= a.drop_first() + b);
        lemma_encoding_of_concat(a.drop_first(), b);
        assert(encode_utf8(a + b) =~= encode_utf8(a) + encode_utf8(b));
    }
}

/// Offsets grow with the positions, from 0 to the length of the encoding.
pub proof fn lemma_offsets_ordered(text: Seq<char>, i: int, j: int)
    requires
        0 <= i <= j <= text.len(),
    ensures
        0 <= offset_of(text, i) <= offset_of(text, j) <= byte_len(text),
        offset_of(text, 0) == 0,
        offset_of(text, text.len() as int) == byte_len(text),
{
    assert(text.take(j) =~= text.take(i) + text.subrange(i, j));
    lemma_encoding_of_concat(text.take(i), text.subrange(i, j));
    assert(text =~= text.take(j) + text.skip(j));
    lemma_encoding_of_concat(text.take(j), text.skip(j));
    assert(text.take(0) =~= Seq::<char>::empty());
    assert(text.take(text.len() as int) =~= text);
}

/// Where a character begins, the encoding has a character boundary.
pub proof fn lemma_offset_is_boundary(text: Seq<char>, k: int)
    requires
        0 <= k <= text.len(),
    ensures
        is_char_boundary(encode_utf8(text), offset_of(text, k)),
    decreases k,
{
    let bytes = encode_utf8(text);
    encode_utf8_valid_utf8(text);
    lemma_offsets_ordered(text, 0, k);
    if offset_of(text, k) != 0 {
        assert(k > 0);
        let rest = text.drop_first();
        encode_utf8_first_scalar(text);
        assert(pop_first_scalar(bytes) =~= encode_utf8(rest));
        assert(text.take(k).drop_first() =~= rest.take(k - 1));
        assert(text.take(k)[0] == text[0]);
        assert(offset_of(text, k) == encode_scalar(text[0] as u32).len() + offset_of(rest, k - 1));
        lemma_offset_is_boundary(rest, k - 1);
    }
}

/// Every character boundary of the encoding is where some character
/// begins, or the end of the text.
pub proof fn lemma_boundary_is_offset(text: Seq<char>, index: int) -> (k: int)
    requires
        is_char_boundary(encode_utf8(text), index),
    ensures
        0 <= k <= text.len(),
        offset_of(text, k) == index,
    decreases text.len(),
{
    let bytes = encode_utf8(text);
    encode_utf8_valid_utf8(text);
    if index == 0 {
        assert(text.take(0) =~= Seq::<char>::empty());
        0
    } else {
        lemma_boundary_within(bytes, index);
        assert(text.len() > 0);
        let rest = text.drop_first();
        encode_utf8_first_scalar(text);
        assert(pop_first_scalar(bytes) =~= encode_utf8(rest));
        let below: int = lemma_boundary_is_offset(rest, index - length_of_first_scalar(bytes));
        assert(text.take(below + 1).drop_first() =~= rest.take(below));
        assert(text.take(below + 1)[0] == text[0]);
        below + 1
    }
}

/// Between the offsets of two positions lie the characters between the
/// positions.
pub proof fn lemma_text_between_offsets(text: Seq<char>, i: int, j: int)
    requires
        0 <= i <= j <= text.len(),
    ensures
        text_between(text, offset_of(text, i), offset_of(text, j)) == text.subrange(i, j),
{
    let head = text.take(i);
    let middle = text.subrange(i, j);
    let tail = text.skip(j);
    assert(text.take(j) =~= head + middle);
    assert(text =~= text.take(j) + tail);
    lemma_encoding_of_concat(head, middle);
    lemma_encoding_of_concat(text.take(j), tail);
    assert(encode_utf8(text).subrange(offset_of(text, i), offset_of(text, j)) =~= encode_utf8(
        middle,
    ));
    encode_utf8_decode_utf8(middle);
}

/// A range that fits a text covers whole characters: its piece is the
/// characters from some position of the text up to another.
pub proof fn lemma_fitting_span_covers_characters(span: Span, text: Seq<char>) -> (ends: (int, int))
    requires
        span.fits(text),
    ensures
        0 <= ends.0 <= ends.1 <= text.len(),
        offset_of(text, ends.0) == span.start,
        offset_of(text, ends.1) == span.end,
        span.of(text) == text.subrange(ends.0, ends.1),
{
    let i: int = lemma_boundary_is_offset(text, span.start as int);
    let j: int = if span.start == span.end {
        i
    } else {
        lemma_boundary_is_offset(text, span.end as int)
    };
    if j < i {
        lemma_offsets_ordered(text, j, i);
    }
    lemma_text_between_offsets(text, i, j);
    (i, j)
}

/// In a text of ASCII characters every character is one byte: offsets and
/// positions are the same.
pub proof fn lemma_ascii_offsets(text: Seq<char>, k: int)
    requires
        is_ascii_chars(text),
        0 <= k <= text.len(),
    ensures
        offset_of(text, k) == k,
{
    is_ascii_chars_encode_utf8(text.take(k));
}

/// Two texts with the same encoding are the same text.
pub proof fn lemma_same_encoding(a: Seq<char>, b: Seq<char>)
    requires
        encode_utf8(a) == encode_utf8(b),
    ensures
        a == b,
{
    encode_utf8_decode_utf8(a);
    encode_utf8_decode_utf8(b);
}

} // verus!
