//! The placeholders found in a text, and the text with each of them replaced.

use crate::resolve::{resolution, resolve};
use crate::text::{byte_len, cut, lemma_boundary_within, text_between, Span};
use vstd::prelude::*;
use vstd::string::*;
use vstd::utf8::*;

verus! {

/// Where one placeholder stands in a text.
#[derive(Clone, Copy, Debug, PartialEq, Eq, Structural)]
pub struct Occurrence {
    /// The placeholder from its prefix to its suffix.
    pub whole: Span,
    /// The `-` or `:-` that opens its default clause, if it has one.
    pub separator: Option<Span>,
    /// The default text after the separator.
    pub fallback: Option<Span>,
}

/// The piece of `text` under an optional range.
pub open spec fn piece(span: Option<Span>, text: Seq<char>) -> Option<Seq<char>> {
    match span {
        Some(s) => Some(s.of(text)),
        None => None,
    }
}

/// An optional range fits `text` if there is none or the one there is fits.
pub open spec fn may_fit(span: Option<Span>, text: Seq<char>) -> bool {
    match span {
        Some(s) => s.fits(text),
        None => true,
    }
}

impl Occurrence {
    /// Every range of the occurrence can be cut out of `text`.
    pub open spec fn fits(self, text: Seq<char>) -> bool {
        &&& self.whole.fits(text)
        &&& may_fit(self.separator, text)
        &&& may_fit(self.fallback, text)
    }

    /// The replacement for this placeholder of `text`, given the value of
    /// its variable.
    pub open spec fn resolution_in(self, text: Seq<char>, value: Option<Seq<char>>) -> Seq<char> {
        resolution(
            piece(self.separator, text),
            piece(self.fallback, text),
            self.whole.of(text),
            value,
        )
    }

    /// Decides whether every range of the occurrence fits `text`.
    pub fn fits_in(&self, text: &str) -> (ok: bool)
        ensures
            ok == self.fits(text@),
    {
        let separator_ok = match &self.separator {
            Some(s) => s.fits_in(text),
            None => true,
        };
        let fallback_ok = match &self.fallback {
            Some(s) => s.fits_in(text),
            None => true,
        };
        self.whole.fits_in(text) && separator_ok && fallback_ok
    }

    /// Chooses the replacement for this placeholder of `text`.
    pub(crate) fn resolve_in<'a>(&self, text: &'a str, value: &'a Option<String>) -> (replacement:
        &'a str)
        requires
            self.fits(text@),
        ensures
            replacement@ == self.resolution_in(text@, value.deep_view()),
    {
        let separator: Option<&'a str> = match &self.separator {
            Some(s) => Some(cut(text, s.start, s.end)),
            None => None,
        };
        let fallback: Option<&'a str> = match &self.fallback {
            Some(s) => Some(cut(text, s.start, s.end)),
            None => None,
        };
        let whole = cut(text, self.whole.start, self.whole.end);
        resolve(separator, fallback, whole, value)
    }
}

/// The offset at which the text after the first `n` occurrences begins.
pub open spec fn resume(found: Seq<Occurrence>, n: int) -> int {
    if n <= 0 {
        0
    } else {
        found[n - 1].whole.end as int
    }
}

/// The occurrences can be replaced one after the other: each fits the text,
/// and none begins before the one before it has ended.
pub open spec fn well_placed(found: Seq<Occurrence>, text: Seq<char>) -> bool {
    forall|i: int|
        0 <= i < found.len() ==> (#[trigger] found[i]).fits(text) && resume(found, i)
            <= found[i].whole.start
}

/// The output for the part of `text` up to the end of its `n`-th
/// occurrence: the text before each of the first `n` occurrences as it
/// stands, and in place of each its replacement.
pub open spec fn expansion_upto(
    text: Seq<char>,
    found: Seq<Occurrence>,
    value: Option<Seq<char>>,
    n: int,
) -> Seq<char>
    decreases n,
{
    if n <= 0 {
        Seq::empty()
    } else {
        expansion_upto(text, found, value, n - 1) + text_between(
            text,
            resume(found, n - 1),
            found[n - 1].whole.start as int,
        ) + found[n - 1].resolution_in(text, value)
    }
}

/// The text with every occurrence replaced: what lies between the
/// occurrences stays, and so does what follows the last.
pub open spec fn expansion(text: Seq<char>, found: Seq<Occurrence>, value: Option<Seq<char>>) -> Seq<
    char,
> {
    expansion_upto(text, found, value, found.len() as int) + text_between(
        text,
        resume(found, found.len() as int),
        byte_len(text),
    )
}

/// A text in which nothing was found is left as it is.
pub proof fn lemma_expansion_of_nothing(text: Seq<char>, value: Option<Seq<char>>)
    ensures
        expansion(text, Seq::empty(), value) == text,
{
    crate::text::lemma_text_between_all(text);
    assert(expansion_upto(text, Seq::<Occurrence>::empty(), value, 0) =~= Seq::<char>::empty());
    assert(expansion(text, Seq::empty(), value) =~= text);
}

/// Decides whether the occurrences can be replaced one after the other.
pub fn is_well_placed(found: &Vec<Occurrence>, text: &str) -> (ok: bool)
    ensures
        ok == well_placed(found@, text@),
{
    let mut last: usize = 0;
    let mut i: usize = 0;
    while i < found.len()
        invariant
            i <= found.len(),
            last as int == resume(found@, i as int),
            forall|j: int|
                0 <= j < i ==> (#[trigger] found@[j]).fits(text@) && resume(found@, j)
                    <= found@[j].whole.start,
        decreases found.len() - i,
    {
        let occurrence = &found[i];
        if !occurrence.fits_in(text) || occurrence.whole.start < last {
            return false;
        }
        last = occurrence.whole.end;
        i += 1;
    }
    true
}

/// Replaces every occurrence, given that they are well placed.
pub(crate) fn assemble(text: &str, found: &Vec<Occurrence>, value: &Option<String>) -> (out: String)
    requires
        well_placed(found@, text@),
    ensures
        out@ == expansion(text@, found@, value.deep_view()),
{
    let mut out = String::new();
    let mut last: usize = 0;
    let mut i: usize = 0;
    proof {
        encode_utf8_valid_utf8(text@);
        is_char_boundary_start_end_of_seq(encode_utf8(text@));
    }
    while i < found.len()
        invariant
            i <= found.len(),
            well_placed(found@, text@),
            last as int == resume(found@, i as int),
            valid_utf8(encode_utf8(text@)),
            is_char_boundary(encode_utf8(text@), last as int),
            out@ == expansion_upto(text@, found@, value.deep_view(), i as int),
        decreases found.len() - i,
    {
        let occurrence = &found[i];
        assert(found@[i as int].fits(text@));
        out.append(cut(text, last, occurrence.whole.start));
        out.append(occurrence.resolve_in(text, value));
        last = occurrence.whole.end;
        i += 1;
    }
    let end = text.as_bytes().len();
    proof {
        is_char_boundary_start_end_of_seq(encode_utf8(text@));
        lemma_boundary_within(encode_utf8(text@), last as int);
    }
    out.append(cut(text, last, end));
    out
}

/// Replaces every occurrence in `text`, where that can be done: `None` is
/// returned for occurrences that do not fit the text or are out of order.
pub fn expand(text: &str, found: &Vec<Occurrence>, value: &Option<String>) -> (out: Option<String>)
    ensures
        out is Some <==> well_placed(found@, text@),
        out matches Some(expanded) ==> expanded@ == expansion(
            text@,
            found@,
            value.deep_view(),
        ),
{
    if is_well_placed(found, text) {
        Some(assemble(text, found, value))
    } else {
        None
    }
}

} // verus!
