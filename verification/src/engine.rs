//! The boundary to the `regex` crate: its types, and what is taken on trust
//! about escaping a literal, compiling a pattern and searching a text.
//!
//! Nothing in this module is proved. Each item says what it assumes of the
//! function it stands for.

use crate::occurrence::{well_placed, Occurrence};
use crate::text::Span;
use regex::Regex;
use vstd::prelude::*;

verus! {

/// A compiled pattern of the `regex` crate, opaque to the verifier.
#[verifier::external_type_specification]
#[verifier::external_body]
pub struct ExRegex(Regex);

/// The error that `Regex::new` reports, opaque to the verifier.
#[verifier::external_type_specification]
#[verifier::external_body]
pub struct ExRegexError(regex::Error);

/// The characters that mean something in a pattern.
pub open spec fn is_meta_character(c: char) -> bool {
    c == '\\' || c == '.' || c == '+' || c == '*' || c == '?' || c == '(' || c == ')' || c == '|'
        || c == '[' || c == ']' || c == '{' || c == '}' || c == '^' || c == '$' || c == '#' || c
        == '&' || c == '-' || c == '~'
}

/// `text` with a backslash put before each of its meta characters.
pub open spec fn escaped(text: Seq<char>) -> Seq<char>
    decreases text.len(),
{
    if text.len() == 0 {
        Seq::empty()
    } else if is_meta_character(text[0]) {
        seq!['\\', text[0]] + escaped(text.drop_first())
    } else {
        seq![text[0]] + escaped(text.drop_first())
    }
}

/// `regex::escape` copies its argument character by character and puts a
/// backslash before each meta character.
pub assume_specification[ regex::escape ](pattern: &str) -> (quoted: String)
    ensures
        quoted@ == escaped(pattern@),
;

/// The pattern text that a compiled pattern was built from: what
/// `Regex::as_str` returns.
pub uninterp spec fn regex_source(regex: &Regex) -> Seq<char>;

/// `Regex::as_str` hands back the pattern text that was compiled.
pub assume_specification<'a>[ Regex::as_str ](regex: &'a Regex) -> (source: &'a str)
    ensures
        source@ == regex_source(regex),
;

/// Whether `Regex::new` accepts a pattern text: it does if the text parses
/// as a pattern and the compiled pattern stays within the compiler's size
/// limit.
///
/// The name stands for the `regex` crate as it is built into the program.
/// The limit is counted in bytes of the compiler's own structures, so a
/// pattern close to it may be accepted by one build and refused by another.
pub uninterp spec fn regex_accepts(pattern: Seq<char>) -> bool;

/// `Regex::new` decides by the pattern text alone whether it accepts it,
/// and a compiled pattern remembers the text it was given.
pub assume_specification[ Regex::new ](pattern: &str) -> (compiled: Result<Regex, regex::Error>)
    ensures
        compiled is Ok <==> regex_accepts(pattern@),
        compiled matches Ok(regex) ==> regex_source(&regex) == pattern@,
;

/// The matches that `Regex::captures_iter` yields for a compiled pattern
/// and a text, in the order in which it yields them. Of each match the
/// record keeps the byte range of the whole match and those of the capture
/// groups numbered `separator` and `fallback`, where there is such a group
/// and it took part in the match.
pub uninterp spec fn regex_captures(
    regex: &Regex,
    haystack: Seq<char>,
    separator: usize,
    fallback: usize,
) -> Seq<Occurrence>;

/// Runs `Regex::captures_iter` over `text` and copies out of each
/// `Captures` the byte ranges of the whole match and of the two capture
/// groups asked for.
///
/// Assumed of the iterator, as the crate documents it: its matches come
/// from left to right and do not overlap, and the ends of every reported
/// range fall on character boundaries of the text, the start not after the
/// end.
#[verifier::external_body]
pub(crate) fn search(regex: &Regex, text: &str, separator: usize, fallback: usize) -> (found: Vec<
    Occurrence,
>)
    ensures
        found@ == regex_captures(regex, text@, separator, fallback),
        well_placed(found@, text@),
{
    let span = |m: regex::Match| Span { start: m.start(), end: m.end() };
    let mut found = Vec::new();
    for captures in regex.captures_iter(text) {
        found.push(Occurrence {
            whole: span(captures.get_match()),
            separator: captures.get(separator).map(span),
            fallback: captures.get(fallback).map(span),
        });
    }
    found
}

} // verus!
