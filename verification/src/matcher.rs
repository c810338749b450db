//! The pattern that recognises the placeholders of one variable.

use crate::engine::{
    escaped, is_meta_character, regex_accepts, regex_captures, regex_source, search,
};
use crate::occurrence::{assemble, expansion, well_placed, Occurrence};
use regex::Regex;
use vstd::prelude::*;
use vstd::string::*;

verus! {

/// What stands between the name and the suffix in every pattern: an
/// optional default clause, made of a separator (`-` or `:-`) and the
/// shortest text that the suffix can follow.
pub open spec fn default_clause() -> Seq<char> {
    seq!['(', '(', ':', '?', '-', ')', '(', '.', '*', '?', ')', ')', '?', '?']
}

/// The number of the capture group that holds the separator: in
/// `((:?-)(.*?))??` the group opened by the second bracket.
pub const SEPARATOR_GROUP: usize = 2;

/// The number of the capture group that holds the default text: the group
/// opened by the third bracket.
pub const FALLBACK_GROUP: usize = 3;

/// The pattern for the placeholders of the variable `name` between the
/// delimiters `prefix` and `suffix`. The three are escaped, so that they
/// stand for themselves whatever they hold.
pub open spec fn placeholder_pattern(prefix: Seq<char>, name: Seq<char>, suffix: Seq<char>) -> Seq<
    char,
> {
    escaped(prefix) + escaped(name) + default_clause() + escaped(suffix)
}

/// What an escaped text stands for: each backslash is dropped and the
/// character after it taken as it is.
pub open spec fn read_back(pattern: Seq<char>) -> Seq<char>
    decreases pattern.len(),
{
    if pattern.len() == 0 {
        Seq::empty()
    } else if pattern[0] == '\\' && pattern.len() >= 2 {
        seq![pattern[1]] + read_back(pattern.skip(2))
    } else {
        seq![pattern[0]] + read_back(pattern.drop_first())
    }
}

/// Escaping loses nothing: an escaped text reads back as the text.
pub proof fn lemma_escaped_reads_back(text: Seq<char>)
    ensures
        read_back(escaped(text)) == text,
    decreases text.len(),
{
    if text.len() > 0 {
        let rest = text.drop_first();
        let pattern = escaped(text);
        lemma_escaped_reads_back(rest);
        if is_meta_character(text[0]) {
            assert(pattern.skip(2) =~= escaped(rest));
        } else {
            assert(pattern.drop_first() =~= escaped(rest));
        }
        assert(read_back(pattern) =~= text);
    }
}

/// Between the same delimiters two variables have the same pattern only
/// if they have the same name.
pub proof fn lemma_pattern_tells_names_apart(
    prefix: Seq<char>,
    suffix: Seq<char>,
    name: Seq<char>,
    other: Seq<char>,
)
    requires
        placeholder_pattern(prefix, name, suffix) == placeholder_pattern(prefix, other, suffix),
    ensures
        name == other,
{
    let head = escaped(prefix);
    let tail = default_clause() + escaped(suffix);
    let one = placeholder_pattern(prefix, name, suffix);
    let two = placeholder_pattern(prefix, other, suffix);
    assert(one =~= head + escaped(name) + tail);
    assert(two =~= head + escaped(other) + tail);
    assert(escaped(name).len() == escaped(other).len());
    assert(escaped(name) =~= one.subrange(
        head.len() as int,
        (head.len() + escaped(name).len()) as int,
    ));
    assert(escaped(other) =~= two.subrange(
        head.len() as int,
        (head.len() + escaped(other).len()) as int,
    ));
    lemma_escaped_reads_back(name);
    lemma_escaped_reads_back(other);
}

/// Whether the pattern for the placeholders of `name` compiles.
pub open spec fn compiles(prefix: Seq<char>, name: Seq<char>, suffix: Seq<char>) -> bool {
    regex_accepts(placeholder_pattern(prefix, name, suffix))
}

/// Writes the pattern for the placeholders of one variable.
pub fn placeholder(prefix: &str, name: &str, suffix: &str) -> (pattern: String)
    ensures
        pattern@ == placeholder_pattern(prefix@, name@, suffix@),
{
    proof {
        reveal_strlit("((:?-)(.*?))??");
        assert("((:?-)(.*?))??"@ =~= default_clause());
    }
    let mut pattern = regex::escape(prefix);
    pattern.append(regex::escape(name).as_str());
    pattern.append("((:?-)(.*?))??");
    pattern.append(regex::escape(suffix).as_str());
    pattern
}

/// A pattern that could not be compiled.
#[derive(Clone, Debug, PartialEq, Eq)]
pub struct PatternError {
    /// The pattern as it was handed to the compiler.
    pub pattern: String,
    /// What the compiler said of it.
    pub reason: String,
}

/// A compiled pattern.
#[derive(Debug)]
pub struct Matcher {
    regex: Regex,
}

impl Matcher {
    /// The compiled pattern inside.
    pub closed spec fn engine(&self) -> Regex {
        self.regex
    }

    /// The text of the pattern.
    pub open spec fn source(&self) -> Seq<char> {
        regex_source(&self.engine())
    }

    /// The placeholders that the pattern finds in `text`: its matches,
    /// each with the groups of the separator and of the default text.
    pub open spec fn found_in(&self, text: Seq<char>) -> Seq<Occurrence> {
        regex_captures(&self.engine(), text, SEPARATOR_GROUP, FALLBACK_GROUP)
    }

    /// `text` with each placeholder that the pattern finds replaced,
    /// given the value of the variable.
    pub open spec fn replaced(&self, text: Seq<char>, value: Option<Seq<char>>) -> Seq<char> {
        expansion(text, self.found_in(text), value)
    }

    /// Compiles the pattern for the placeholders of the variable `name`.
    /// It fails where the compiler does not accept the pattern, and only
    /// there.
    pub fn compile(prefix: &str, name: &str, suffix: &str) -> (made: Result<Matcher, PatternError>)
        ensures
            made is Ok <==> compiles(prefix@, name@, suffix@),
            made matches Ok(matcher) ==> matcher.source() == placeholder_pattern(
                prefix@,
                name@,
                suffix@,
            ),
            made matches Err(error) ==> error.pattern@ == placeholder_pattern(
                prefix@,
                name@,
                suffix@,
            ),
    {
        let pattern = placeholder(prefix, name, suffix);
        let compiled = Regex::new(pattern.as_str());
        Matcher::from_compiled(pattern, compiled)
    }

    /// Wraps what the compiler made of `pattern`, or reports its refusal.
    pub fn from_compiled(pattern: String, compiled: Result<Regex, regex::Error>) -> (made: Result<
        Matcher,
        PatternError,
    >)
        ensures
            made is Ok <==> compiled is Ok,
            made matches Ok(matcher) ==> matcher.engine() == compiled->Ok_0,
            made matches Err(error) ==> error.pattern == pattern,
    {
        match compiled {
            Ok(regex) => Ok(Matcher { regex }),
            Err(error) => Err(PatternError { pattern, reason: error.to_string() }),
        }
    }

    /// The text of the pattern.
    pub fn pattern(&self) -> (text: &str)
        ensures
            text@ == self.source(),
    {
        self.regex.as_str()
    }

    /// The placeholders in `text`, from left to right.
    pub fn occurrences(&self, text: &str) -> (found: Vec<Occurrence>)
        ensures
            found@ == self.found_in(text@),
            well_placed(found@, text@),
    {
        search(&self.regex, text, SEPARATOR_GROUP, FALLBACK_GROUP)
    }

    /// Replaces every placeholder in `text`.
    pub fn replace_all(&self, text: &str, value: &Option<String>) -> (out: String)
        ensures
            out@ == self.replaced(text@, value.deep_view()),
    {
        let found = search(&self.regex, text, SEPARATOR_GROUP, FALLBACK_GROUP);
        assemble(text, &found, value)
    }
}

} // verus!
