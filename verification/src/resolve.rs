//! What one placeholder is replaced with.

use crate::text::same_text;
use vstd::prelude::*;
use vstd::string::*;

verus! {

/// The separator that asks for the default also when the value is empty.
pub open spec fn strict_separator() -> Seq<char> {
    seq![':', '-']
}

/// The default text of a placeholder: what follows its separator, or
/// nothing where no such text was captured.
pub open spec fn default_text(fallback: Option<Seq<char>>) -> Seq<char> {
    match fallback {
        Some(text) => text,
        None => Seq::empty(),
    }
}

/// The text that takes the place of one placeholder.
///
/// `separator` and `fallback` are the two parts of its default clause, where
/// it has one; `whole` is the placeholder as it stands in the line; `value` is
/// the value of its variable, where the variable is set.
///
/// * Without a default clause the value is used; if there is none the
///   placeholder stays as it is.
/// * With the separator `:-` the value is used if it is set and not empty,
///   else the default.
/// * With any other separator the value is used if it is set, be it empty,
///   else the default.
pub open spec fn resolution(
    separator: Option<Seq<char>>,
    fallback: Option<Seq<char>>,
    whole: Seq<char>,
    value: Option<Seq<char>>,
) -> Seq<char> {
    match (separator, value) {
        (None, Some(v)) => v,
        (None, None) => whole,
        (Some(token), Some(v)) => if token == strict_separator() && v.len() == 0 {
            default_text(fallback)
        } else {
            v
        },
        (Some(_), None) => default_text(fallback),
    }
}

/// Whether `token` is the separator `:-`.
pub fn is_strict(token: &str) -> (strict: bool)
    ensures
        strict == (token@ == strict_separator()),
{
    proof {
        reveal_strlit(":-");
        assert(":-"@ =~= strict_separator());
    }
    same_text(token, ":-")
}

/// Chooses the replacement for one placeholder.
pub fn resolve<'a>(
    separator: Option<&'a str>,
    fallback: Option<&'a str>,
    whole: &'a str,
    value: &'a Option<String>,
) -> (replacement: &'a str)
    ensures
        replacement@ == resolution(
            separator.deep_view(),
            fallback.deep_view(),
            whole@,
            value.deep_view(),
        ),
{
    let default: &'a str = match fallback {
        Some(text) => text,
        None => "",
    };
    proof {
        reveal_strlit("");
        assert(""@ =~= Seq::<char>::empty());
    }
    match separator {
        None => match value {
            Some(v) => v.as_str(),
            None => whole,
        },
        Some(token) => match value {
            Some(v) => if is_strict(token) && v.as_str().is_empty() {
                default
            } else {
                v.as_str()
            },
            None => default,
        },
    }
}

} // verus!
