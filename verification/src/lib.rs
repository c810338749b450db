//! Substitution of shell-style variable placeholders in lines of text.
//!
//! A placeholder names a variable between two delimiters, `${NAME}` by
//! default, and may carry a default for when the variable has no value:
//! `${NAME-default}`, or `${NAME:-default}` to use the default for an empty
//! value too.
//!
//! * [`scope`] holds the variables of a run and substitutes a line.
//! * [`binding`] holds a variable with its value, and says which bindings a
//!   list of names or an environment puts in scope.
//! * [`matcher`] writes and compiles the pattern for one variable.
//! * [`occurrence`] replaces the placeholders that a pattern found.
//! * [`resolve`] chooses what one placeholder is replaced with.
//! * [`text`] cuts pieces out of a text by byte offsets.
//! * [`command`] decides from the arguments what a run does.
//! * [`engine`] is the boundary to the `regex` crate.

pub mod binding;
pub mod command;
pub mod engine;
pub mod matcher;
pub mod occurrence;
pub mod resolve;
pub mod scope;
pub mod text;
