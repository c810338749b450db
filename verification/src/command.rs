//! What a run is asked to do, decided from its parsed arguments.

use crate::matcher::{placeholder_pattern, PatternError};
use crate::binding::{
    bound_in_turn, environment_bindings, named_bindings, names_of, BindingView,
};
use crate::scope::{all_compile, first_refused, Scope};
use vstd::prelude::*;
use vstd::string::*;

verus! {

/// The opening delimiter where none is given: `${`.
pub open spec fn default_prefix() -> Seq<char> {
    seq!['$', '{']
}

/// The closing delimiter where none is given: `}`.
pub open spec fn default_suffix() -> Seq<char> {
    seq!['}']
}

/// The arguments of a run, as the option parser found them.
#[derive(Debug)]
pub struct Arguments {
    /// The usage was asked for.
    pub help: bool,
    /// The version was asked for.
    pub version: bool,
    /// The variables that substitution is restricted to, in the order
    /// given. None given: no restriction.
    pub variables: Vec<String>,
    /// The opening delimiter, where one was given.
    pub prefix: Option<String>,
    /// The closing delimiter, where one was given.
    pub suffix: Option<String>,
}

/// How the lines are to be substituted.
#[derive(Debug)]
pub struct Settings {
    pub prefix: String,
    pub suffix: String,
    /// The only variables to substitute; if empty, the whole environment.
    pub variables: Vec<String>,
}

/// What a run does.
#[derive(Debug)]
pub enum Command {
    /// Print the usage and stop.
    Help,
    /// Print the version and stop.
    Version,
    /// Substitute the input line by line.
    Run(Settings),
}

/// The text of an optional delimiter, or the default in its place.
pub open spec fn delimiter_or(given: Option<String>, default: Seq<char>) -> Seq<char> {
    match given {
        Some(text) => text@,
        None => default,
    }
}

/// Decides what a run does. A request for the usage goes before one for
/// the version, and either goes before any substitution.
pub fn plan(arguments: Arguments) -> (command: Command)
    ensures
        arguments.help ==> command is Help,
        !arguments.help && arguments.version ==> command is Version,
        !arguments.help && !arguments.version ==> (command matches Command::Run(settings) && {
            &&& settings.prefix@ == delimiter_or(arguments.prefix, default_prefix())
            &&& settings.suffix@ == delimiter_or(arguments.suffix, default_suffix())
            &&& settings.variables == arguments.variables
        }),
{
    if arguments.help {
        return Command::Help;
    }
    if arguments.version {
        return Command::Version;
    }
    proof {
        reveal_strlit("${");
        reveal_strlit("}");
        assert("${"@ =~= default_prefix());
        assert("}"@ =~= default_suffix());
    }
    let prefix = match arguments.prefix {
        Some(text) => text,
        None => "${".to_owned(),
    };
    let suffix = match arguments.suffix {
        Some(text) => text,
        None => "}".to_owned(),
    };
    Command::Run(Settings { prefix, suffix, variables: arguments.variables })
}

impl Settings {
    /// The bindings that these settings ask for, given the environment:
    /// those of the named variables, or of every variable of the
    /// environment where none is named.
    pub open spec fn asked(&self, environment: Seq<(String, String)>) -> Seq<BindingView> {
        if self.variables@.len() > 0 {
            named_bindings(self.variables@, environment)
        } else {
            environment_bindings(environment)
        }
    }

    /// Builds the scope of the run from a snapshot of the environment.
    ///
    /// Fails with the first pattern that does not compile.
    pub fn scope(&self, environment: &Vec<(String, String)>) -> (made: Result<Scope, PatternError>)
        ensures
            made is Ok <==> all_compile(self.prefix@, names_of(self.asked(environment@)), self.suffix@),
            made matches Ok(scope) ==> {
                &&& scope.wf()
                &&& scope@.prefix == self.prefix@
                &&& scope@.suffix == self.suffix@
                &&& scope.bindings() == bound_in_turn(self.asked(environment@))
            },
            made matches Err(error) ==> exists|i: int| #[trigger]
                first_refused(self.prefix@, names_of(self.asked(environment@)), self.suffix@, i) && error.pattern@
                    == placeholder_pattern(self.prefix@, names_of(self.asked(environment@))[i], self.suffix@),
    {
        if self.variables.len() > 0 {
            assert(self.asked(environment@) == named_bindings(self.variables@, environment@));
            Scope::from_names(
                self.prefix.as_str(),
                self.suffix.as_str(),
                &self.variables,
                environment,
            )
        } else {
            assert(self.asked(environment@) == environment_bindings(environment@));
            Scope::from_environment(self.prefix.as_str(), self.suffix.as_str(), environment)
        }
    }
}

} // verus!
