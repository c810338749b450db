//! The variables that a run substitutes, each with its compiled pattern, and
//! the substitution of a line.

use crate::binding::{
    bound, bound_all, bound_in_turn, environment_bindings, named_bindings, names_of, views_of,
    Binding, BindingView,
};
use crate::matcher::{compiles, placeholder_pattern, Matcher, PatternError};
use crate::occurrence::lemma_expansion_of_nothing;
use crate::text::same_text;
use vstd::prelude::*;
use vstd::string::*;

verus! {

/// A binding together with the pattern for its placeholders.
#[derive(Debug)]
pub struct Entry {
    pub binding: Binding,
    pub matcher: Matcher,
}

impl Entry {
    /// `text` with the placeholders of this variable replaced.
    pub open spec fn applied(&self, text: Seq<char>) -> Seq<char> {
        self.matcher.replaced(text, self.binding@.value)
    }
}

/// `entries` after `entry` was installed: it takes the place of the first
/// entry for the same variable, or comes last where the variable is new.
pub open spec fn installed(entries: Seq<Entry>, entry: Entry) -> Seq<Entry>
    decreases entries.len(),
{
    if entries.len() == 0 {
        seq![entry]
    } else if entries[0].binding@.name == entry.binding@.name {
        seq![entry] + entries.drop_first()
    } else {
        seq![entries[0]] + installed(entries.drop_first(), entry)
    }
}

/// The pattern of every one of `names` compiles.
pub open spec fn all_compile(prefix: Seq<char>, names: Seq<Seq<char>>, suffix: Seq<char>) -> bool {
    forall|i: int| 0 <= i < names.len() ==> compiles(prefix, #[trigger] names[i], suffix)
}

/// `names[i]` is the first of `names` whose pattern does not compile.
pub open spec fn first_refused(
    prefix: Seq<char>,
    names: Seq<Seq<char>>,
    suffix: Seq<char>,
    i: int,
) -> bool {
    &&& 0 <= i < names.len()
    &&& !compiles(prefix, names[i], suffix)
    &&& forall|j: int| 0 <= j < i ==> compiles(prefix, #[trigger] names[j], suffix)
}

/// The line after the first `n` entries were applied to it in turn, each
/// to what the one before it made of the line.
pub open spec fn substituted_upto(entries: Seq<Entry>, line: Seq<char>, n: int) -> Seq<char>
    decreases n,
{
    if n <= 0 {
        line
    } else {
        entries[n - 1].applied(substituted_upto(entries, line, n - 1))
    }
}

/// The bindings of the entries, in their order.
pub open spec fn bindings_of(entries: Seq<Entry>) -> Seq<BindingView> {
    Seq::new(entries.len(), |i: int| entries[i].binding@)
}

/// A scope as the contracts see it.
pub struct ScopeView {
    pub prefix: Seq<char>,
    pub suffix: Seq<char>,
    pub entries: Seq<Entry>,
}

/// The variables in scope, with the delimiters of their placeholders.
///
/// The variables are substituted in the order in which they were first
/// bound. The order shows where the value of one variable holds a
/// placeholder of another: a later variable is substituted in what the
/// earlier ones have put into the line.
#[derive(Debug)]
pub struct Scope {
    prefix: String,
    suffix: String,
    entries: Vec<Entry>,
}

impl View for Scope {
    type V = ScopeView;

    closed spec fn view(&self) -> ScopeView {
        ScopeView { prefix: self.prefix@, suffix: self.suffix@, entries: self.entries@ }
    }
}

impl Scope {
    /// Every pattern is the one for its variable between the delimiters of
    /// the scope, and no variable occurs twice.
    pub open spec fn wf(&self) -> bool {
        &&& forall|i: int|
            0 <= i < self@.entries.len() ==> (#[trigger] self@.entries[i]).matcher.source()
                == placeholder_pattern(self@.prefix, self@.entries[i].binding@.name, self@.suffix)
        &&& forall|i: int, j: int|
            0 <= i < j < self@.entries.len() ==> (#[trigger] self@.entries[i]).binding@.name != (
            #[trigger] self@.entries[j]).binding@.name
    }

    /// The bindings in scope, in the order in which they are applied.
    pub open spec fn bindings(&self) -> Seq<BindingView> {
        bindings_of(self@.entries)
    }

    /// The line with every variable in scope substituted.
    pub open spec fn substituted(&self, line: Seq<char>) -> Seq<char> {
        substituted_upto(self@.entries, line, self@.entries.len() as int)
    }

    /// No pattern of the scope finds a placeholder in `line`.
    pub open spec fn finds_nothing_in(&self, line: Seq<char>) -> bool {
        forall|i: int|
            0 <= i < self@.entries.len() ==> (#[trigger] self@.entries[i]).matcher.found_in(
                line,
            ).len() == 0
    }

    /// A scope without variables.
    pub fn new(prefix: &str, suffix: &str) -> (scope: Scope)
        ensures
            scope.wf(),
            scope@.prefix == prefix@,
            scope@.suffix == suffix@,
            scope@.entries.len() == 0,
    {
        Scope { prefix: prefix.to_owned(), suffix: suffix.to_owned(), entries: Vec::new() }
    }

    /// A scope with the given bindings, bound in their order.
    ///
    /// Fails with the first pattern that does not compile.
    pub fn from_bindings(prefix: &str, suffix: &str, bindings: &Vec<Binding>) -> (made: Result<
        Scope,
        PatternError,
    >)
        ensures
            made is Ok <==> all_compile(prefix@, names_of(views_of(bindings@)), suffix@),
            made matches Ok(scope) ==> {
                &&& scope.wf()
                &&& scope@.prefix == prefix@
                &&& scope@.suffix == suffix@
                &&& scope.bindings() == bound_in_turn(views_of(bindings@))
            },
            made matches Err(error) ==> exists|i: int| #[trigger]
                first_refused(prefix@, names_of(views_of(bindings@)), suffix@, i) && error.pattern@
                    == placeholder_pattern(prefix@, names_of(views_of(bindings@))[i], suffix@),
    {
        let ghost names = names_of(views_of(bindings@));
        let mut scope = Scope::new(prefix, suffix);
        assert(scope.bindings() =~= Seq::empty());
        let mut i: usize = 0;
        while i < bindings.len()
            invariant
                i <= bindings.len(),
                names == names_of(views_of(bindings@)),
                scope.wf(),
                scope@.prefix == prefix@,
                scope@.suffix == suffix@,
                scope.bindings() == bound_all(Seq::empty(), views_of(bindings@), i as int),
                forall|j: int| 0 <= j < i ==> compiles(prefix@, #[trigger] names[j], suffix@),
            decreases bindings.len() - i,
        {
            let binding = bindings[i].duplicate();
            assert(views_of(bindings@)[i as int] == binding@);
            assert(names[i as int] == binding@.name);
            match scope.bind(binding) {
                Ok(()) => {},
                Err(error) => {
                    assert(first_refused(prefix@, names, suffix@, i as int));
                    return Err(error);
                },
            }
            i += 1;
        }
        Ok(scope)
    }

    /// A scope with every variable of `environment`.
    ///
    /// Fails with the first pattern that does not compile.
    pub fn from_environment(prefix: &str, suffix: &str, environment: &Vec<(String, String)>) -> (made:
        Result<Scope, PatternError>)
        ensures
            made is Ok <==> all_compile(prefix@, names_of(environment_bindings(environment@)), suffix@),
            made matches Ok(scope) ==> {
                &&& scope.wf()
                &&& scope@.prefix == prefix@
                &&& scope@.suffix == suffix@
                &&& scope.bindings() == bound_in_turn(environment_bindings(environment@))
            },
            made matches Err(error) ==> exists|i: int| #[trigger]
                first_refused(prefix@, names_of(environment_bindings(environment@)), suffix@, i) && error.pattern@
                    == placeholder_pattern(prefix@, names_of(environment_bindings(environment@))[i], suffix@),
    {
        let mut bindings: Vec<Binding> = Vec::new();
        let mut i: usize = 0;
        while i < environment.len()
            invariant
                i <= environment.len(),
                bindings@.len() == i,
                forall|j: int|
                    0 <= j < i ==> (#[trigger] bindings@[j])@ == environment_bindings(
                        environment@,
                    )[j],
            decreases environment.len() - i,
        {
            bindings.push(
                Binding {
                    name: environment[i].0.clone(),
                    value: Some(environment[i].1.clone()),
                },
            );
            i += 1;
        }
        assert(views_of(bindings@) =~= environment_bindings(environment@));
        Scope::from_bindings(prefix, suffix, &bindings)
    }

    /// A scope with the variables called `names` and no others. A name that
    /// `environment` does not hold is in scope all the same, without a value.
    ///
    /// Fails with the first pattern that does not compile.
    pub fn from_names(
        prefix: &str,
        suffix: &str,
        names: &Vec<String>,
        environment: &Vec<(String, String)>,
    ) -> (made: Result<Scope, PatternError>)
        ensures
            made is Ok <==> all_compile(prefix@, names_of(named_bindings(names@, environment@)), suffix@),
            made matches Ok(scope) ==> {
                &&& scope.wf()
                &&& scope@.prefix == prefix@
                &&& scope@.suffix == suffix@
                &&& scope.bindings() == bound_in_turn(named_bindings(names@, environment@))
            },
            made matches Err(error) ==> exists|i: int| #[trigger]
                first_refused(prefix@, names_of(named_bindings(names@, environment@)), suffix@, i) && error.pattern@
                    == placeholder_pattern(prefix@, names_of(named_bindings(names@, environment@))[i], suffix@),
    {
        let mut bindings: Vec<Binding> = Vec::new();
        let mut i: usize = 0;
        while i < names.len()
            invariant
                i <= names.len(),
                bindings@.len() == i,
                forall|j: int|
                    0 <= j < i ==> (#[trigger] bindings@[j])@ == named_bindings(
                        names@,
                        environment@,
                    )[j],
            decreases names.len() - i,
        {
            bindings.push(Binding::lookup(names[i].as_str(), environment));
            i += 1;
        }
        assert(views_of(bindings@) =~= named_bindings(names@, environment@));
        Scope::from_bindings(prefix, suffix, &bindings)
    }

    /// The opening delimiter of the placeholders.
    pub fn prefix(&self) -> (text: &str)
        ensures
            text@ == self@.prefix,
    {
        self.prefix.as_str()
    }

    /// The closing delimiter of the placeholders.
    pub fn suffix(&self) -> (text: &str)
        ensures
            text@ == self@.suffix,
    {
        self.suffix.as_str()
    }

    /// The number of variables in scope.
    pub fn len(&self) -> (n: usize)
        ensures
            n == self@.entries.len(),
    {
        self.entries.len()
    }

    /// The binding of the variable `name`, if it is in scope.
    pub fn get(&self, name: &str) -> (binding: Option<&Binding>)
        ensures
            binding is None <==> forall|i: int|
                0 <= i < self@.entries.len() ==> (#[trigger] self@.entries[i]).binding@.name
                    != name@,
            binding matches Some(b) ==> b@.name == name@ && exists|i: int|
                0 <= i < self@.entries.len() && (#[trigger] self@.entries[i]).binding == *b,
    {
        let mut i: usize = 0;
        while i < self.entries.len()
            invariant
                i <= self.entries.len(),
                forall|j: int|
                    0 <= j < i ==> (#[trigger] self@.entries[j]).binding@.name != name@,
            decreases self.entries.len() - i,
        {
            if same_text(self.entries[i].binding.name.as_str(), name) {
                return Some(&self.entries[i].binding);
            }
            i += 1;
        }
        None
    }

    /// Puts a variable in scope with a pattern that was compiled for it.
    /// A variable that is in scope already keeps its place and takes the
    /// new value and pattern.
    pub fn install(&mut self, binding: Binding, matcher: Matcher)
        requires
            old(self).wf(),
            matcher.source() == placeholder_pattern(
                old(self)@.prefix,
                binding@.name,
                old(self)@.suffix,
            ),
        ensures
            final(self).wf(),
            final(self)@.prefix == old(self)@.prefix,
            final(self)@.suffix == old(self)@.suffix,
            final(self)@.entries == installed(old(self)@.entries, (Entry { binding, matcher })),
            final(self).bindings() == bound(old(self).bindings(), binding@),
    {
        let ghost entry = Entry { binding, matcher };
        proof {
            lemma_installed_bindings(self@.entries, entry);
        }
        let mut i: usize = 0;
        while i < self.entries.len()
            invariant
                i <= self.entries.len(),
                *self == *old(self),
                old(self).wf(),
                entry == (Entry { binding, matcher }),
                matcher.source() == placeholder_pattern(
                    old(self)@.prefix,
                    binding@.name,
                    old(self)@.suffix,
                ),
                bindings_of(installed(old(self)@.entries, entry)) == bound(
                    old(self).bindings(),
                    binding@,
                ),
                forall|j: int|
                    0 <= j < i ==> (#[trigger] self@.entries[j]).binding@.name != binding@.name,
            decreases self.entries.len() - i,
        {
            if same_text(self.entries[i].binding.name.as_str(), binding.name.as_str()) {
                proof {
                    lemma_installed_at(self@.entries, entry, i as int);
                }
                self.entries[i] = Entry { binding, matcher };
                return ;
            }
            i += 1;
        }
        proof {
            lemma_installed_new(self@.entries, entry);
        }
        self.entries.push(Entry { binding, matcher });
    }

    /// Puts a variable in scope: compiles the pattern for its placeholders
    /// and installs it. Where the pattern does not compile, and only there,
    /// it fails and the scope stays as it was.
    pub fn bind(&mut self, binding: Binding) -> (done: Result<(), PatternError>)
        requires
            old(self).wf(),
        ensures
            done is Ok <==> compiles(old(self)@.prefix, binding@.name, old(self)@.suffix),
            final(self).wf(),
            final(self)@.prefix == old(self)@.prefix,
            final(self)@.suffix == old(self)@.suffix,
            done is Ok ==> final(self).bindings() == bound(old(self).bindings(), binding@),
            done is Ok ==> forall|i: int|
                0 <= i < old(self)@.entries.len() && (#[trigger] old(self)@.entries[i]).binding@.name
                    != binding@.name ==> final(self)@.entries[i] == old(self)@.entries[i],
            done is Err ==> *final(self) == *old(self),
            done matches Err(error) ==> error.pattern@ == placeholder_pattern(
                old(self)@.prefix,
                binding@.name,
                old(self)@.suffix,
            ),
    {
        let made = Matcher::compile(
            self.prefix.as_str(),
            binding.name.as_str(),
            self.suffix.as_str(),
        );
        match made {
            Ok(matcher) => {
                proof {
                    lemma_installed_keeps(self@.entries, Entry { binding, matcher });
                }
                self.install(binding, matcher);
                Ok(())
            },
            Err(error) => Err(error),
        }
    }

    /// Substitutes every variable in scope, one after the other, each in
    /// what the one before it made of the line.
    ///
    /// To substitute twice is not the same as to substitute once: a value
    /// that was put into the line may hold a placeholder of a variable that
    /// had its turn before, and a second run replaces that one too.
    pub fn substitute(&self, line: &str) -> (out: String)
        ensures
            out@ == self.substituted(line@),
            self.finds_nothing_in(line@) ==> out@ == line@,
    {
        proof {
            if self.finds_nothing_in(line@) {
                lemma_untouched(self@.entries, line@, self@.entries.len() as int);
            }
        }
        let mut out = line.to_owned();
        let mut i: usize = 0;
        while i < self.entries.len()
            invariant
                i <= self.entries.len(),
                out@ == substituted_upto(self@.entries, line@, i as int),
            decreases self.entries.len() - i,
        {
            let entry = &self.entries[i];
            out = entry.matcher.replace_all(out.as_str(), &entry.binding.value);
            i += 1;
        }
        out
    }
}

/// A line in which none of the first `n` patterns finds a placeholder
/// passes through those `n` entries as it is.
pub proof fn lemma_untouched(entries: Seq<Entry>, line: Seq<char>, n: int)
    requires
        n <= entries.len(),
        forall|i: int| 0 <= i < n ==> (#[trigger] entries[i]).matcher.found_in(line).len() == 0,
    ensures
        substituted_upto(entries, line, n) == line,
    decreases n,
{
    if n > 0 {
        lemma_untouched(entries, line, n - 1);
        let entry = entries[n - 1];
        assert(entry.matcher.found_in(line) =~= Seq::empty());
        lemma_expansion_of_nothing(line, entry.binding@.value);
    }
}

/// A line without placeholders is left as it is: where no pattern of the
/// scope finds anything in the line, substitution gives the line back.
pub proof fn lemma_line_without_placeholders(scope: Scope, line: Seq<char>)
    requires
        scope.finds_nothing_in(line),
    ensures
        scope.substituted(line) == line,
{
    lemma_untouched(scope@.entries, line, scope@.entries.len() as int);
}

/// Installing an entry for a variable that is there at `k` and not before
/// changes the entry at `k` and no other.
pub proof fn lemma_installed_at(entries: Seq<Entry>, entry: Entry, k: int)
    requires
        0 <= k < entries.len(),
        entries[k].binding@.name == entry.binding@.name,
        forall|j: int| 0 <= j < k ==> (#[trigger] entries[j]).binding@.name != entry.binding@.name,
    ensures
        installed(entries, entry) == entries.update(k, entry),
    decreases k,
{
    if k == 0 {
        assert(installed(entries, entry) =~= entries.update(k, entry));
    } else {
        let rest = entries.drop_first();
        assert(entries[0].binding@.name != entry.binding@.name);
        assert forall|j: int| 0 <= j < k - 1 implies (#[trigger] rest[j]).binding@.name
            != entry.binding@.name by {
            assert(rest[j] == entries[j + 1]);
        }
        lemma_installed_at(rest, entry, k - 1);
        assert(installed(entries, entry) =~= entries.update(k, entry));
    }
}

/// Installing an entry for a variable that is not there adds it at the end.
pub proof fn lemma_installed_new(entries: Seq<Entry>, entry: Entry)
    requires
        forall|j: int|
            0 <= j < entries.len() ==> (#[trigger] entries[j]).binding@.name
                != entry.binding@.name,
    ensures
        installed(entries, entry) == entries.push(entry),
    decreases entries.len(),
{
    if entries.len() == 0 {
        assert(installed(entries, entry) =~= entries.push(entry));
    } else {
        let rest = entries.drop_first();
        assert(entries[0].binding@.name != entry.binding@.name);
        assert forall|j: int| 0 <= j < rest.len() implies (#[trigger] rest[j]).binding@.name
            != entry.binding@.name by {
            assert(rest[j] == entries[j + 1]);
        }
        lemma_installed_new(rest, entry);
        assert(installed(entries, entry) =~= entries.push(entry));
    }
}

/// Installing an entry loses none and leaves the entries of the other
/// variables where and as they were.
pub proof fn lemma_installed_keeps(entries: Seq<Entry>, entry: Entry)
    ensures
        entries.len() <= installed(entries, entry).len() <= entries.len() + 1,
        forall|i: int|
            0 <= i < entries.len() && (#[trigger] entries[i]).binding@.name
                != entry.binding@.name ==> installed(entries, entry)[i] == entries[i],
    decreases entries.len(),
{
    if entries.len() > 0 && entries[0].binding@.name != entry.binding@.name {
        let rest = entries.drop_first();
        lemma_installed_keeps(rest, entry);
        assert forall|i: int|
            0 <= i < entries.len() && (#[trigger] entries[i]).binding@.name
                != entry.binding@.name implies installed(entries, entry)[i] == entries[i] by {
            if i > 0 {
                assert(rest[i - 1] == entries[i]);
            }
        }
    }
}

/// The bindings of the entries after one was installed are the bindings
/// after its binding was bound.
pub proof fn lemma_installed_bindings(entries: Seq<Entry>, entry: Entry)
    ensures
        bindings_of(installed(entries, entry)) == bound(bindings_of(entries), entry.binding@),
    decreases entries.len(),
{
    let after = installed(entries, entry);
    let before = bindings_of(entries);
    if entries.len() == 0 {
        assert(bindings_of(after) =~= bound(before, entry.binding@));
    } else {
        let rest = entries.drop_first();
        assert(bindings_of(rest) =~= before.drop_first());
        if entries[0].binding@.name != entry.binding@.name {
            lemma_installed_bindings(rest, entry);
            lemma_installed_keeps(rest, entry);
            assert(bindings_of(after) =~= seq![before[0]] + bindings_of(installed(rest, entry)));
        }
        assert(bindings_of(after) =~= bound(before, entry.binding@));
    }
}

} // verus!
