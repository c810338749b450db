//! Variables and their values, and how a list of them is put in scope.

use crate::text::same_text;
use vstd::prelude::*;
use vstd::string::*;

verus! {

/// A variable and its value, where it has one. A variable without a value
/// is kept: its placeholders still fall back on their defaults.
#[derive(Clone, Debug, PartialEq, Eq)]
pub struct Binding {
    pub name: String,
    pub value: Option<String>,
}

/// A binding as the contracts see it.
pub struct BindingView {
    pub name: Seq<char>,
    pub value: Option<Seq<char>>,
}

impl View for Binding {
    type V = BindingView;

    open spec fn view(&self) -> BindingView {
        BindingView { name: self.name@, value: self.value.deep_view() }
    }
}

impl Binding {
    /// A copy of the binding.
    pub fn duplicate(&self) -> (copy: Binding)
        ensures
            copy@ == self@,
    {
        let value = match &self.value {
            Some(text) => Some(text.clone()),
            None => None,
        };
        Binding { name: self.name.clone(), value }
    }

    /// Binds `name` to the value of the first variable of that name in
    /// `environment`, or to none.
    pub fn lookup(name: &str, environment: &Vec<(String, String)>) -> (binding: Binding)
        ensures
            binding@.name == name@,
            binding@.value == value_in(environment@, name@),
    {
        let mut i: usize = 0;
        assert(environment@.skip(0) =~= environment@);
        while i < environment.len()
            invariant
                i <= environment.len(),
                value_in(environment@, name@) == value_in(environment@.skip(i as int), name@),
            decreases environment.len() - i,
        {
            proof {
                assert(environment@.skip(i as int)[0] == environment@[i as int]);
                assert(environment@.skip(i as int).drop_first() =~= environment@.skip(i + 1));
            }
            if same_text(environment[i].0.as_str(), name) {
                return Binding { name: name.to_owned(), value: Some(environment[i].1.clone()) };
            }
            i += 1;
        }
        Binding { name: name.to_owned(), value: None }
    }
}

/// The value of the first variable called `name` in an environment.
pub open spec fn value_in(environment: Seq<(String, String)>, name: Seq<char>) -> Option<Seq<char>>
    decreases environment.len(),
{
    if environment.len() == 0 {
        None
    } else if environment[0].0@ == name {
        Some(environment[0].1@)
    } else {
        value_in(environment.drop_first(), name)
    }
}

/// Every variable of an environment, bound to its value.
pub open spec fn environment_bindings(environment: Seq<(String, String)>) -> Seq<BindingView> {
    Seq::new(
        environment.len(),
        |i: int| BindingView { name: environment[i].0@, value: Some(environment[i].1@) },
    )
}

/// Each of `names`, bound to its value in an environment where it has one.
pub open spec fn named_bindings(names: Seq<String>, environment: Seq<(String, String)>) -> Seq<
    BindingView,
> {
    Seq::new(
        names.len(),
        |i: int| BindingView { name: names[i]@, value: value_in(environment, names[i]@) },
    )
}

/// The names of a list of bindings, in their order.
pub open spec fn names_of(bindings: Seq<BindingView>) -> Seq<Seq<char>> {
    Seq::new(bindings.len(), |i: int| bindings[i].name)
}

/// The views of a list of bindings.
pub open spec fn views_of(bindings: Seq<Binding>) -> Seq<BindingView> {
    Seq::new(bindings.len(), |i: int| bindings[i]@)
}

/// `bindings` after `binding` was bound: it takes the place of the first
/// binding of the same name, or comes last where the name is new.
pub open spec fn bound(bindings: Seq<BindingView>, binding: BindingView) -> Seq<BindingView>
    decreases bindings.len(),
{
    if bindings.len() == 0 {
        seq![binding]
    } else if bindings[0].name == binding.name {
        seq![binding] + bindings.drop_first()
    } else {
        seq![bindings[0]] + bound(bindings.drop_first(), binding)
    }
}

/// `bindings` after the first `n` of `more` were bound, one after the other.
pub open spec fn bound_all(bindings: Seq<BindingView>, more: Seq<BindingView>, n: int) -> Seq<
    BindingView,
>
    decreases n,
{
    if n <= 0 {
        bindings
    } else {
        bound(bound_all(bindings, more, n - 1), more[n - 1])
    }
}

/// The bindings in scope after each of `list` was bound, in their order,
/// starting with none.
pub open spec fn bound_in_turn(list: Seq<BindingView>) -> Seq<BindingView> {
    bound_all(Seq::empty(), list, list.len() as int)
}

/// After a binding was bound it is among the bindings, and so is every
/// binding of another name that was there before.
pub proof fn lemma_bound_holds(bindings: Seq<BindingView>, binding: BindingView)
    ensures
        bound(bindings, binding).contains(binding),
        forall|other: BindingView|
            bindings.contains(other) && other.name != binding.name ==> #[trigger] bound(
                bindings,
                binding,
            ).contains(other),
    decreases bindings.len(),
{
    let after = bound(bindings, binding);
    if bindings.len() == 0 {
        assert(after[0] == binding);
    } else if bindings[0].name == binding.name {
        assert(after[0] == binding);
        assert forall|other: BindingView|
            bindings.contains(other) && other.name != binding.name implies after.contains(
            other,
        ) by {
            let i: int = choose|i: int| 0 <= i < bindings.len() && bindings[i] == other;
            assert(after[i] == other);
        }
    } else {
        let rest = bindings.drop_first();
        lemma_bound_holds(rest, binding);
        let k: int = choose|k: int| 0 <= k < bound(rest, binding).len() && bound(rest, binding)[k]
            == binding;
        assert(after[k + 1] == binding);
        assert forall|other: BindingView|
            bindings.contains(other) && other.name != binding.name implies after.contains(
            other,
        ) by {
            let i: int = choose|i: int| 0 <= i < bindings.len() && bindings[i] == other;
            if i == 0 {
                assert(after[0] == other);
            } else {
                assert(rest[i - 1] == other);
                assert(bound(rest, binding).contains(other));
                let j: int = choose|j: int|
                    0 <= j < bound(rest, binding).len() && bound(rest, binding)[j] == other;
                assert(after[j + 1] == other);
            }
        }
    }
}

/// A binding that was bound stays among the bindings while the later ones
/// of its name are equal to it.
pub proof fn lemma_bound_all_holds(start: Seq<BindingView>, more: Seq<BindingView>, i: int, n: int)
    requires
        0 <= i < n <= more.len(),
        forall|j: int| i < j < n && more[j].name == more[i].name ==> more[j] == more[i],
    ensures
        bound_all(start, more, n).contains(more[i]),
    decreases n,
{
    let before = bound_all(start, more, n - 1);
    lemma_bound_holds(before, more[n - 1]);
    if i < n - 1 {
        lemma_bound_all_holds(start, more, i, n - 1);
    }
}

/// Every variable that is asked for by name is in scope, with its value
/// in the environment where it has one and without a value where it has
/// none.
pub proof fn lemma_named_variable_in_scope(
    names: Seq<String>,
    environment: Seq<(String, String)>,
    i: int,
)
    requires
        0 <= i < names.len(),
    ensures
        bound_in_turn(named_bindings(names, environment)).contains(
            BindingView { name: names[i]@, value: value_in(environment, names[i]@) },
        ),
{
    lemma_bound_all_holds(
        Seq::empty(),
        named_bindings(names, environment),
        i,
        names.len() as int,
    );
}

/// Every variable of the environment is in scope with its value, unless
/// the environment holds the name once more further on.
pub proof fn lemma_environment_variable_in_scope(environment: Seq<(String, String)>, i: int)
    requires
        0 <= i < environment.len(),
        forall|j: int| i < j < environment.len() ==> environment[j].0@ != environment[i].0@,
    ensures
        bound_in_turn(environment_bindings(environment)).contains(
            BindingView { name: environment[i].0@, value: Some(environment[i].1@) },
        ),
{
    lemma_bound_all_holds(
        Seq::empty(),
        environment_bindings(environment),
        i,
        environment.len() as int,
    );
}

/// Binding adds no binding but the one that is bound.
pub proof fn lemma_bound_adds_one(bindings: Seq<BindingView>, binding: BindingView)
    ensures
        forall|other: BindingView| #[trigger]
            bound(bindings, binding).contains(other) ==> other == binding || bindings.contains(
                other,
            ),
    decreases bindings.len(),
{
    let after = bound(bindings, binding);
    assert forall|other: BindingView| #[trigger] after.contains(other) implies other == binding
        || bindings.contains(other) by {
        let i: int = choose|i: int| 0 <= i < after.len() && after[i] == other;
        if bindings.len() == 0 {
        } else if bindings[0].name == binding.name {
            if i > 0 {
                assert(bindings[i] == other);
            }
        } else {
            let rest = bindings.drop_first();
            lemma_bound_adds_one(rest, binding);
            if i == 0 {
                assert(bindings[0] == other);
            } else {
                assert(bound(rest, binding)[i - 1] == other);
                assert(bound(rest, binding).contains(other));
                if other != binding {
                    let j: int = choose|j: int| 0 <= j < rest.len() && rest[j] == other;
                    assert(bindings[j + 1] == other);
                }
            }
        }
    }
}

/// Whatever is bound after the first `n` of `more` were bound was there at
/// the start or is one of those `n`.
pub proof fn lemma_bound_all_adds_those(
    start: Seq<BindingView>,
    more: Seq<BindingView>,
    n: int,
    other: BindingView,
)
    requires
        0 <= n <= more.len(),
        bound_all(start, more, n).contains(other),
    ensures
        start.contains(other) || exists|i: int| 0 <= i < n && more[i] == other,
    decreases n,
{
    if n > 0 {
        lemma_bound_adds_one(bound_all(start, more, n - 1), more[n - 1]);
        if other != more[n - 1] {
            lemma_bound_all_adds_those(start, more, n - 1, other);
        }
    }
}

/// Where variables are asked for by name, no other variable is in scope.
pub proof fn lemma_only_named_variables_in_scope(
    names: Seq<String>,
    environment: Seq<(String, String)>,
    binding: BindingView,
)
    requires
        bound_in_turn(named_bindings(names, environment)).contains(binding),
    ensures
        exists|i: int| 0 <= i < names.len() && (#[trigger] names[i])@ == binding.name,
{
    let asked = named_bindings(names, environment);
    lemma_bound_all_adds_those(Seq::empty(), asked, names.len() as int, binding);
    let i: int = choose|i: int| 0 <= i < names.len() && asked[i] == binding;
    assert(names[i]@ == binding.name);
}

} // verus!
