use envsub::binding::Binding;
use envsub::scope::Scope;

fn env(pairs: &[(&str, &str)]) -> Vec<(String, String)> {
    pairs.iter().map(|(k, v)| (k.to_string(), v.to_string())).collect()
}

fn names(list: &[&str]) -> Vec<String> {
    list.iter().map(|n| n.to_string()).collect()
}

fn full(pairs: &[(&str, &str)]) -> Scope {
    Scope::from_environment("${", "}", &env(pairs)).unwrap()
}

fn only(list: &[&str], pairs: &[(&str, &str)]) -> Scope {
    Scope::from_names("${", "}", &names(list), &env(pairs)).unwrap()
}

#[test]
fn line_without_placeholders_is_unchanged() {
    let scope = full(&[("X", "hello"), ("HOME", "/root")]);
    for line in ["", "plain text", "price: $5 {x} }{ $", "$ {X}", "${ X }", "X", "${Y}"] {
        assert_eq!(scope.substitute(line), line);
    }
}

#[test]
fn empty_scope_changes_nothing() {
    let scope = Scope::new("${", "}");
    assert_eq!(scope.len(), 0);
    assert_eq!(scope.substitute("${X} and ${Y-z}"), "${X} and ${Y-z}");
}

#[test]
fn bound_variable_is_expanded() {
    assert_eq!(full(&[("X", "hello")]).substitute("${X}"), "hello");
}

#[test]
fn absent_variable_uses_default() {
    assert_eq!(only(&["X"], &[]).substitute("${X-fallback}"), "fallback");
}

#[test]
fn absent_variable_uses_default_with_colon_dash() {
    assert_eq!(only(&["X"], &[]).substitute("${X:-fallback}"), "fallback");
}

#[test]
fn empty_value_with_colon_dash_uses_default() {
    assert_eq!(full(&[("X", "")]).substitute("${X:-fallback}"), "fallback");
}

#[test]
fn empty_value_with_plain_dash_is_used() {
    assert_eq!(full(&[("X", "")]).substitute("${X-fallback}"), "");
}

#[test]
fn set_value_wins_over_default() {
    let scope = full(&[("X", "v")]);
    assert_eq!(scope.substitute("${X-fallback}"), "v");
    assert_eq!(scope.substitute("${X:-fallback}"), "v");
}

#[test]
fn absent_variable_without_default_is_left() {
    assert_eq!(only(&["X"], &[]).substitute("${X}"), "${X}");
    assert_eq!(only(&["X"], &[]).substitute("a ${X} b"), "a ${X} b");
}

#[test]
fn empty_default_is_allowed() {
    let scope = only(&["X"], &[]);
    assert_eq!(scope.substitute("[${X-}]"), "[]");
    assert_eq!(scope.substitute("[${X:-}]"), "[]");
}

#[test]
fn custom_delimiters() {
    let scope = Scope::from_environment("<<", ">>", &env(&[("X", "hi")])).unwrap();
    assert_eq!(scope.substitute("<<X>>"), "hi");
    assert_eq!(scope.substitute("${X}"), "${X}");
    assert_eq!(scope.substitute("<<X-d>> <<X>> ${X}"), "hi hi ${X}");
    assert_eq!(scope.prefix(), "<<");
    assert_eq!(scope.suffix(), ">>");
}

#[test]
fn restricted_scope_leaves_other_variables() {
    let scope = only(&["FOO"], &[("FOO", "1"), ("BAR", "2")]);
    assert_eq!(scope.substitute("${FOO}-${BAR}"), "1-${BAR}");
    assert_eq!(scope.len(), 1);
}

#[test]
fn full_scope_expands_every_variable() {
    let scope = full(&[("FOO", "1"), ("BAR", "2")]);
    assert_eq!(scope.substitute("${FOO}-${BAR}"), "1-2");
}

#[test]
fn substitution_is_not_idempotent() {
    let scope = full(&[("B", "x"), ("A", "${B}")]);
    let once = scope.substitute("${A}");
    assert_eq!(once, "${B}");
    let twice = scope.substitute(&once);
    assert_eq!(twice, "x");
    assert_ne!(once, twice);
}

#[test]
fn later_variable_sees_earlier_output() {
    let scope = full(&[("A", "${B}"), ("B", "x")]);
    assert_eq!(scope.substitute("${A}"), "x");
}

#[test]
fn every_occurrence_is_replaced() {
    let scope = full(&[("X", "1")]);
    assert_eq!(scope.substitute("${X}${X} ${X-a}, ${X:-b}."), "11 1, 1.");
}

#[test]
fn first_suffix_ends_the_default() {
    let scope = only(&["X"], &[]);
    assert_eq!(scope.substitute("${X-a}b}"), "ab}");
    assert_eq!(scope.substitute("${X-${Y}}"), "${Y}");
}

#[test]
fn default_does_not_cross_a_line_break() {
    let scope = only(&["X"], &[]);
    assert_eq!(scope.substitute("${X-a\nb}"), "${X-a\nb}");
}

#[test]
fn longer_name_is_another_variable() {
    let scope = full(&[("X", "1")]);
    assert_eq!(scope.substitute("${XY} ${X_} ${x}"), "${XY} ${X_} ${x}");
}

#[test]
fn delimiters_and_names_are_literal() {
    let scope = Scope::from_environment("(", ")", &env(&[("A.B", "dot"), ("C*", "star")])).unwrap();
    assert_eq!(scope.substitute("(A.B) (AxB) (C*) (CC) (C)"), "dot (AxB) star (CC) (C)");
    let scope = Scope::from_environment("[[", "]]", &env(&[("a|b", "bar")])).unwrap();
    assert_eq!(scope.substitute("[[a|b]] [[a]] [[b]]"), "bar [[a]] [[b]]");
}

#[test]
fn value_is_inserted_as_it_is() {
    let scope = full(&[("X", "$1 \\ } ${0}")]);
    assert_eq!(scope.substitute("<${X}>"), "<$1 \\ } ${0}>");
}

#[test]
fn text_beyond_ascii() {
    let scope = full(&[("NAME", "wörld"), ("Ω", "ω")]);
    assert_eq!(scope.substitute("héllo ${NAME} – ${Ω} ✓"), "héllo wörld – ω ✓");
    let scope = only(&["X"], &[]);
    assert_eq!(scope.substitute("«${X-dé fault}»"), "«dé fault»");
    assert_eq!(scope.substitute("«${X}»"), "«${X}»");
}

#[test]
fn named_variable_missing_from_environment_is_in_scope() {
    let scope = only(&["A", "B"], &[("B", "2")]);
    assert_eq!(scope.len(), 2);
    let a = scope.get("A").unwrap();
    assert_eq!(a.name, "A");
    assert_eq!(a.value, None);
    let b = scope.get("B").unwrap();
    assert_eq!(b.value.as_deref(), Some("2"));
    assert!(scope.get("C").is_none());
}

#[test]
fn name_given_twice_is_bound_once() {
    let scope = only(&["A", "B", "A"], &[("A", "1")]);
    assert_eq!(scope.len(), 2);
    assert_eq!(scope.substitute("${A}${B-b}"), "1b");
}

#[test]
fn binding_again_replaces_the_value_in_place() {
    let mut scope = Scope::new("${", "}");
    scope.bind(Binding { name: "A".to_string(), value: Some("${B}".to_string()) }).unwrap();
    scope.bind(Binding { name: "B".to_string(), value: Some("x".to_string()) }).unwrap();
    assert_eq!(scope.substitute("${A}"), "x");
    scope.bind(Binding { name: "A".to_string(), value: Some("${B}!".to_string()) }).unwrap();
    assert_eq!(scope.len(), 2);
    assert_eq!(scope.substitute("${A}"), "x!");
    scope.bind(Binding { name: "A".to_string(), value: None }).unwrap();
    assert_eq!(scope.substitute("${A}"), "${A}");
}

#[test]
fn from_bindings_keeps_absent_values() {
    let bindings = vec![
        Binding { name: "A".to_string(), value: None },
        Binding { name: "B".to_string(), value: Some(String::new()) },
    ];
    let scope = Scope::from_bindings("${", "}", &bindings).unwrap();
    assert_eq!(scope.substitute("${A-1}${B-2}${B:-3}${A}"), "13${A}");
}

#[test]
fn lookup_takes_the_first_of_a_name() {
    let environment = env(&[("A", "1"), ("B", "2"), ("A", "3")]);
    let found = Binding::lookup("A", &environment);
    assert_eq!(found.name, "A");
    assert_eq!(found.value.as_deref(), Some("1"));
    let missing = Binding::lookup("C", &environment);
    assert_eq!(missing.name, "C");
    assert_eq!(missing.value, None);
}

#[test]
fn duplicate_copies_a_binding() {
    let binding = Binding { name: "A".to_string(), value: Some("1".to_string()) };
    let copy = binding.duplicate();
    assert_eq!(copy.name, "A");
    assert_eq!(copy.value.as_deref(), Some("1"));
}

#[test]
fn pattern_too_large_is_reported() {
    let name = "A".repeat(4_000_000);
    let mut scope = Scope::new("${", "}");
    let failed = scope.bind(Binding { name: name.clone(), value: None });
    let error = failed.unwrap_err();
    assert!(error.pattern.starts_with("\\$\\{AAAA"));
    assert!(!error.reason.is_empty());
    assert_eq!(scope.len(), 0);
    let made = Scope::from_names("${", "}", &vec!["X".to_string(), name], &Vec::new());
    assert!(made.is_err());
}

#[test]
fn first_failing_pattern_is_reported() {
    let first = "A".repeat(4_000_000);
    let second = "B".repeat(4_000_000);
    let asked = vec!["X".to_string(), first, second];
    let error = Scope::from_names("${", "}", &asked, &Vec::new()).unwrap_err();
    assert!(error.pattern.starts_with("\\$\\{AAAA"));
    assert!(error.pattern.ends_with("A((:?-)(.*?))??\\}"));
}

#[test]
fn scope_is_built_where_every_pattern_compiles() {
    let environment = env(&[("A", "1"), ("B.C", "2"), ("D E", "3")]);
    let scope = Scope::from_environment("${", "}", &environment).unwrap();
    assert_eq!(scope.len(), 3);
    assert_eq!(scope.substitute("${A}${B.C}${D E}"), "123");
}
