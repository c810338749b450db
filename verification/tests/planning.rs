use envsub::command::{plan, Arguments, Command, Settings};

fn arguments() -> Arguments {
    Arguments { help: false, version: false, variables: Vec::new(), prefix: None, suffix: None }
}

fn env(pairs: &[(&str, &str)]) -> Vec<(String, String)> {
    pairs.iter().map(|(k, v)| (k.to_string(), v.to_string())).collect()
}

#[test]
fn help_goes_first() {
    let asked = Arguments { help: true, version: true, ..arguments() };
    assert!(matches!(plan(asked), Command::Help));
    let asked = Arguments { help: true, variables: vec!["X".to_string()], ..arguments() };
    assert!(matches!(plan(asked), Command::Help));
}

#[test]
fn version_goes_before_a_run() {
    let asked = Arguments { version: true, prefix: Some("<".to_string()), ..arguments() };
    assert!(matches!(plan(asked), Command::Version));
}

#[test]
fn default_delimiters() {
    match plan(arguments()) {
        Command::Run(settings) => {
            assert_eq!(settings.prefix, "${");
            assert_eq!(settings.suffix, "}");
            assert!(settings.variables.is_empty());
        }
        other => panic!("unexpected command {:?}", other),
    }
}

#[test]
fn given_delimiters_and_variables() {
    let asked = Arguments {
        variables: vec!["A".to_string(), "B".to_string()],
        prefix: Some("<<".to_string()),
        suffix: Some(">>".to_string()),
        ..arguments()
    };
    match plan(asked) {
        Command::Run(settings) => {
            assert_eq!(settings.prefix, "<<");
            assert_eq!(settings.suffix, ">>");
            assert_eq!(settings.variables, vec!["A".to_string(), "B".to_string()]);
        }
        other => panic!("unexpected command {:?}", other),
    }
}

#[test]
fn one_delimiter_given() {
    let asked = Arguments { suffix: Some("%".to_string()), ..arguments() };
    match plan(asked) {
        Command::Run(settings) => {
            assert_eq!(settings.prefix, "${");
            assert_eq!(settings.suffix, "%");
        }
        other => panic!("unexpected command {:?}", other),
    }
}

#[test]
fn settings_without_names_take_the_environment() {
    let settings = Settings { prefix: "${".to_string(), suffix: "}".to_string(), variables: Vec::new() };
    let scope = settings.scope(&env(&[("FOO", "1"), ("BAR", "2")])).unwrap();
    assert_eq!(scope.len(), 2);
    assert_eq!(scope.substitute("${FOO}-${BAR}-${BAZ-3}"), "1-2-${BAZ-3}");
}

#[test]
fn settings_with_names_take_only_those() {
    let settings = Settings {
        prefix: "${".to_string(),
        suffix: "}".to_string(),
        variables: vec!["FOO".to_string(), "BAZ".to_string()],
    };
    let scope = settings.scope(&env(&[("FOO", "1"), ("BAR", "2")])).unwrap();
    assert_eq!(scope.len(), 2);
    assert_eq!(scope.substitute("${FOO}-${BAR}-${BAZ-3}"), "1-${BAR}-3");
}

#[test]
fn settings_report_a_pattern_that_does_not_compile() {
    let settings = Settings {
        prefix: "${".to_string(),
        suffix: "}".to_string(),
        variables: vec!["OK".to_string(), "Q".repeat(4_000_000)],
    };
    let error = settings.scope(&Vec::new()).unwrap_err();
    assert!(error.pattern.starts_with("\\$\\{QQQQ"));
}
