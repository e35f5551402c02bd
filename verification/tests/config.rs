use minigrep::config::CASE_INSENSITIVE;
use minigrep::{Argument, Config, ConfigError};

fn words(args: &[&str]) -> Vec<String> {
    args.iter().map(|word| String::from(*word)).collect()
}

#[test]
fn config_new_should_succeed() {
    let result_config = Config::new(
        &[
            String::from("lib.rs"),
            String::from("test"),
            String::from("test.txt"),
        ],
        true,
    )
    .unwrap();
    let expected_config = Config {
        query: String::from("test"),
        filename: String::from("test.txt"),
        case_sensitive: false,
    };
    assert_eq!(result_config.query, expected_config.query);
    assert_eq!(result_config.filename, expected_config.filename);
    assert_eq!(result_config.case_sensitive, expected_config.case_sensitive);
}

#[test]
#[should_panic]
fn config_new_should_fail() {
    Config::new(&[String::from("test"), String::from("test.txt")], false).unwrap();
}

#[test]
fn one_argument_behind_the_name_is_a_missing_filename() {
    let result = Config::new(&words(&["minigrep", "needle"]), false);
    assert_eq!(result.err(), Some(ConfigError::MissingArgument(Argument::Filename)));
}

#[test]
fn no_argument_behind_the_name_is_a_missing_query() {
    let result = Config::new(&words(&["minigrep"]), false);
    assert_eq!(result.err(), Some(ConfigError::MissingArgument(Argument::Query)));
    let result = Config::new(&words(&[]), true);
    assert_eq!(result.err(), Some(ConfigError::MissingArgument(Argument::Query)));
}

#[test]
fn empty_argument_counts_as_missing() {
    let result = Config::new(&words(&["minigrep", "", "poem.txt"]), false);
    assert_eq!(result.err(), Some(ConfigError::MissingArgument(Argument::Query)));
    let result = Config::new(&words(&["minigrep", "needle", ""]), false);
    assert_eq!(result.err(), Some(ConfigError::MissingArgument(Argument::Filename)));
    let result = Config::new(&words(&["minigrep", "", ""]), false);
    assert_eq!(result.err(), Some(ConfigError::MissingArgument(Argument::Query)));
}

#[test]
fn case_counts_unless_the_override_is_set() {
    let args = words(&["minigrep", "needle", "poem.txt"]);
    assert!(Config::new(&args, false).unwrap().case_sensitive);
    assert!(!Config::new(&args, true).unwrap().case_sensitive);
}

#[test]
fn further_arguments_are_ignored() {
    let config = Config::new(&words(&["minigrep", "needle", "poem.txt", "more", ""]), false).unwrap();
    assert_eq!(config.query, "needle");
    assert_eq!(config.filename, "poem.txt");
    assert!(config.case_sensitive);
}

#[test]
fn program_name_is_passed_over() {
    let config = Config::new(&words(&["", "needle", "poem.txt"]), false).unwrap();
    assert_eq!(config.query, "needle");
    assert_eq!(config.filename, "poem.txt");
}

#[test]
fn errors_say_which_argument_is_missing() {
    assert_eq!(
        ConfigError::MissingArgument(Argument::Query).message(),
        "Didn't get a query string"
    );
    assert_eq!(
        ConfigError::MissingArgument(Argument::Filename).message(),
        "Didn't get a filename string"
    );
}

#[test]
fn override_variable_has_its_name() {
    assert_eq!(CASE_INSENSITIVE, "CASE_INSENSITIVE");
}
