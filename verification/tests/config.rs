use minigrep::{Config, ConfigError};

fn args(items: &[&str]) -> Vec<String> {
    items.iter().map(|item| item.to_string()).collect()
}

#[test]
fn missing_filename_is_reported() {
    let outcome = Config::new(&args(&["minigrep", "needle"]), false);
    assert!(matches!(outcome, Err(ConfigError::MissingFilename)));
}

#[test]
fn missing_query_is_reported() {
    let outcome = Config::new(&args(&["minigrep"]), false);
    assert!(matches!(outcome, Err(ConfigError::MissingQuery)));
    let outcome = Config::new(&args(&[]), true);
    assert!(matches!(outcome, Err(ConfigError::MissingQuery)));
}

#[test]
fn query_and_filename_are_taken_by_position() {
    let config = Config::new(&args(&["minigrep", "needle", "haystack.txt"]), false).unwrap();
    assert_eq!("needle", config.query);
    assert_eq!("haystack.txt", config.filename);
    assert!(config.case_sensitive);
}

#[test]
fn program_name_is_never_looked_at() {
    let config = Config::new(&args(&["", "needle", "haystack.txt"]), false).unwrap();
    assert_eq!("needle", config.query);
    assert_eq!("haystack.txt", config.filename);
}

#[test]
fn further_arguments_are_ignored() {
    let config = Config::new(&args(&["minigrep", "a", "b", "c", "d"]), false).unwrap();
    assert_eq!("a", config.query);
    assert_eq!("b", config.filename);
}

#[test]
fn empty_query_and_filename_are_accepted() {
    let config = Config::new(&args(&["minigrep", "", ""]), false).unwrap();
    assert_eq!("", config.query);
    assert_eq!("", config.filename);
}

#[test]
fn flag_set_means_case_insensitive() {
    let config = Config::new(&args(&["minigrep", "needle", "haystack.txt"]), true).unwrap();
    assert!(!config.case_sensitive);
}

#[test]
fn flag_unset_means_case_sensitive() {
    let config = Config::new(&args(&["minigrep", "needle", "haystack.txt"]), false).unwrap();
    assert!(config.case_sensitive);
}

#[test]
fn errors_come_before_the_flag_is_looked_at() {
    assert!(matches!(
        Config::new(&args(&["minigrep", "needle"]), true),
        Err(ConfigError::MissingFilename)
    ));
}

#[test]
fn error_messages() {
    assert_eq!("Didn't get a query string", ConfigError::MissingQuery.message());
    assert_eq!("Didn't get a filename", ConfigError::MissingFilename.message());
}
