use qlog_trim::config::{Config, Rejection, DEFAULT_MAX_DEPTH, REJECTED_EXIT_STATUS, TRAVERSAL_DEPTH};

fn config(source: &str, target: &str) -> Config {
    Config::new(source.to_string(), target.to_string())
}

#[test]
fn equal_source_and_target_are_rejected() {
    assert_eq!(config("logs", "logs").check(true), Err(Rejection::SameSourceAndTarget));
    assert_eq!(config("logs", "logs").check(false), Err(Rejection::SameSourceAndTarget));
    assert_eq!(config("", "").check(true), Err(Rejection::SameSourceAndTarget));
}

#[test]
fn a_source_that_is_no_directory_is_rejected() {
    assert_eq!(config("logs/a.log", "out").check(false), Err(Rejection::SourceNotDirectory));
}

#[test]
fn a_directory_and_another_target_are_accepted() {
    assert_eq!(config("logs", "out").check(true), Ok(()));
}

#[test]
fn paths_are_compared_as_written() {
    assert_eq!(config("logs", "logs/").check(true), Ok(()));
    assert_eq!(config("logs", "./logs").check(true), Ok(()));
    assert_eq!(config("logs", "Logs").check(true), Ok(()));
}

#[test]
fn the_default_depth_is_one() {
    let made: Config = config("logs", "out");
    assert_eq!(made.source, "logs");
    assert_eq!(made.target, "out");
    assert_eq!(made.max_depth, 1);
    assert_eq!(DEFAULT_MAX_DEPTH, 1);
}

#[test]
fn the_traversal_stays_at_depth_one() {
    assert_eq!(TRAVERSAL_DEPTH, 1);
}

#[test]
fn a_rejection_ends_with_status_one() {
    assert_eq!(REJECTED_EXIT_STATUS, 1);
}

#[test]
fn each_rejection_has_its_message() {
    assert_eq!(
        Rejection::SameSourceAndTarget.message(),
        "Error: source and target are equal, please select a different target directory"
    );
    assert_eq!(
        Rejection::SourceNotDirectory.message(),
        "Error: source must be directory not a file"
    );
}
