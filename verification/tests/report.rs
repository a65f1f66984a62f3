use colored::control::set_override;
use grop::matcher::match_line;
use grop::report::{describe_error, describe_skip, report};
use grop::search::MatchResult;
use grop::traverse::{ReadFailure, SearchError, SkipReason, TraversalOutcome, Visit};

#[test]
fn missing_path_is_reported() {
    assert_eq!(
        describe_error(SearchError::PathNotFound, "nowhere.txt"),
        "'nowhere.txt' no such file or directory"
    );
}

#[test]
fn directory_is_reported() {
    assert_eq!(
        describe_error(SearchError::IsADirectory, "src"),
        "'src' is a directory"
    );
}

#[test]
fn special_file_is_reported() {
    assert_eq!(
        describe_error(SearchError::NotAFile, "/dev/null"),
        "no such file /dev/null"
    );
}

#[test]
fn read_error_is_reported() {
    for failure in [
        ReadFailure::PermissionDenied,
        ReadFailure::InvalidText,
        ReadFailure::Other,
    ] {
        assert_eq!(
            describe_error(SearchError::ReadError(failure), "secret.txt"),
            "could not read file `secret.txt`"
        );
    }
}

#[test]
fn depth_limit_is_reported() {
    assert_eq!(
        describe_skip(SkipReason::DepthLimit, "a/b/c"),
        "'a/b/c' is nested too deeply"
    );
}

#[test]
fn report_of_matches_has_one_record_for_each() {
    set_override(false);
    let visit = Visit {
        path: "f.txt".to_string(),
        outcome: TraversalOutcome::Matched(vec![
            MatchResult {
                source_path: "f.txt".to_string(),
                rendered_line: match_line("one fish", "fish", false).unwrap(),
            },
            MatchResult {
                source_path: "f.txt".to_string(),
                rendered_line: match_line("two fish", "fish", false).unwrap(),
            },
        ]),
    };
    assert_eq!(report(&visit), vec!["f.txt: one fish", "f.txt: two fish"]);
}

#[test]
fn report_of_a_visit_without_matches_is_empty() {
    let visit = Visit {
        path: "f.txt".to_string(),
        outcome: TraversalOutcome::NoMatch,
    };
    assert!(report(&visit).is_empty());
    let visit = Visit {
        path: "dir".to_string(),
        outcome: TraversalOutcome::Descended,
    };
    assert!(report(&visit).is_empty());
}

#[test]
fn report_of_an_error_is_one_line() {
    let visit = Visit {
        path: "dir".to_string(),
        outcome: TraversalOutcome::Errored(SearchError::IsADirectory),
    };
    assert_eq!(report(&visit), vec!["'dir' is a directory"]);
    let visit = Visit {
        path: "deep".to_string(),
        outcome: TraversalOutcome::Skipped(SkipReason::DepthLimit),
    };
    assert_eq!(report(&visit), vec!["'deep' is nested too deeply"]);
}
