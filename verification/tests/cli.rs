use grop::cli::{
    describe_unknown_argument, describe_usage_error, parse_args, plan, usage, Command,
};
use grop::request::{SearchRequest, UsageError};

fn args(list: &[&str]) -> Vec<String> {
    list.iter().map(|s| s.to_string()).collect()
}

fn planned_search(list: &[&str]) -> SearchRequest {
    match plan(&parse_args(&args(list))) {
        Ok(Command::Search(request)) => request,
        _ => panic!("a search was expected"),
    }
}

#[test]
fn pattern_and_path_are_taken_in_order() {
    let invocation = parse_args(&args(&["needle", "hay.txt"]));
    assert_eq!(invocation.pattern, "needle");
    assert_eq!(invocation.path, Some("hay.txt".to_string()));
    assert!(!invocation.help && !invocation.recursive);
    assert!(!invocation.ignore_case && !invocation.regex);
    assert!(invocation.unknown.is_empty());
}

#[test]
fn flags_are_recognized_in_both_forms() {
    for (flag, which) in [
        ("-h", 0),
        ("--help", 0),
        ("-r", 1),
        ("--recursive", 1),
        ("-i", 2),
        ("--ignore-case", 2),
        ("-x", 3),
        ("--regex", 3),
    ] {
        let invocation = parse_args(&args(&[flag]));
        assert_eq!(invocation.help, which == 0);
        assert_eq!(invocation.recursive, which == 1);
        assert_eq!(invocation.ignore_case, which == 2);
        assert_eq!(invocation.regex, which == 3);
        assert_eq!(invocation.pattern, "");
        assert!(invocation.unknown.is_empty());
    }
}

#[test]
fn flags_may_stand_anywhere() {
    let first = parse_args(&args(&["-i", "-r", "needle", "dir"]));
    let last = parse_args(&args(&["needle", "dir", "-r", "-i"]));
    let between = parse_args(&args(&["needle", "--recursive", "dir", "--ignore-case"]));
    for invocation in [first, last, between] {
        assert_eq!(invocation.pattern, "needle");
        assert_eq!(invocation.path, Some("dir".to_string()));
        assert!(invocation.recursive && invocation.ignore_case);
        assert!(!invocation.help && !invocation.regex);
    }
}

#[test]
fn unknown_flags_are_noted_and_parsing_goes_on() {
    let invocation = parse_args(&args(&["-q", "needle", "--wrong", "dir", "-"]));
    assert_eq!(invocation.unknown, args(&["-q", "--wrong", "-"]));
    assert_eq!(invocation.pattern, "needle");
    assert_eq!(invocation.path, Some("dir".to_string()));
}

#[test]
fn further_arguments_are_ignored() {
    let invocation = parse_args(&args(&["needle", "one", "two", "three"]));
    assert_eq!(invocation.pattern, "needle");
    assert_eq!(invocation.path, Some("one".to_string()));
}

#[test]
fn no_arguments_give_an_empty_invocation() {
    let invocation = parse_args(&args(&[]));
    assert_eq!(invocation.pattern, "");
    assert_eq!(invocation.path, None);
    assert!(invocation.unknown.is_empty());
}

#[test]
fn search_is_planned_for_a_pattern() {
    let request = planned_search(&["needle", "hay.txt", "-i"]);
    assert_eq!(request.pattern(), "needle");
    assert_eq!(request.root(), "hay.txt");
    assert!(request.case_insensitive());
    assert!(!request.recursive());
}

#[test]
fn path_defaults_to_the_current_directory() {
    let request = planned_search(&["needle", "-r"]);
    assert_eq!(request.root(), ".");
    assert!(request.recursive());
}

#[test]
fn missing_pattern_is_refused() {
    for list in [&[][..], &["-r"][..], &["-i", "--recursive"][..], &[""][..], &["", ""][..]] {
        assert!(matches!(
            plan(&parse_args(&args(list))),
            Err(UsageError::MissingPattern)
        ));
    }
}

#[test]
fn regex_is_refused_whatever_else_is_given() {
    for list in [
        &["-x"][..],
        &["--regex"][..],
        &["needle", "-x"][..],
        &["-x", "needle", "hay.txt"][..],
        &["needle", "hay.txt", "-r", "-i", "--regex"][..],
        &["-h", "-x"][..],
        &["-x", "-h"][..],
        &["-x", "--unknown"][..],
    ] {
        assert!(matches!(
            plan(&parse_args(&args(list))),
            Err(UsageError::RegexNotImplemented)
        ));
    }
}

#[test]
fn help_is_served_without_a_pattern() {
    assert!(matches!(plan(&parse_args(&args(&["-h"]))), Ok(Command::Help)));
    assert!(matches!(
        plan(&parse_args(&args(&["needle", "--help", "dir"]))),
        Ok(Command::Help)
    ));
}

#[test]
fn usage_lists_every_flag() {
    let lines = usage();
    assert_eq!(
        lines,
        vec![
            "Usage: grop [PATTERN] [FILE] [PARAMS]",
            "Search for PATTERN in each FILE",
            "Example: grop \"Hello World\" src/main.rs -i",
            "",
            "-h, --help\t\t Show the help screen",
            "-r, --recursive\t\tRecursively search FILE as a directory",
            "-i, --ignore-case\t\tMatch pattern in any case",
            "-x, --regex\t\tInterpret pattern as a regular expression",
        ]
    );
}

#[test]
fn usage_errors_are_described() {
    assert_eq!(
        describe_usage_error(UsageError::RegexNotImplemented),
        "Regex not implemented yet"
    );
    assert_eq!(describe_usage_error(UsageError::MissingPattern), "Missing PATTERN");
}

#[test]
fn unknown_argument_is_described() {
    assert_eq!(describe_unknown_argument("--wrong"), "Unknown argument '--wrong'");
}

#[test]
fn request_refuses_an_empty_pattern() {
    assert!(matches!(
        SearchRequest::new("", ".", true, true),
        Err(UsageError::MissingPattern)
    ));
    assert!(SearchRequest::new("x", "", false, false).is_ok());
}

#[test]
fn derived_request_keeps_pattern_and_flags() {
    let request = SearchRequest::new("needle", "dir", true, false).unwrap();
    let derived = request.with_root("dir/file.txt");
    assert_eq!(derived.pattern(), "needle");
    assert_eq!(derived.root(), "dir/file.txt");
    assert!(derived.recursive());
    assert!(!derived.case_insensitive());
    assert_eq!(request.root(), "dir");
}
