use colored::control::set_override;
use grop::report::report;
use grop::request::SearchRequest;
use grop::search::search_file;
use grop::traverse::{
    Probe, ReadFailure, SearchError, SkipReason, Traversal, TraversalOutcome, Visit,
};

fn paths(list: &[&str]) -> Vec<String> {
    list.iter().map(|s| s.to_string()).collect()
}

/// A small tree: `t/a.txt`, `t/b.txt`, `t/c/d.txt`, listed out of order.
fn tree(path: &str) -> Probe {
    match path {
        "t" => Probe::Directory(paths(&["t/c", "t/b.txt", "t/a.txt"])),
        "t/a.txt" => Probe::File("hello\n".to_string()),
        "t/b.txt" => Probe::File("world\n".to_string()),
        "t/c" => Probe::Directory(paths(&["t/c/d.txt"])),
        "t/c/d.txt" => Probe::File("hello world\n".to_string()),
        _ => Probe::Missing,
    }
}

/// The tree with a file that cannot be read among its entries.
fn tree_with_unreadable_file(path: &str) -> Probe {
    match path {
        "t" => Probe::Directory(paths(&["t/a.txt", "t/locked.txt", "t/z.txt"])),
        "t/a.txt" => Probe::File("hello\n".to_string()),
        "t/locked.txt" => Probe::UnreadableFile(ReadFailure::PermissionDenied),
        "t/z.txt" => Probe::File("say hello\n".to_string()),
        _ => Probe::Missing,
    }
}

/// A directory that holds itself under another name, without end.
fn cycle(path: &str) -> Probe {
    if path.ends_with("/file") {
        Probe::File("hello".to_string())
    } else {
        Probe::Directory(vec![format!("{}/file", path), format!("{}/again", path)])
    }
}

fn run(request: SearchRequest, limit: usize, look: fn(&str) -> Probe) -> Vec<Visit> {
    let mut traversal = Traversal::new(request, limit);
    let mut visits = Vec::new();
    while let Some(path) = traversal.next_path() {
        let visit = traversal.step(look(&path)).unwrap();
        assert_eq!(visit.path, path);
        visits.push(visit);
        assert!(visits.len() < 10_000);
    }
    assert!(traversal.step(Probe::Missing).is_none());
    visits
}

fn lines_of(visits: &[Visit]) -> Vec<String> {
    set_override(false);
    visits.iter().flat_map(|v| report(v)).collect()
}

fn visited(visits: &[Visit]) -> Vec<&str> {
    visits.iter().map(|v| v.path.as_str()).collect()
}

fn request(pattern: &str, root: &str, recursive: bool) -> SearchRequest {
    SearchRequest::new(pattern, root, recursive, false).unwrap()
}

#[test]
fn recursive_search_finds_matches_in_the_tree() {
    let visits = run(request("hello", "t", true), 16, tree);
    assert_eq!(
        lines_of(&visits),
        vec!["t/a.txt: hello", "t/c/d.txt: hello world"]
    );
}

#[test]
fn recursive_search_visits_entries_depth_first_by_name() {
    let visits = run(request("hello", "t", true), 16, tree);
    assert_eq!(
        visited(&visits),
        vec!["t", "t/a.txt", "t/b.txt", "t/c", "t/c/d.txt"]
    );
    assert!(matches!(visits[0].outcome, TraversalOutcome::Descended));
    assert!(matches!(visits[1].outcome, TraversalOutcome::Matched(_)));
    assert!(matches!(visits[2].outcome, TraversalOutcome::NoMatch));
    assert!(matches!(visits[3].outcome, TraversalOutcome::Descended));
    assert!(matches!(visits[4].outcome, TraversalOutcome::Matched(_)));
}

#[test]
fn directory_without_recursion_gives_one_diagnostic() {
    let visits = run(request("hello", "t", false), 16, tree);
    assert_eq!(visits.len(), 1);
    assert!(matches!(
        visits[0].outcome,
        TraversalOutcome::Errored(SearchError::IsADirectory)
    ));
    assert_eq!(lines_of(&visits), vec!["'t' is a directory"]);
}

#[test]
fn unreadable_file_does_not_hide_its_siblings() {
    let visits = run(request("hello", "t", true), 16, tree_with_unreadable_file);
    assert_eq!(
        lines_of(&visits),
        vec![
            "t/a.txt: hello",
            "could not read file `t/locked.txt`",
            "t/z.txt: say hello",
        ]
    );
    assert!(matches!(
        visits[2].outcome,
        TraversalOutcome::Errored(SearchError::ReadError(ReadFailure::PermissionDenied))
    ));
}

#[test]
fn unreadable_directory_does_not_hide_its_siblings() {
    fn look(path: &str) -> Probe {
        match path {
            "t" => Probe::Directory(vec!["t/sub".to_string(), "t/x.txt".to_string()]),
            "t/sub" => Probe::UnreadableDirectory(ReadFailure::Other),
            "t/x.txt" => Probe::File("hello".to_string()),
            _ => Probe::Missing,
        }
    }
    let visits = run(request("hello", "t", true), 16, look);
    assert_eq!(
        lines_of(&visits),
        vec!["could not read file `t/sub`", "t/x.txt: hello"]
    );
}

#[test]
fn file_search_gives_the_same_output_twice() {
    fn look(_: &str) -> Probe {
        Probe::File("one hello\nnothing\ntwo hello hello\n".to_string())
    }
    let first = lines_of(&run(request("hello", "f.txt", false), 16, look));
    let second = lines_of(&run(request("hello", "f.txt", false), 3, look));
    assert_eq!(first, vec!["f.txt: one hello", "f.txt: two hello hello"]);
    assert_eq!(first, second);
}

#[test]
fn missing_root_is_reported() {
    let visits = run(request("hello", "nowhere", false), 16, tree);
    assert_eq!(lines_of(&visits), vec!["'nowhere' no such file or directory"]);
    let visits = run(request("hello", "nowhere", true), 16, tree);
    assert_eq!(lines_of(&visits), vec!["'nowhere' no such file or directory"]);
}

#[test]
fn special_file_is_reported_as_no_file() {
    fn look(_: &str) -> Probe {
        Probe::Other
    }
    let visits = run(request("hello", "/dev/tty", false), 16, look);
    assert_eq!(lines_of(&visits), vec!["no such file /dev/tty"]);
    assert!(matches!(
        visits[0].outcome,
        TraversalOutcome::Errored(SearchError::NotAFile)
    ));
}

#[test]
fn unreadable_file_is_reported_with_its_cause() {
    fn look(_: &str) -> Probe {
        Probe::UnreadableFile(ReadFailure::InvalidText)
    }
    let visits = run(request("hello", "binary", false), 16, look);
    assert!(matches!(
        visits[0].outcome,
        TraversalOutcome::Errored(SearchError::ReadError(ReadFailure::InvalidText))
    ));
    assert_eq!(lines_of(&visits), vec!["could not read file `binary`"]);
}

#[test]
fn unreadable_directory_without_recursion_is_a_directory() {
    fn look(_: &str) -> Probe {
        Probe::UnreadableDirectory(ReadFailure::PermissionDenied)
    }
    let visits = run(request("hello", "d", false), 16, look);
    assert!(matches!(
        visits[0].outcome,
        TraversalOutcome::Errored(SearchError::IsADirectory)
    ));
}

#[test]
fn search_ends_on_a_cycle_of_directories() {
    let visits = run(request("hello", "d", true), 3, cycle);
    assert_eq!(
        visited(&visits),
        vec![
            "d",
            "d/again",
            "d/again/again",
            "d/again/again/again",
            "d/again/again/file",
            "d/again/file",
            "d/file",
        ]
    );
    assert!(matches!(
        visits[3].outcome,
        TraversalOutcome::Skipped(SkipReason::DepthLimit)
    ));
    assert!(matches!(visits[2].outcome, TraversalOutcome::Descended));
    assert_eq!(
        lines_of(&visits),
        vec![
            "'d/again/again/again' is nested too deeply",
            "d/again/again/file: hello",
            "d/again/file: hello",
            "d/file: hello",
        ]
    );
}

#[test]
fn depth_limit_of_zero_enters_no_directory() {
    let visits = run(request("hello", "t", true), 0, tree);
    assert_eq!(visited(&visits), vec!["t"]);
    assert_eq!(lines_of(&visits), vec!["'t' is nested too deeply"]);
}

#[test]
fn new_traversal_starts_at_the_root() {
    let traversal = Traversal::new(request("x", "start", true), 4);
    assert_eq!(traversal.next_path(), Some("start".to_string()));
}

#[test]
fn search_file_gives_one_result_for_each_matching_line() {
    let results = search_file(
        &request("fish", "pond.txt", false),
        "one fish\ntwo fish\r\nred herring\nFish\nblue fish",
    );
    let lines: Vec<String> = results.iter().map(|m| m.rendered_line.text()).collect();
    assert_eq!(lines, vec!["one fish", "two fish", "blue fish"]);
    assert!(results.iter().all(|m| m.source_path == "pond.txt"));
    assert_eq!(results[1].rendered_line.spans()[0].start, 4);
}

#[test]
fn search_file_ignores_case_when_asked() {
    let request = SearchRequest::new("fish", "pond.txt", false, true).unwrap();
    let results = search_file(&request, "one fish\nFISH\nfowl\n");
    let lines: Vec<String> = results.iter().map(|m| m.rendered_line.text()).collect();
    assert_eq!(lines, vec!["one fish", "FISH"]);
}

#[test]
fn search_file_of_empty_contents_is_empty() {
    assert!(search_file(&request("fish", "pond.txt", false), "").is_empty());
    assert!(search_file(&request("fish", "pond.txt", false), "\n\n").is_empty());
}
