use colored::control::set_override;
use grop::matcher::match_line;
use grop::paint::paint_line;
use grop::strip::strip_codes;
use grop::report::format_match;
use grop::search::MatchResult;

const MATCH: &str = "\u{1b}[1;91m";
const PATH: &str = "\u{1b}[95m";
const SEPARATOR: &str = "\u{1b}[96m";
const RESET: &str = "\u{1b}[0m";

#[test]
fn painted_line_wraps_the_match_in_bold_bright_red() {
    set_override(true);
    let rendered = match_line("say hello to the world", "hello", false).unwrap();
    assert_eq!(
        paint_line(&rendered),
        format!("say {}hello{} to the world", MATCH, RESET)
    );
}

#[test]
fn painted_line_keeps_the_casing_of_each_occurrence() {
    set_override(true);
    let rendered = match_line("Cat CAT cat", "cat", true).unwrap();
    assert_eq!(
        paint_line(&rendered),
        format!(
            "{m}Cat{r} {m}CAT{r} {m}cat{r}",
            m = MATCH,
            r = RESET
        )
    );
}

#[test]
fn painted_line_wraps_adjacent_matches_separately() {
    set_override(true);
    let rendered = match_line("aaaa!", "aa", false).unwrap();
    assert_eq!(
        paint_line(&rendered),
        format!("{m}aa{r}{m}aa{r}!", m = MATCH, r = RESET)
    );
}

#[test]
fn stripping_a_painted_line_gives_the_line_back() {
    set_override(true);
    for (line, pattern, fold) in [
        ("say hello to the world", "hello", false),
        ("Cat CAT cat", "cat", true),
        ("aaaa", "aa", false),
        ("x", "x", false),
        ("mm[0m m", "m", false),
        ("caf\u{e9} CAF\u{c9}", "F\u{c9}", true),
    ] {
        let rendered = match_line(line, pattern, fold).unwrap();
        let painted = paint_line(&rendered);
        assert_ne!(painted, line);
        assert_eq!(strip_codes(&painted), line);
    }
}

#[test]
fn painted_line_has_one_emphasis_for_each_occurrence() {
    set_override(true);
    let rendered = match_line("abcabcab", "ab", false).unwrap();
    let painted = paint_line(&rendered);
    assert_eq!(painted.matches(MATCH).count(), 3);
    assert_eq!(painted.matches(RESET).count(), 3);
    assert_eq!(rendered.spans().len(), 3);
}

#[test]
fn match_record_paints_path_separator_and_line() {
    set_override(true);
    let result = MatchResult {
        source_path: "dir/a.txt".to_string(),
        rendered_line: match_line("hello world", "hello", false).unwrap(),
    };
    assert_eq!(
        format_match(&result),
        format!(
            "{p}dir/a.txt{r}{s}: {r}{m}hello{r} world",
            p = PATH,
            s = SEPARATOR,
            m = MATCH,
            r = RESET
        )
    );
}

#[test]
fn stripping_a_match_record_gives_path_separator_and_line() {
    set_override(true);
    let result = MatchResult {
        source_path: "dir/a.txt".to_string(),
        rendered_line: match_line("Hello hello", "hello", true).unwrap(),
    };
    assert_eq!(strip_codes(&format_match(&result)), "dir/a.txt: Hello hello");
}

#[test]
fn stripping_does_not_give_back_a_line_that_holds_a_code() {
    set_override(true);
    let line = "a\u{1b}[0m";
    let rendered = match_line(line, "a", false).unwrap();
    let painted = paint_line(&rendered);
    assert_eq!(painted, format!("{}a{}\u{1b}[0m", MATCH, RESET));
    assert_eq!(strip_codes(&painted), "a");
    assert_ne!(strip_codes(&painted), line);
}

#[test]
fn stripping_gives_back_a_line_with_escape_characters_that_form_no_code() {
    set_override(true);
    for (line, pattern) in [
        ("\u{1b}", "\u{1b}"),
        ("\u{1b}[31mred\u{1b}[m", "red"),
        ("\u{1b}m", "m"),
        ("tail\u{1b}", "tail"),
    ] {
        let rendered = match_line(line, pattern, false).unwrap();
        assert_eq!(strip_codes(&paint_line(&rendered)), line);
    }
}
