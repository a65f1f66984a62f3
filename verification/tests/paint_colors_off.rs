use colored::control::set_override;
use grop::matcher::match_line;
use grop::paint::{paint_line, weave};
use grop::strip::strip_codes;
use grop::report::format_match;
use grop::search::MatchResult;

fn pieces(list: &[&str]) -> Vec<String> {
    list.iter().map(|s| s.to_string()).collect()
}

#[test]
fn without_colors_the_painted_line_is_the_line() {
    set_override(false);
    let rendered = match_line("Cat CAT cat", "cat", true).unwrap();
    assert_eq!(paint_line(&rendered), "Cat CAT cat");
}

#[test]
fn without_colors_the_match_record_is_plain() {
    set_override(false);
    let result = MatchResult {
        source_path: "dir/a.txt".to_string(),
        rendered_line: match_line("hello world", "hello", false).unwrap(),
    };
    assert_eq!(format_match(&result), "dir/a.txt: hello world");
}

#[test]
fn weave_puts_each_piece_in_the_place_of_its_extent() {
    let rendered = match_line("Cat CAT cat", "cat", true).unwrap();
    assert_eq!(
        weave(&rendered, &pieces(&["<1>", "<2>", "<3>"])),
        "<1> <2> <3>"
    );
    let rendered = match_line("say hello to the world", "o", false).unwrap();
    assert_eq!(
        weave(&rendered, &pieces(&["0", "0", "0"])),
        "say hell0 t0 the w0rld"
    );
}

#[test]
fn weave_keeps_the_text_of_an_extent_without_a_piece() {
    let rendered = match_line("Cat CAT cat", "cat", true).unwrap();
    assert_eq!(weave(&rendered, &pieces(&["<1>"])), "<1> CAT cat");
    assert_eq!(weave(&rendered, &pieces(&[])), "Cat CAT cat");
    assert_eq!(
        weave(&rendered, &pieces(&["a", "b", "c", "d"])),
        "a b c"
    );
}

#[test]
fn strip_codes_removes_the_emphasis_codes() {
    assert_eq!(strip_codes("\u{1b}[1;91mhello\u{1b}[0m world"), "hello world");
    assert_eq!(strip_codes("\u{1b}[95mpath\u{1b}[0m\u{1b}[96m: \u{1b}[0mx"), "path: x");
    assert_eq!(strip_codes("\u{1b}[0m"), "");
    assert_eq!(strip_codes("\u{1b}[1;91m"), "");
}

#[test]
fn strip_codes_keeps_everything_else() {
    assert_eq!(strip_codes(""), "");
    assert_eq!(strip_codes("plain text"), "plain text");
    assert_eq!(strip_codes("\u{1b}[31mred"), "\u{1b}[31mred");
    assert_eq!(strip_codes("\u{1b}[1;91"), "\u{1b}[1;91");
    assert_eq!(strip_codes("[0m"), "[0m");
    assert_eq!(strip_codes("a\u{1b}"), "a\u{1b}");
}
