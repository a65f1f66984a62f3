use grop::casefold::{fold, fold_chars};
use grop::matcher::{find_spans, match_line, occurs_here, Span};

fn chars(s: &str) -> Vec<char> {
    s.chars().collect()
}

fn spans_of(line: &str, pattern: &str, case_insensitive: bool) -> Vec<(usize, usize)> {
    match match_line(line, pattern, case_insensitive) {
        Some(rendered) => rendered.spans().iter().map(|s| (s.start, s.end)).collect(),
        None => Vec::new(),
    }
}

#[test]
fn case_sensitive_match_marks_the_occurrence() {
    let rendered = match_line("say hello to the world", "hello", false).unwrap();
    assert_eq!(rendered.text(), "say hello to the world");
    assert_eq!(rendered.spans().clone(), vec![Span { start: 4, end: 9 }]);
    assert_eq!(rendered.chars().len(), 22);
}

#[test]
fn line_without_the_pattern_gives_none() {
    assert!(match_line("say hello", "world", false).is_none());
    assert!(match_line("", "a", false).is_none());
    assert!(match_line("ab", "abc", false).is_none());
}

#[test]
fn case_sensitive_match_does_not_fold() {
    assert!(match_line("say Hello", "hello", false).is_none());
    assert_eq!(spans_of("Hello hello", "hello", false), vec![(6, 11)]);
}

#[test]
fn every_occurrence_is_marked_in_order() {
    assert_eq!(spans_of("abcabcab", "ab", false), vec![(0, 2), (3, 5), (6, 8)]);
}

#[test]
fn occurrences_do_not_overlap() {
    assert_eq!(spans_of("aaaa", "aa", false), vec![(0, 2), (2, 4)]);
    assert_eq!(spans_of("aaa", "aa", false), vec![(0, 2)]);
    assert_eq!(spans_of("abababa", "aba", false), vec![(0, 3), (4, 7)]);
}

#[test]
fn whole_line_can_be_the_match() {
    assert_eq!(spans_of("needle", "needle", false), vec![(0, 6)]);
}

#[test]
fn ignoring_case_marks_every_casing() {
    let rendered = match_line("Cat CAT cat", "cat", true).unwrap();
    assert_eq!(rendered.text(), "Cat CAT cat");
    assert_eq!(
        rendered.spans().clone(),
        vec![
            Span { start: 0, end: 3 },
            Span { start: 4, end: 7 },
            Span { start: 8, end: 11 }
        ]
    );
}

#[test]
fn ignoring_case_marks_mixed_casing() {
    assert_eq!(
        spans_of("Cat and CAT and cAt", "cat", true),
        vec![(0, 3), (8, 11), (16, 19)]
    );
}

#[test]
fn ignoring_case_does_not_depend_on_the_casing_of_the_pattern() {
    let line = "Cat CAT cat";
    let expected = spans_of(line, "cat", true);
    assert_eq!(expected.len(), 3);
    assert_eq!(spans_of(line, "CAT", true), expected);
    assert_eq!(spans_of(line, "cAt", true), expected);
    assert_eq!(spans_of(line, "Cat", true), expected);
}

#[test]
fn ignoring_case_folds_letters_beyond_ascii() {
    assert_eq!(spans_of("CAF\u{c9} caf\u{e9}", "caf\u{e9}", true), vec![(0, 4), (5, 9)]);
    assert!(match_line("CAF\u{c9}", "caf\u{e9}", false).is_none());
}

#[test]
fn spans_count_characters_not_bytes() {
    assert_eq!(spans_of("\u{e9}\u{e9}x", "x", false), vec![(2, 3)]);
}

#[test]
fn fold_maps_to_lowercase_and_keeps_the_rest() {
    assert_eq!(fold('A'), 'a');
    assert_eq!(fold('z'), 'z');
    assert_eq!(fold('\u{c9}'), '\u{e9}');
    assert_eq!(fold('7'), '7');
    assert_eq!(fold(' '), ' ');
    assert_eq!(fold('\u{130}'), 'i');
}

#[test]
fn fold_agrees_with_the_standard_library_on_single_mappings() {
    for code in 0u32..0x3000 {
        if let Some(c) = char::from_u32(code) {
            let mut lowered = c.to_lowercase();
            let first = lowered.next().unwrap();
            assert_eq!(fold(c), first);
        }
    }
}

#[test]
fn fold_chars_keeps_the_length() {
    assert_eq!(fold_chars(&chars("Cat CAT")), chars("cat cat"));
    assert_eq!(fold_chars(&chars("")), chars(""));
    assert_eq!(fold_chars(&chars("\u{130}x")).len(), 2);
}

#[test]
fn find_spans_works_on_characters() {
    let found = find_spans(&chars("xx-xx-x"), &chars("xx"));
    assert_eq!(found, vec![Span { start: 0, end: 2 }, Span { start: 3, end: 5 }]);
    assert_eq!(find_spans(&chars("x"), &chars("xx")), Vec::new());
    assert_eq!(find_spans(&chars(""), &chars("x")), Vec::new());
}

#[test]
fn occurs_here_checks_one_position() {
    assert!(occurs_here(&chars("hello"), &chars("ll"), 2));
    assert!(!occurs_here(&chars("hello"), &chars("ll"), 3));
    assert!(!occurs_here(&chars("hello"), &chars("lo"), 4));
    assert!(!occurs_here(&chars("hello"), &chars("h"), 9));
    assert!(occurs_here(&chars("hello"), &chars(""), 5));
}
