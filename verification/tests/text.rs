use grop::text::{chars_of, same_text, string_of};
use grop::traverse::DEPTH_LIMIT;

#[test]
fn chars_of_lists_the_characters() {
    assert_eq!(chars_of("a\u{e9}z"), vec!['a', '\u{e9}', 'z']);
    assert_eq!(chars_of(""), Vec::<char>::new());
}

#[test]
fn string_of_puts_the_characters_together() {
    assert_eq!(string_of(&vec!['a', '\u{e9}', 'z']), "a\u{e9}z");
    assert_eq!(string_of(&Vec::new()), "");
}

#[test]
fn string_of_undoes_chars_of() {
    for sample in ["", "plain", "tab\tand\nline", "\u{1b}[0m", "\u{130}\u{e9}"] {
        assert_eq!(string_of(&chars_of(sample)), sample);
    }
}

#[test]
fn depth_limit_is_sixty_four() {
    assert_eq!(DEPTH_LIMIT, 64);
}

#[test]
fn same_text_compares_character_by_character() {
    assert!(same_text("", ""));
    assert!(same_text("-h", "-h"));
    assert!(!same_text("-h", "-H"));
    assert!(!same_text("-h", "-hh"));
    assert!(!same_text("-hh", "-h"));
}
