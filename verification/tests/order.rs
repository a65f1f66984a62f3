use grop::order::{comes_first, sort_names};

fn names(list: &[&str]) -> Vec<String> {
    list.iter().map(|s| s.to_string()).collect()
}

#[test]
fn names_compare_character_by_character() {
    assert!(comes_first("a", "b"));
    assert!(!comes_first("b", "a"));
    assert!(comes_first("a", "a"));
    assert!(comes_first("", "a"));
    assert!(!comes_first("a", ""));
    assert!(comes_first("ab", "abc"));
    assert!(!comes_first("abc", "ab"));
    assert!(comes_first("B", "a"));
    assert!(comes_first("z", "\u{e9}"));
}

#[test]
fn sort_names_orders_by_name() {
    assert_eq!(
        sort_names(names(&["t/c", "t/b.txt", "t/a.txt"])),
        names(&["t/a.txt", "t/b.txt", "t/c"])
    );
    assert_eq!(sort_names(names(&[])), names(&[]));
    assert_eq!(sort_names(names(&["x"])), names(&["x"]));
    assert_eq!(sort_names(names(&["b", "a", "b", "a"])), names(&["a", "a", "b", "b"]));
}

#[test]
fn sort_names_does_not_depend_on_the_given_order() {
    let expected = names(&["a", "aa", "ab", "b", "c"]);
    assert_eq!(sort_names(names(&["c", "b", "ab", "aa", "a"])), expected);
    assert_eq!(sort_names(names(&["ab", "c", "a", "b", "aa"])), expected);
    assert_eq!(sort_names(names(&["a", "aa", "ab", "b", "c"])), expected);
}

#[test]
fn sort_names_agrees_with_the_standard_library() {
    let given = names(&["zeta", "Alpha", "alpha", "", "\u{e9}t\u{e9}", "beta", "Beta", "b"]);
    let mut expected = given.clone();
    expected.sort();
    assert_eq!(sort_names(given), expected);
}
