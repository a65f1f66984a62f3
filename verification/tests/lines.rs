use grop::lines::split_lines;

#[test]
fn lines_end_at_line_feeds() {
    assert_eq!(split_lines("one\ntwo\nthree"), vec!["one", "two", "three"]);
}

#[test]
fn final_line_feed_adds_no_line() {
    assert_eq!(split_lines("one\ntwo\n"), vec!["one", "two"]);
}

#[test]
fn empty_text_has_no_lines() {
    assert_eq!(split_lines(""), Vec::<String>::new());
}

#[test]
fn empty_lines_are_kept() {
    assert_eq!(split_lines("\n\nx\n\n"), vec!["", "", "x", ""]);
}

#[test]
fn carriage_return_before_line_feed_is_dropped() {
    assert_eq!(split_lines("foo\r\nbar\n\nbaz\r"), vec!["foo", "bar", "", "baz\r"]);
    assert_eq!(split_lines("a\r\r\nb"), vec!["a\r", "b"]);
    assert_eq!(split_lines("\r\n"), vec![""]);
}

#[test]
fn split_lines_agrees_with_the_standard_library() {
    let samples = [
        "",
        "\n",
        "\r",
        "\r\n",
        "a",
        "a\n",
        "a\r\n",
        "a\n\rb",
        "a\rb\n",
        "x\r\n\r\ny\r",
        "one\ntwo\r\nthree\n\n",
    ];
    for sample in samples {
        let expected: Vec<String> = sample.lines().map(|l| l.to_string()).collect();
        assert_eq!(split_lines(sample), expected);
    }
}
