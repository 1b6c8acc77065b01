use minigrep::lines::lines;

#[test]
fn lines_end_at_line_feeds() {
    assert_eq!(lines("one\ntwo\nthree"), vec!["one", "two", "three"]);
}

#[test]
fn last_line_need_not_be_ended() {
    assert_eq!(lines("one\ntwo\n"), vec!["one", "two"]);
    assert_eq!(lines("one\ntwo"), vec!["one", "two"]);
}

#[test]
fn empty_text_has_no_lines() {
    assert_eq!(lines(""), Vec::<&str>::new());
}

#[test]
fn empty_lines_are_lines() {
    assert_eq!(lines("\n"), vec![""]);
    assert_eq!(lines("\n\n"), vec!["", ""]);
    assert_eq!(lines("a\n\nb"), vec!["a", "", "b"]);
    assert_eq!(lines("\r\n"), vec![""]);
}

#[test]
fn carriage_return_before_line_feed_ends_the_line() {
    assert_eq!(lines("one\r\ntwo\r\n"), vec!["one", "two"]);
    assert_eq!(lines("one\r\r\ntwo"), vec!["one\r", "two"]);
}

#[test]
fn carriage_return_alone_is_text() {
    assert_eq!(lines("one\rtwo"), vec!["one\rtwo"]);
    assert_eq!(lines("foo\nbar\n\r\nbaz\r"), vec!["foo", "bar", "", "baz\r"]);
    assert_eq!(lines("\r"), vec!["\r"]);
}

#[test]
fn lines_hold_characters_of_any_width() {
    assert_eq!(lines("naïve\n日本語\r\n🦀"), vec!["naïve", "日本語", "🦀"]);
}

#[test]
fn lines_agree_with_the_standard_library() {
    let texts = [
        "", "\n", "\r", "\r\n", "\n\r", "a", "a\n", "a\r", "a\r\n", "a\n\r", "\na", "\ra",
        "\r\na", "a\nb", "a\r\nb", "a\rb", "a\n\nb", "a\r\n\r\nb", "a\r\r\nb", "a\n\r\nb\r",
        "é\nü\r\n", "\u{85}\n\u{2028}",
    ];
    for text in texts {
        let expected: Vec<&str> = text.lines().collect();
        assert_eq!(lines(text), expected, "{:?}", text);
    }
}
