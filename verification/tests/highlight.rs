use minigrep::highlight::{wrap_occurrences, END_MARKER, START_MARKER};
use minigrep::highlight;

fn without_markers(marked: &str) -> String {
    marked.replace(START_MARKER, "").replace(END_MARKER, "")
}

#[test]
fn markers_are_the_escape_sequences() {
    assert_eq!(START_MARKER.as_bytes(), b"\x1b[38;2;192;32;56m");
    assert_eq!(END_MARKER.as_bytes(), b"\x1b[0m");
}

#[test]
fn occurrence_stands_between_the_markers() {
    assert_eq!(
        highlight("safe, fast, productive.", "duct"),
        "safe, fast, pro\x1b[38;2;192;32;56mduct\x1b[0mive."
    );
}

#[test]
fn every_occurrence_is_marked() {
    assert_eq!(
        highlight("abcabc", "bc"),
        "a\x1b[38;2;192;32;56mbc\x1b[0ma\x1b[38;2;192;32;56mbc\x1b[0m"
    );
    assert_eq!(
        highlight("xx", "x"),
        "\x1b[38;2;192;32;56mx\x1b[0m\x1b[38;2;192;32;56mx\x1b[0m"
    );
}

#[test]
fn occurrences_do_not_overlap() {
    assert_eq!(wrap_occurrences("aaa", "aa", "<", ">"), "<aa>a");
    assert_eq!(wrap_occurrences("aaaa", "aa", "<", ">"), "<aa><aa>");
    assert_eq!(wrap_occurrences("ababa", "aba", "<", ">"), "<aba>ba");
}

#[test]
fn whole_line_can_be_the_occurrence() {
    assert_eq!(highlight("duct", "duct"), "\x1b[38;2;192;32;56mduct\x1b[0m");
}

#[test]
fn line_without_occurrence_is_unchanged() {
    assert_eq!(highlight("Pick three.", "duct"), "Pick three.");
    assert_eq!(highlight("", "duct"), "");
    assert_eq!(highlight("duc", "duct"), "duc");
}

#[test]
fn occurrence_in_another_case_is_not_marked() {
    assert_eq!(highlight("Rust:", "rUsT"), "Rust:");
    assert_eq!(highlight("Trust me.", "rUsT"), "Trust me.");
    assert_eq!(
        highlight("rust and Rust", "Rust"),
        "rust and \x1b[38;2;192;32;56mRust\x1b[0m"
    );
}

#[test]
fn empty_query_is_marked_around_every_character() {
    assert_eq!(wrap_occurrences("ab", "", "<", ">"), "<>a<>b<>");
    assert_eq!(wrap_occurrences("", "", "<", ">"), "<>");
    assert_eq!(wrap_occurrences("é日🦀", "", "<", ">"), "<>é<>日<>🦀<>");
    assert_eq!(
        highlight("a", ""),
        "\x1b[38;2;192;32;56m\x1b[0ma\x1b[38;2;192;32;56m\x1b[0m"
    );
}

#[test]
fn characters_of_any_width_are_marked() {
    assert_eq!(wrap_occurrences("naïve", "ï", "<", ">"), "na<ï>ve");
    assert_eq!(wrap_occurrences("日本語日本", "日本", "[", "]"), "[日本]語[日本]");
    assert_eq!(wrap_occurrences("a🦀b🦀", "🦀", "(", ")"), "a(🦀)b(🦀)");
}

#[test]
fn empty_markers_leave_the_line() {
    for line in ["", "a", "abcabc", "naïve", "aaa"] {
        for query in ["", "a", "bc", "aa", "ï", "zz"] {
            assert_eq!(wrap_occurrences(line, query, "", ""), line);
        }
    }
}

#[test]
fn stripping_the_markers_gives_the_line_back() {
    let lines = ["", "a", "safe, fast, productive.", "abcabc", "aaa", "naïve 日本語", "[0m", "\x1b"];
    let queries = ["", "a", "duct", "bc", "aa", "ï", "本", "[0m", "m"];
    for line in lines {
        for query in queries {
            assert_eq!(without_markers(&highlight(line, query)), line, "{:?} in {:?}", query, line);
        }
    }
}

#[test]
fn stripping_also_takes_markers_that_the_line_held() {
    let line = "\x1b[0mx";
    assert_eq!(highlight(line, "x"), "\x1b[0m\x1b[38;2;192;32;56mx\x1b[0m");
    assert_eq!(without_markers(&highlight(line, "x")), "x");
}

#[test]
fn highlight_agrees_with_the_standard_library() {
    let lines = ["", "a", "ab", "aab", "abab", "ababab", "aaaa", "naïve", "日本語日本", "a\u{0301}b"];
    let queries = ["", "a", "b", "ab", "ba", "aa", "bab", "abc", "ï", "本", "日本", "\u{0301}"];
    for line in lines {
        for query in queries {
            let with = format!("\x1b[38;2;192;32;56m{}\x1B[0m", query);
            assert_eq!(highlight(line, query), line.replace(query, &with), "{:?} in {:?}", query, line);
            let tagged = format!("<{}>", query);
            assert_eq!(
                wrap_occurrences(line, query, "<", ">"),
                line.replace(query, &tagged),
                "{:?} in {:?}",
                query,
                line
            );
        }
    }
}
