use minigrep::lines::lines;
use minigrep::{search, search_case_insensitive};

#[test]
fn case_sensitive() {
    let query = "duct";
    let contents = "\
Rust:
safe, fast, productive.
Pick three.
Duct tape.";

    assert_eq!(vec!["safe, fast, productive."], search(query, contents));
}

#[test]
fn case_insensitive() {
    let query = "rUsT";
    let contents = "\
Rust:
safe, fast, productive.
Pick three.
Trust me.";

    assert_eq!(
        vec!["Rust:", "Trust me."],
        search_case_insensitive(query, contents)
    );
}

#[test]
fn empty_query_gives_every_line() {
    let contents = "one\n\ntwo\r\nthree";
    assert_eq!(search("", contents), vec!["one", "", "two", "three"]);
    assert_eq!(search("", contents), lines(contents));
    assert_eq!(search_case_insensitive("", contents), lines(contents));
}

#[test]
fn empty_text_gives_nothing() {
    assert_eq!(search("duct", ""), Vec::<&str>::new());
    assert_eq!(search("", ""), Vec::<&str>::new());
    assert_eq!(search_case_insensitive("duct", ""), Vec::<&str>::new());
    assert_eq!(search_case_insensitive("", ""), Vec::<&str>::new());
}

#[test]
fn matches_keep_the_order_of_the_text() {
    let contents = "b1\na\nb2\nb1\na\nb3";
    assert_eq!(search("b", contents), vec!["b1", "b2", "b1", "b3"]);
    assert_eq!(search_case_insensitive("B", contents), vec!["b1", "b2", "b1", "b3"]);
}

#[test]
fn a_line_with_several_occurrences_is_given_once() {
    assert_eq!(search("an", "banana\nbandana\ncherry"), vec!["banana", "bandana"]);
}

#[test]
fn sensitive_search_does_not_fold_case() {
    assert_eq!(search("rUsT", "Rust:\nTrust me.\nrUsT"), vec!["rUsT"]);
    assert_eq!(search("Duct", "productive\nDuct tape"), vec!["Duct tape"]);
}

#[test]
fn insensitive_search_returns_lines_in_their_own_case() {
    assert_eq!(
        search_case_insensitive("DUCT", "Productive\nDuct tape\nnothing"),
        vec!["Productive", "Duct tape"]
    );
}

#[test]
fn insensitive_search_folds_letters_beyond_ascii() {
    let contents = "ÄPFEL und Birnen\näpfel\nApfel\nΣΊΣΥΦΟΣ";
    assert_eq!(search_case_insensitive("äpfel", contents), vec!["ÄPFEL und Birnen", "äpfel"]);
    assert_eq!(search_case_insensitive("ÄPFEL", contents), vec!["ÄPFEL und Birnen", "äpfel"]);
    assert_eq!(search("äpfel", contents), vec!["äpfel"]);
    assert_eq!(search_case_insensitive("σίσυφος", contents), vec!["ΣΊΣΥΦΟΣ"]);
}

#[test]
fn query_is_matched_by_characters() {
    let contents = "naïve\nnaive\n日本語のテキスト\nテキ";
    assert_eq!(search("ï", contents), vec!["naïve"]);
    assert_eq!(search("テキス", contents), vec!["日本語のテキスト"]);
    assert_eq!(search("テキ", contents), vec!["日本語のテキスト", "テキ"]);
    assert_eq!(search("本語", contents), vec!["日本語のテキスト"]);
}

#[test]
fn query_longer_than_every_line_matches_nothing() {
    assert_eq!(search("a long query", "a\nlong\nquery"), Vec::<&str>::new());
}

#[test]
fn query_does_not_match_across_lines() {
    assert_eq!(search("a\nb", "a\nb"), Vec::<&str>::new());
    assert_eq!(search("ab", "a\nb"), Vec::<&str>::new());
}

#[test]
fn carriage_return_before_line_feed_is_not_searched() {
    assert_eq!(search("\r", "one\r\ntwo\r\n"), Vec::<&str>::new());
    assert_eq!(search("\r", "one\r\ntwo\r"), vec!["two\r"]);
    assert_eq!(search("e", "one\r\ntwo\r\n"), vec!["one"]);
}

#[test]
fn found_lines_are_slices_of_the_text() {
    let contents = String::from("first\nsecond\nthird");
    let found = search("ir", &contents);
    assert_eq!(found, vec!["first", "third"]);
    let whole = contents.as_bytes().as_ptr_range();
    for line in found {
        let part = line.as_bytes().as_ptr_range();
        assert!(whole.start <= part.start && part.end <= whole.end);
    }
}

#[test]
fn search_agrees_with_the_standard_library() {
    let texts = [
        "",
        "\n",
        "\n\n",
        "a",
        "a\n",
        "a\r\n",
        "a\r",
        "\r\n\r\n",
        "\r",
        "\n\r",
        "a\r\r\nb",
        "Rust:\nsafe, fast, productive.\nPick three.\nDuct tape.",
        "ab\nba\nabab\n\nb\na",
        "日本語\nテキスト\r\nnaïve\n",
    ];
    let queries = ["", "a", "b", "ab", "ba", "\r", "\n", "duct", "テ", "ï", "AB", "Duct"];
    for text in texts {
        for query in queries {
            let expected: Vec<&str> = text.lines().filter(|line| line.contains(query)).collect();
            assert_eq!(search(query, text), expected, "{:?} in {:?}", query, text);
            let lowered = query.to_lowercase();
            let folded: Vec<&str> = text
                .lines()
                .filter(|line| line.to_lowercase().contains(&lowered))
                .collect();
            assert_eq!(search_case_insensitive(query, text), folded, "{:?} in {:?}", query, text);
        }
    }
}
