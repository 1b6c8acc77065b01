use minigrep::config::{NO_FILENAME, NO_QUERY};
use minigrep::{run, Config};

fn args(words: &[&str]) -> Vec<String> {
    words.iter().map(|word| word.to_string()).collect()
}

#[test]
fn new_takes_query_and_file_name() {
    match Config::new(args(&["minigrep", "duct", "poem.txt"]), false) {
        Ok(config) => {
            assert_eq!(config.query, "duct");
            assert_eq!(config.filename, "poem.txt");
            assert!(config.case_sensitive);
        }
        Err(why) => panic!("{}", why),
    }
}

#[test]
fn new_ignores_case_when_asked() {
    match Config::new(args(&["minigrep", "duct", "poem.txt"]), true) {
        Ok(config) => {
            assert_eq!(config.query, "duct");
            assert_eq!(config.filename, "poem.txt");
            assert!(!config.case_sensitive);
        }
        Err(why) => panic!("{}", why),
    }
}

#[test]
fn new_ignores_further_arguments() {
    match Config::new(args(&["minigrep", "duct", "poem.txt", "more", "still more"]), false) {
        Ok(config) => {
            assert_eq!(config.query, "duct");
            assert_eq!(config.filename, "poem.txt");
        }
        Err(why) => panic!("{}", why),
    }
}

#[test]
fn new_without_query_fails() {
    assert_eq!(Config::new(args(&["minigrep"]), false).err(), Some("Didn't get a query string"));
    assert_eq!(Config::new(args(&[]), false).err(), Some("Didn't get a query string"));
    assert_eq!(Config::new(args(&[]), true).err(), Some(NO_QUERY));
}

#[test]
fn new_without_file_name_fails() {
    assert_eq!(Config::new(args(&["minigrep", "duct"]), false).err(), Some("Didn't get a file name"));
    assert_eq!(Config::new(args(&["minigrep", "duct"]), true).err(), Some(NO_FILENAME));
}

#[test]
fn run_highlights_the_matching_lines() {
    let config = Config {
        query: String::from("duct"),
        filename: String::from("poem.txt"),
        case_sensitive: true,
    };
    let contents = "Rust:\nsafe, fast, productive.\nPick three.\nDuct tape.\nducts";
    assert_eq!(
        run(config, contents),
        vec![
            "safe, fast, pro\x1b[38;2;192;32;56mduct\x1b[0mive.",
            "\x1b[38;2;192;32;56mduct\x1b[0ms",
        ]
    );
}

#[test]
fn run_ignoring_case_marks_only_what_is_written_as_the_query() {
    let config = Config {
        query: String::from("rUsT"),
        filename: String::from("poem.txt"),
        case_sensitive: false,
    };
    let contents = "Rust:\nsafe, fast, productive.\nPick three.\nTrust me.\nrUsTy";
    assert_eq!(
        run(config, contents),
        vec!["Rust:", "Trust me.", "\x1b[38;2;192;32;56mrUsT\x1b[0my"]
    );
}

#[test]
fn run_without_match_gives_nothing() {
    let config = Config {
        query: String::from("monomorphization"),
        filename: String::from("poem.txt"),
        case_sensitive: true,
    };
    assert_eq!(run(config, "Rust:\nsafe, fast, productive."), Vec::<String>::new());
    let config = Config {
        query: String::from("rust"),
        filename: String::from("empty.txt"),
        case_sensitive: false,
    };
    assert_eq!(run(config, ""), Vec::<String>::new());
}
