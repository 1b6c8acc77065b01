//! What to search for and how, and the search from a configuration to the
//! lines to print.

use crate::highlight::{highlight, highlighted};
use crate::search::{
    matching_lines, matching_lines_ignoring_case, search, search_case_insensitive,
};
use vstd::prelude::*;

verus! {

/// The error of `Config::new` where the arguments hold no query.
pub const NO_QUERY: &'static str = "Didn't get a query string";

/// The error of `Config::new` where the arguments hold a query and no file
/// name.
pub const NO_FILENAME: &'static str = "Didn't get a file name";

/// One search: what to look for, in which file, and whether letter case
/// counts.
pub struct Config {
    pub query: String,
    pub filename: String,
    pub case_sensitive: bool,
}

impl Config {
    /// The configuration that a command line asks for. `args` is the command
    /// line: the program's name, the query, the file name; what follows them
    /// is ignored. `ignore_case` says whether the search is to ignore letter
    /// case.
    pub fn new(args: Vec<String>, ignore_case: bool) -> (made: Result<Config, &'static str>)
        ensures
            match made {
                Ok(config) => {
                    &&& args@.len() >= 3
                    &&& config.query@ == args@[1]@
                    &&& config.filename@ == args@[2]@
                    &&& config.case_sensitive == !ignore_case
                },
                Err(why) => if args@.len() < 2 {
                    why@ == NO_QUERY@
                } else {
                    args@.len() == 2 && why@ == NO_FILENAME@
                },
            },
    {
        if args.len() < 2 {
            return Err(NO_QUERY);
        }
        if args.len() < 3 {
            return Err(NO_FILENAME);
        }
        let query = args[1].clone();
        let filename = args[2].clone();
        Ok(Config { query, filename, case_sensitive: !ignore_case })
    }
}

/// The lines that a search of `contents` for `query` prints: the matching
/// lines in their order, each with the occurrences of `query` highlighted.
pub open spec fn display_lines(query: Seq<char>, contents: Seq<char>, case_sensitive: bool) -> Seq<
    Seq<char>,
> {
    let hits = if case_sensitive {
        matching_lines(contents, query)
    } else {
        matching_lines_ignoring_case(contents, query)
    };
    hits.map_values(|line: Seq<char>| highlighted(line, query))
}

/// Searches `contents`, the text of the file that `config` names, and
/// returns the lines to print, in order.
pub fn run(config: Config, contents: &str) -> (shown: Vec<String>)
    ensures
        shown.deep_view() == display_lines(config.query@, contents@, config.case_sensitive),
{
    let query = config.query.as_str();
    let hits = if config.case_sensitive {
        search(query, contents)
    } else {
        search_case_insensitive(query, contents)
    };
    let mut shown: Vec<String> = Vec::new();
    let mut k: usize = 0;
    while k < hits.len()
        invariant
            k <= hits.len(),
            query@ == config.query@,
            shown.deep_view() == hits.deep_view().take(k as int).map_values(
                |line: Seq<char>| highlighted(line, query@),
            ),
        decreases hits.len() - k,
    {
        let ghost before = shown.deep_view();
        let marked = highlight(hits[k], query);
        shown.push(marked);
        proof {
            assert(shown.deep_view() =~= before.push(highlighted(hits[k as int]@, query@)));
            assert(shown.deep_view() =~= hits.deep_view().take(k + 1).map_values(
                |line: Seq<char>| highlighted(line, query@),
            ));
        }
        k += 1;
    }
    assert(hits.deep_view().take(k as int) =~= hits.deep_view());
    shown
}

} // verus!
