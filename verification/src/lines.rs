//! The lines of a text.
//!
//! A line ends at a line feed, or at a carriage return directly followed by a
//! line feed; neither belongs to the line. A last line need not be ended, and a
//! carriage return at its end is then part of it.

use crate::encoding::{lemma_ascii_is_one_byte, lemma_occurrence_to_bytes};
use crate::pattern::{first_occurrence, has_occurrence, lemma_occurs_at_skip, occurs_at};
use crate::text::{cut, ends_with, find};
use vstd::prelude::*;

verus! {

/// The number of characters before the first line feed of `text`; its length
/// where it holds none.
pub open spec fn first_line_len(text: Seq<char>) -> nat
    decreases text.len(),
{
    if text.len() == 0 || text[0] == '\n' {
        0
    } else {
        1 + first_line_len(text.drop_first())
    }
}

/// `line` without the carriage return at its end, if it has one.
pub open spec fn without_return(line: Seq<char>) -> Seq<char> {
    if line.len() > 0 && line.last() == '\r' {
        line.drop_last()
    } else {
        line
    }
}

/// The lines of `text`, in order.
pub open spec fn lines_of(text: Seq<char>) -> Seq<Seq<char>>
    decreases text.len(),
{
    let n = first_line_len(text) as int;
    if text.len() == 0 {
        Seq::empty()
    } else if n >= text.len() {
        seq![text]
    } else {
        seq![without_return(text.take(n))] + lines_of(text.skip(n + 1))
    }
}

/// The first line of a text ends at the leftmost line feed.
pub proof fn lemma_first_line_len(text: Seq<char>)
    ensures
        first_line_len(text) <= text.len(),
        first_line_len(text) < text.len() ==> text[first_line_len(text) as int] == '\n',
        first_occurrence(text, seq!['\n']) == if first_line_len(text) < text.len() {
            Some(first_line_len(text) as int)
        } else {
            None
        },
    decreases text.len(),
{
    let feed = seq!['\n'];
    if text.len() > 0 {
        assert(text.subrange(0, 1)[0] == text[0]);
        if text[0] == '\n' {
            assert(text.subrange(0, 1) =~= feed);
        } else {
            lemma_first_line_len(text.drop_first());
        }
    }
}

/// Every line of a text stands in the text, character for character.
pub proof fn lemma_lines_occur_in_text(text: Seq<char>)
    ensures
        forall|k: int|
            0 <= k < lines_of(text).len() ==> has_occurrence(text, #[trigger] lines_of(text)[k]),
    decreases text.len(),
{
    let n = first_line_len(text) as int;
    lemma_first_line_len(text);
    if text.len() == 0 {
    } else if n >= text.len() {
        assert(text.subrange(0, text.len() as int) =~= text);
        assert(occurs_at(text, text, 0));
    } else {
        let first = without_return(text.take(n));
        let rest = text.skip(n + 1);
        lemma_lines_occur_in_text(rest);
        assert(text.subrange(0, first.len() as int) =~= first);
        assert(occurs_at(text, first, 0));
        assert forall|k: int| 0 <= k < lines_of(text).len() implies has_occurrence(
            text,
            #[trigger] lines_of(text)[k],
        ) by {
            if k > 0 {
                let line = lines_of(rest)[k - 1];
                assert(lines_of(text)[k] == line);
                let at = choose|at: int| occurs_at(rest, line, at);
                lemma_occurs_at_skip(text, line, n + 1, at);
            }
        }
    }
}

/// `line` without the carriage return at its end, if it has one.
fn strip_return<'a>(line: &'a str) -> (stripped: &'a str)
    ensures
        stripped@ == without_return(line@),
{
    let ret: &str = "\r";
    proof {
        reveal_strlit("\r");
        assert(ret@ =~= seq!['\r']);
        assert(line@.len() > 0 ==> line@.subrange(line@.len() - 1, line@.len() as int)[0]
            == line@.last());
    }
    if ends_with(line, ret) {
        proof {
            lemma_ascii_is_one_byte('\r');
            lemma_occurrence_to_bytes(line@, ret@, line@.len() - 1);
            assert(line@.take(line@.len() as int) =~= line@);
        }
        let (stripped, _) = cut(line, line.as_bytes().len() - 1, Ghost(line@.len() - 1));
        stripped
    } else {
        assert(line@.len() > 0 && line@.last() == '\r' ==> line@.subrange(
            line@.len() - 1,
            line@.len() as int,
        ) =~= ret@);
        line
    }
}

/// The lines of `text`, in order, each a slice of `text`.
pub fn lines<'a>(text: &'a str) -> (found: Vec<&'a str>)
    ensures
        found.deep_view() == lines_of(text@),
        forall|k: int| 0 <= k < found@.len() ==> has_occurrence(text@, (#[trigger] found@[k])@),
{
    let feed: &str = "\n";
    let mut found: Vec<&'a str> = Vec::new();
    let mut rest: &'a str = text;
    proof {
        reveal_strlit("\n");
        assert(feed@ =~= seq!['\n']);
        assert(found.deep_view() + lines_of(rest@) =~= lines_of(text@));
    }
    loop
        invariant_except_break
            feed@ == seq!['\n'],
            found.deep_view() + lines_of(rest@) == lines_of(text@),
        ensures
            found.deep_view() == lines_of(text@),
        decreases rest@.len(),
    {
        if rest.is_empty() {
            assert(found.deep_view() + lines_of(rest@) =~= found.deep_view());
            break;
        }
        proof {
            lemma_first_line_len(rest@);
        }
        let ghost before = found.deep_view();
        match find(rest, feed) {
            None => {
                found.push(rest);
                assert(found.deep_view() =~= before + lines_of(rest@));
                break;
            },
            Some(at) => {
                let ghost n = first_line_len(rest@) as int;
                let (line, tail) = cut(rest, at, Ghost(n));
                proof {
                    lemma_ascii_is_one_byte('\n');
                    assert(tail@.take(1) =~= seq!['\n']);
                }
                let (_, after) = cut(tail, 1, Ghost(1));
                let line = strip_return(line);
                found.push(line);
                proof {
                    assert(after@ =~= rest@.skip(n + 1));
                    assert(found.deep_view() =~= before + seq![without_return(rest@.take(n))]);
                    assert(found.deep_view() + lines_of(after@) =~= before + lines_of(rest@));
                }
                rest = after;
            },
        }
    }
    proof {
        lemma_lines_occur_in_text(text@);
        assert forall|k: int| 0 <= k < found@.len() implies has_occurrence(
            text@,
            (#[trigger] found@[k])@,
        ) by {
            assert(found@[k]@ == lines_of(text@)[k]);
        }
    }
    found
}

} // verus!
