//! Marking every occurrence of a query in a line for a terminal.

use crate::encoding::lemma_occurrence_to_bytes;
use crate::pattern::{
    first_occurrence, has_occurrence, lemma_first_occurrence, lemma_occurs_at_skip, occurs_at,
};
use crate::strip::{
    is_marked_form, lemma_highlighted_is_marked_form, lemma_strip_highlighted, stripped,
};
use crate::text::{cut, find, first_char_width};
use vstd::prelude::*;

verus! {

/// Written before each occurrence: the escape sequence that sets the
/// foreground colour to the red (192, 32, 56).
pub const START_MARKER: &'static str = "\x1b[38;2;192;32;56m";

/// Written after each occurrence: the escape sequence that resets the
/// terminal's attributes.
pub const END_MARKER: &'static str = "\x1b[0m";

/// `line` with `start` put before and `end` after each occurrence of `query`.
/// Occurrences are taken from the left and do not overlap. The empty query
/// occurs before each character and at the end of the line.
pub open spec fn wrapped(
    line: Seq<char>,
    query: Seq<char>,
    start: Seq<char>,
    end: Seq<char>,
) -> Seq<char>
    decreases line.len(),
{
    if occurs_at(line, query, 0) {
        if query.len() > 0 {
            start + query + end + wrapped(line.skip(query.len() as int), query, start, end)
        } else if line.len() == 0 {
            start + end
        } else {
            start + end + line.take(1) + wrapped(line.skip(1), query, start, end)
        }
    } else if line.len() == 0 {
        line
    } else {
        line.take(1) + wrapped(line.skip(1), query, start, end)
    }
}

/// `line` with every occurrence of `query` between the two markers.
pub open spec fn highlighted(line: Seq<char>, query: Seq<char>) -> Seq<char> {
    wrapped(line, query, START_MARKER@, END_MARKER@)
}

/// Up to the first occurrence of the query, wrapping copies the line.
pub proof fn lemma_wrapped_before_occurrence(
    line: Seq<char>,
    query: Seq<char>,
    start: Seq<char>,
    end: Seq<char>,
    i: int,
)
    requires
        0 <= i <= line.len(),
        forall|j: int| 0 <= j < i ==> !occurs_at(line, query, j),
    ensures
        wrapped(line, query, start, end) == line.take(i) + wrapped(line.skip(i), query, start, end),
    decreases i,
{
    if i == 0 {
        assert(line.skip(0) =~= line);
        assert(line.take(0) + wrapped(line, query, start, end) =~= wrapped(
            line,
            query,
            start,
            end,
        ));
    } else {
        let rest = line.skip(1);
        assert forall|j: int| 0 <= j < i - 1 implies !occurs_at(rest, query, j) by {
            lemma_occurs_at_skip(line, query, 1, j);
        }
        lemma_wrapped_before_occurrence(rest, query, start, end, i - 1);
        assert(rest.skip(i - 1) =~= line.skip(i));
        assert(line.take(1) + rest.take(i - 1) =~= line.take(i));
        assert(line.take(1) + (rest.take(i - 1) + wrapped(line.skip(i), query, start, end))
            =~= line.take(i) + wrapped(line.skip(i), query, start, end));
    }
}

/// A line in which the query does not occur comes out as it went in.
pub proof fn lemma_wrapped_without_occurrence(
    line: Seq<char>,
    query: Seq<char>,
    start: Seq<char>,
    end: Seq<char>,
)
    requires
        !has_occurrence(line, query),
    ensures
        wrapped(line, query, start, end) == line,
{
    let n = line.len() as int;
    lemma_wrapped_before_occurrence(line, query, start, end, n);
    lemma_occurs_at_skip(line, query, n, 0);
    assert(line.take(n) + line.skip(n) =~= line);
}

/// Highlighting a line in which the query does not occur changes nothing.
pub proof fn lemma_highlight_without_occurrence(line: Seq<char>, query: Seq<char>)
    requires
        !has_occurrence(line, query),
    ensures
        highlighted(line, query) == line,
{
    lemma_wrapped_without_occurrence(line, query, START_MARKER@, END_MARKER@);
}

/// With empty markers, wrapping gives the line back: the markers are put in
/// between the characters of the line, which stay as they are and where they
/// are.
pub proof fn lemma_empty_markers_leave_line(line: Seq<char>, query: Seq<char>)
    ensures
        wrapped(line, query, Seq::empty(), Seq::empty()) == line,
    decreases line.len(),
{
    let none = Seq::<char>::empty();
    if occurs_at(line, query, 0) {
        if query.len() > 0 {
            let rest = line.skip(query.len() as int);
            lemma_empty_markers_leave_line(rest, query);
            assert(none + query + none + rest =~= line);
        } else if line.len() > 0 {
            lemma_empty_markers_leave_line(line.skip(1), query);
            assert(none + none + line.take(1) + line.skip(1) =~= line);
        } else {
            assert(none + none =~= line);
        }
    } else if line.len() > 0 {
        lemma_empty_markers_leave_line(line.skip(1), query);
        assert(line.take(1) + line.skip(1) =~= line);
    }
}

/// A copy of `line` in which each occurrence of `query` stands between
/// `start` and `end`.
pub fn wrap_occurrences(line: &str, query: &str, start: &str, end: &str) -> (marked: String)
    ensures
        marked@ == wrapped(line@, query@, start@, end@),
        !has_occurrence(line@, query@) ==> marked@ == line@,
        start@.len() == 0 && end@.len() == 0 ==> marked@ == line@,
{
    let mut marked = String::new();
    let mut rest: &str = line;
    proof {
        assert(marked@ + wrapped(rest@, query@, start@, end@) =~= wrapped(
            line@,
            query@,
            start@,
            end@,
        ));
    }
    loop
        invariant_except_break
            marked@ + wrapped(rest@, query@, start@, end@) == wrapped(
                line@,
                query@,
                start@,
                end@,
            ),
        ensures
            marked@ == wrapped(line@, query@, start@, end@),
        decreases rest@.len(),
    {
        let ghost before = marked@;
        let ghost goal = wrapped(rest@, query@, start@, end@);
        proof {
            lemma_first_occurrence(rest@, query@);
        }
        match find(rest, query) {
            None => {
                proof {
                    lemma_wrapped_without_occurrence(rest@, query@, start@, end@);
                }
                marked.append(rest);
                break;
            },
            Some(at) => {
                let ghost i = first_occurrence(rest@, query@).unwrap();
                let (head, tail) = cut(rest, at, Ghost(i));
                marked.append(head);
                marked.append(start);
                marked.append(query);
                marked.append(end);
                proof {
                    lemma_wrapped_before_occurrence(rest@, query@, start@, end@, i);
                    lemma_occurs_at_skip(rest@, query@, i, 0);
                    assert(marked@ =~= before + head@ + start@ + query@ + end@);
                }
                if query.is_empty() {
                    if tail.is_empty() {
                        assert(marked@ =~= before + goal);
                        break;
                    }
                    let width = first_char_width(tail);
                    let (first, after) = cut(tail, width, Ghost(1));
                    marked.append(first);
                    proof {
                        assert(marked@ + wrapped(after@, query@, start@, end@) =~= before + goal);
                    }
                    rest = after;
                } else {
                    proof {
                        lemma_occurrence_to_bytes(tail@, query@, 0);
                        assert(tail@.take(0) =~= Seq::<char>::empty());
                    }
                    let (_, after) = cut(tail, query.as_bytes().len(), Ghost(query@.len() as int));
                    proof {
                        assert(marked@ + wrapped(after@, query@, start@, end@) =~= before + goal);
                    }
                    rest = after;
                }
            },
        }
    }
    proof {
        if !has_occurrence(line@, query@) {
            lemma_wrapped_without_occurrence(line@, query@, start@, end@);
        }
        if start@.len() == 0 && end@.len() == 0 {
            assert(start@ =~= Seq::<char>::empty());
            assert(end@ =~= Seq::<char>::empty());
            lemma_empty_markers_leave_line(line@, query@);
        }
    }
    marked
}

/// A copy of `line` in which each occurrence of `query` stands between
/// `START_MARKER` and `END_MARKER`. Only what is written exactly as `query` is
/// an occurrence: a line that a search ignoring case has found is returned
/// unmarked where it holds the query only in another case.
pub fn highlight(line: &str, query: &str) -> (marked: String)
    ensures
        marked@ == highlighted(line@, query@),
        !has_occurrence(line@, query@) ==> marked@ == line@,
        is_marked_form(marked@, line@, START_MARKER@, END_MARKER@),
        !has_occurrence(line@, START_MARKER@) && !has_occurrence(line@, END_MARKER@) ==> stripped(
            marked@,
            START_MARKER@,
            END_MARKER@,
        ) == line@,
{
    proof {
        if !has_occurrence(line@, query@) {
            lemma_highlight_without_occurrence(line@, query@);
        }
        lemma_highlighted_is_marked_form(line@, query@);
        if !has_occurrence(line@, START_MARKER@) && !has_occurrence(line@, END_MARKER@) {
            lemma_strip_highlighted(line@, query@);
        }
    }
    wrap_occurrences(line, query, START_MARKER, END_MARKER)
}

} // verus!
