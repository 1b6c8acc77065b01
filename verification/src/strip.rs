//! Taking the markers out of a highlighted line again.

use crate::highlight::{
    highlighted, lemma_wrapped_before_occurrence, lemma_wrapped_without_occurrence, wrapped,
    END_MARKER, START_MARKER,
};
use crate::pattern::{
    first_occurrence, has_occurrence, lemma_first_occurrence, lemma_occurs_at_skip, occurs_at,
};
use vstd::prelude::*;

verus! {

/// The character that begins a marker.
pub const ESCAPE: char = '\x1b';

/// `mark` begins with the escape character and holds no other.
pub open spec fn is_marker(mark: Seq<char>) -> bool {
    &&& mark.len() > 0
    &&& mark[0] == ESCAPE
    &&& forall|j: int| 1 <= j < mark.len() ==> mark[j] != ESCAPE
}

/// The two differ at an index that both have, so that no text begins with
/// both.
pub open spec fn differ(a: Seq<char>, b: Seq<char>) -> bool {
    exists|j: int| 0 <= j < a.len() && j < b.len() && a[j] != b[j]
}

/// `text` read from the left, with each `start` and each `end` that is met
/// left out.
pub open spec fn stripped(text: Seq<char>, start: Seq<char>, end: Seq<char>) -> Seq<char>
    decreases text.len(),
{
    if text.len() == 0 {
        text
    } else if start.len() > 0 && start.is_prefix_of(text) {
        stripped(text.skip(start.len() as int), start, end)
    } else if end.len() > 0 && end.is_prefix_of(text) {
        stripped(text.skip(end.len() as int), start, end)
    } else {
        text.take(1) + stripped(text.skip(1), start, end)
    }
}

/// `marked` is `line` with markers put in: read from the left, it gives the
/// characters of `line` one by one, with a `start` or an `end` before any of
/// them and after the last.
pub open spec fn is_marked_form(
    marked: Seq<char>,
    line: Seq<char>,
    start: Seq<char>,
    end: Seq<char>,
) -> bool
    decreases marked.len(),
{
    if marked.len() == 0 {
        line.len() == 0
    } else {
        ||| start.len() > 0 && start.is_prefix_of(marked) && is_marked_form(
            marked.skip(start.len() as int),
            line,
            start,
            end,
        )
        ||| end.len() > 0 && end.is_prefix_of(marked) && is_marked_form(
            marked.skip(end.len() as int),
            line,
            start,
            end,
        )
        ||| line.len() > 0 && marked[0] == line[0] && is_marked_form(
            marked.skip(1),
            line.skip(1),
            start,
            end,
        )
    }
}

/// Text put before a marked form and before its line gives a marked form.
proof fn lemma_form_after_text(
    text: Seq<char>,
    marked: Seq<char>,
    line: Seq<char>,
    start: Seq<char>,
    end: Seq<char>,
)
    requires
        is_marked_form(marked, line, start, end),
    ensures
        is_marked_form(text + marked, text + line, start, end),
    decreases text.len(),
{
    if text.len() == 0 {
        assert(text + marked =~= marked);
        assert(text + line =~= line);
    } else {
        lemma_form_after_text(text.skip(1), marked, line, start, end);
        assert((text + marked).skip(1) =~= text.skip(1) + marked);
        assert((text + line).skip(1) =~= text.skip(1) + line);
    }
}

/// A marker put before a marked form gives a marked form of the same line.
proof fn lemma_form_after_marker(
    mark: Seq<char>,
    marked: Seq<char>,
    line: Seq<char>,
    start: Seq<char>,
    end: Seq<char>,
)
    requires
        mark.len() > 0,
        mark == start || mark == end,
        is_marked_form(marked, line, start, end),
    ensures
        is_marked_form(mark + marked, line, start, end),
{
    assert((mark + marked).subrange(0, mark.len() as int) =~= mark);
    assert((mark + marked).skip(mark.len() as int) =~= marked);
}

/// Wrapping only puts markers in: the characters of the line stay, in their
/// order, and nothing else is added.
pub proof fn lemma_wrapped_is_marked_form(
    line: Seq<char>,
    query: Seq<char>,
    start: Seq<char>,
    end: Seq<char>,
)
    requires
        start.len() > 0,
        end.len() > 0,
    ensures
        is_marked_form(wrapped(line, query, start, end), line, start, end),
    decreases line.len(),
{
    let none = Seq::<char>::empty();
    if occurs_at(line, query, 0) {
        if query.len() > 0 {
            let rest = line.skip(query.len() as int);
            let after = wrapped(rest, query, start, end);
            lemma_wrapped_is_marked_form(rest, query, start, end);
            lemma_form_after_marker(end, after, rest, start, end);
            lemma_form_after_text(query, end + after, rest, start, end);
            lemma_form_after_marker(start, query + (end + after), query + rest, start, end);
            assert(query + rest =~= line);
            assert(start + (query + (end + after)) =~= wrapped(line, query, start, end));
        } else if line.len() == 0 {
            assert(is_marked_form(none, line, start, end));
            lemma_form_after_marker(end, none, line, start, end);
            lemma_form_after_marker(start, end + none, line, start, end);
            assert(start + (end + none) =~= wrapped(line, query, start, end));
        } else {
            let first = line.take(1);
            let rest = line.skip(1);
            let after = wrapped(rest, query, start, end);
            lemma_wrapped_is_marked_form(rest, query, start, end);
            lemma_form_after_text(first, after, rest, start, end);
            lemma_form_after_marker(end, first + after, first + rest, start, end);
            lemma_form_after_marker(start, end + (first + after), first + rest, start, end);
            assert(first + rest =~= line);
            assert(start + (end + (first + after)) =~= wrapped(line, query, start, end));
        }
    } else if line.len() > 0 {
        let first = line.take(1);
        let rest = line.skip(1);
        lemma_wrapped_is_marked_form(rest, query, start, end);
        lemma_form_after_text(first, wrapped(rest, query, start, end), rest, start, end);
        assert(first + rest =~= line);
    }
}

/// A highlighted line is the line with markers put in: taking the markers
/// that were put in out again leaves exactly the line.
pub proof fn lemma_highlighted_is_marked_form(line: Seq<char>, query: Seq<char>)
    ensures
        is_marked_form(highlighted(line, query), line, START_MARKER@, END_MARKER@),
{
    lemma_markers();
    lemma_wrapped_is_marked_form(line, query, START_MARKER@, END_MARKER@);
}

/// What does not occur in a text does not occur in a part of it.
pub proof fn lemma_no_occurrence_in_part(text: Seq<char>, mark: Seq<char>, from: int, to: int)
    requires
        0 <= from <= to <= text.len(),
        !has_occurrence(text, mark),
    ensures
        !has_occurrence(text.subrange(from, to), mark),
{
    let part = text.subrange(from, to);
    assert forall|at: int| !occurs_at(part, mark, at) by {
        if occurs_at(part, mark, at) {
            assert(text.subrange(from + at, from + at + mark.len()) =~= part.subrange(
                at,
                at + mark.len(),
            ));
            assert(occurs_at(text, mark, from + at));
        }
    }
}

/// A marker does not begin a text that is free of it and is followed by
/// nothing or by the escape character.
proof fn lemma_marker_not_at_start(mark: Seq<char>, text: Seq<char>, next: Seq<char>)
    requires
        is_marker(mark),
        text.len() > 0,
        !has_occurrence(text, mark),
        next.len() == 0 || next[0] == ESCAPE,
    ensures
        !mark.is_prefix_of(text + next),
{
    let all = text + next;
    if mark.is_prefix_of(all) {
        if mark.len() <= text.len() {
            assert(text.subrange(0, mark.len() as int) =~= mark);
            assert(occurs_at(text, mark, 0));
        } else {
            assert(all[text.len() as int] == mark[text.len() as int]);
        }
    }
}

/// Stripping passes over a text that is free of markers and is followed by
/// nothing or by the escape character.
proof fn lemma_strip_passes_text(
    text: Seq<char>,
    next: Seq<char>,
    start: Seq<char>,
    end: Seq<char>,
)
    requires
        is_marker(start),
        is_marker(end),
        !has_occurrence(text, start),
        !has_occurrence(text, end),
        next.len() == 0 || next[0] == ESCAPE,
    ensures
        stripped(text + next, start, end) == text + stripped(next, start, end),
    decreases text.len(),
{
    if text.len() == 0 {
        assert(text + next =~= next);
        assert(text + stripped(next, start, end) =~= stripped(next, start, end));
    } else {
        let all = text + next;
        let rest = text.skip(1);
        lemma_marker_not_at_start(start, text, next);
        lemma_marker_not_at_start(end, text, next);
        lemma_no_occurrence_in_part(text, start, 1, text.len() as int);
        lemma_no_occurrence_in_part(text, end, 1, text.len() as int);
        lemma_strip_passes_text(rest, next, start, end);
        assert(all.skip(1) =~= rest + next);
        assert(all.take(1) =~= text.take(1));
        assert(text.take(1) + (rest + stripped(next, start, end)) =~= text + stripped(
            next,
            start,
            end,
        ));
    }
}

/// Stripping leaves out a marker that begins the text.
proof fn lemma_strip_drops_start(next: Seq<char>, start: Seq<char>, end: Seq<char>)
    requires
        is_marker(start),
    ensures
        stripped(start + next, start, end) == stripped(next, start, end),
{
    let all = start + next;
    assert(all.subrange(0, start.len() as int) =~= start);
    assert(all.skip(start.len() as int) =~= next);
}

/// Stripping leaves out an end marker that begins the text.
proof fn lemma_strip_drops_end(next: Seq<char>, start: Seq<char>, end: Seq<char>)
    requires
        is_marker(end),
        differ(start, end),
    ensures
        stripped(end + next, start, end) == stripped(next, start, end),
{
    let all = end + next;
    let j = choose|j: int| 0 <= j < start.len() && j < end.len() && start[j] != end[j];
    if start.is_prefix_of(all) {
        assert(all[j] == start[j]);
    }
    assert(all.subrange(0, end.len() as int) =~= end);
    assert(all.skip(end.len() as int) =~= next);
}

/// One step of stripping a wrapped text that begins with an occurrence of a
/// non-empty query: the occurrence stays, its two markers go.
proof fn lemma_strip_marked_occurrence(
    tail: Seq<char>,
    query: Seq<char>,
    start: Seq<char>,
    end: Seq<char>,
)
    requires
        is_marker(start),
        is_marker(end),
        differ(start, end),
        !has_occurrence(tail, start),
        !has_occurrence(tail, end),
        query.len() > 0,
        occurs_at(tail, query, 0),
    ensures
        stripped(wrapped(tail, query, start, end), start, end) == query + stripped(
            wrapped(tail.skip(query.len() as int), query, start, end),
            start,
            end,
        ),
{
    let after = wrapped(tail.skip(query.len() as int), query, start, end);
    lemma_no_occurrence_in_part(tail, start, 0, query.len() as int);
    lemma_no_occurrence_in_part(tail, end, 0, query.len() as int);
    assert(wrapped(tail, query, start, end) =~= start + (query + (end + after)));
    lemma_strip_drops_start(query + (end + after), start, end);
    lemma_strip_passes_text(query, end + after, start, end);
    lemma_strip_drops_end(after, start, end);
}

/// One step of stripping a wrapped text where the query is empty: the first
/// character stays, the two markers before it go.
proof fn lemma_strip_marked_gap(tail: Seq<char>, start: Seq<char>, end: Seq<char>)
    requires
        is_marker(start),
        is_marker(end),
        differ(start, end),
        !has_occurrence(tail, start),
        !has_occurrence(tail, end),
        tail.len() > 0,
    ensures
        stripped(wrapped(tail, Seq::empty(), start, end), start, end) == tail.take(1) + stripped(
            wrapped(tail.skip(1), Seq::empty(), start, end),
            start,
            end,
        ),
{
    let query = Seq::<char>::empty();
    let first = tail.take(1);
    let rest = tail.skip(1);
    let after = wrapped(rest, query, start, end);
    assert(tail.subrange(0, 0) =~= query);
    assert(rest.subrange(0, 0) =~= query);
    assert(after.len() > 0 && after[0] == ESCAPE);
    lemma_no_occurrence_in_part(tail, start, 0, 1);
    lemma_no_occurrence_in_part(tail, end, 0, 1);
    assert(wrapped(tail, query, start, end) =~= start + (end + (first + after)));
    lemma_strip_drops_start(end + (first + after), start, end);
    lemma_strip_drops_end(first + after, start, end);
    lemma_strip_passes_text(first, after, start, end);
}

/// Stripping a wrapped text that begins with an occurrence of the query
/// gives the text back.
proof fn lemma_strip_from_occurrence(
    tail: Seq<char>,
    query: Seq<char>,
    start: Seq<char>,
    end: Seq<char>,
)
    requires
        is_marker(start),
        is_marker(end),
        differ(start, end),
        !has_occurrence(tail, start),
        !has_occurrence(tail, end),
        occurs_at(tail, query, 0),
    ensures
        stripped(wrapped(tail, query, start, end), start, end) == tail,
    decreases tail.len(), 0nat,
{
    let none = Seq::<char>::empty();
    let n = tail.len() as int;
    if query.len() > 0 {
        let rest = tail.skip(query.len() as int);
        lemma_no_occurrence_in_part(tail, start, query.len() as int, n);
        lemma_no_occurrence_in_part(tail, end, query.len() as int, n);
        lemma_strip_wrapped(rest, query, start, end);
        lemma_strip_marked_occurrence(tail, query, start, end);
        assert(query + rest =~= tail);
    } else if n == 0 {
        assert(wrapped(tail, query, start, end) =~= start + (end + none));
        lemma_strip_drops_start(end + none, start, end);
        lemma_strip_drops_end(none, start, end);
    } else {
        assert(query =~= none);
        lemma_no_occurrence_in_part(tail, start, 1, n);
        lemma_no_occurrence_in_part(tail, end, 1, n);
        lemma_strip_wrapped(tail.skip(1), query, start, end);
        lemma_strip_marked_gap(tail, start, end);
        assert(tail.take(1) + tail.skip(1) =~= tail);
    }
}

/// A wrapped text that begins with an occurrence of the query begins with
/// the start marker.
proof fn lemma_wrapped_begins_marked(
    tail: Seq<char>,
    query: Seq<char>,
    start: Seq<char>,
    end: Seq<char>,
)
    requires
        start.len() > 0,
        occurs_at(tail, query, 0),
    ensures
        wrapped(tail, query, start, end).len() > 0,
        wrapped(tail, query, start, end)[0] == start[0],
{
}

/// Stripping a wrapped line whose first occurrence of the query is at `i`,
/// given that stripping works from that occurrence on.
proof fn lemma_strip_up_to_occurrence(
    line: Seq<char>,
    query: Seq<char>,
    start: Seq<char>,
    end: Seq<char>,
    i: int,
)
    requires
        is_marker(start),
        is_marker(end),
        !has_occurrence(line, start),
        !has_occurrence(line, end),
        occurs_at(line, query, i),
        forall|j: int| 0 <= j < i ==> !occurs_at(line, query, j),
        stripped(wrapped(line.skip(i), query, start, end), start, end) == line.skip(i),
    ensures
        stripped(wrapped(line, query, start, end), start, end) == line,
{
    let head = line.take(i);
    let tail = line.skip(i);
    let marked = wrapped(tail, query, start, end);
    lemma_wrapped_before_occurrence(line, query, start, end, i);
    lemma_occurs_at_skip(line, query, i, 0);
    lemma_wrapped_begins_marked(tail, query, start, end);
    lemma_no_occurrence_in_part(line, start, 0, i);
    lemma_no_occurrence_in_part(line, end, 0, i);
    lemma_strip_passes_text(head, marked, start, end);
    assert(head + tail =~= line);
}

/// Where the line itself holds neither marker, stripping the markers from
/// the wrapped line gives the line back.
pub proof fn lemma_strip_wrapped(
    line: Seq<char>,
    query: Seq<char>,
    start: Seq<char>,
    end: Seq<char>,
)
    requires
        is_marker(start),
        is_marker(end),
        differ(start, end),
        !has_occurrence(line, start),
        !has_occurrence(line, end),
    ensures
        stripped(wrapped(line, query, start, end), start, end) == line,
    decreases line.len(), 1nat,
{
    lemma_first_occurrence(line, query);
    match first_occurrence(line, query) {
        None => {
            lemma_wrapped_without_occurrence(line, query, start, end);
            lemma_strip_passes_text(line, Seq::empty(), start, end);
            assert(line + Seq::<char>::empty() =~= line);
        },
        Some(i) => {
            lemma_occurs_at_skip(line, query, i, 0);
            lemma_no_occurrence_in_part(line, start, i, line.len() as int);
            lemma_no_occurrence_in_part(line, end, i, line.len() as int);
            lemma_strip_from_occurrence(line.skip(i), query, start, end);
            lemma_strip_up_to_occurrence(line, query, start, end, i);
        },
    }
}

/// The two markers begin with the escape character, hold no other, and
/// differ.
pub proof fn lemma_markers()
    ensures
        is_marker(START_MARKER@),
        is_marker(END_MARKER@),
        differ(START_MARKER@, END_MARKER@),
{
    reveal_strlit("\x1b[38;2;192;32;56m");
    reveal_strlit("\x1b[0m");
    assert(START_MARKER@[2] != END_MARKER@[2]);
}

/// Where the line itself holds neither marker, taking the markers out of the
/// highlighted line gives the line back.
pub proof fn lemma_strip_highlighted(line: Seq<char>, query: Seq<char>)
    requires
        !has_occurrence(line, START_MARKER@),
        !has_occurrence(line, END_MARKER@),
    ensures
        stripped(highlighted(line, query), START_MARKER@, END_MARKER@) == line,
{
    lemma_markers();
    lemma_strip_wrapped(line, query, START_MARKER@, END_MARKER@);
}

} // verus!
