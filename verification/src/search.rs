//! The lines of a text that contain a query, with or without regard to case.

use crate::lines::{lemma_lines_occur_in_text, lines, lines_of};
use crate::pattern::{has_occurrence, occurs_at};
use crate::text::contains;
use vstd::prelude::*;

verus! {

/// The lowercase form of a text, as the standard library's
/// `str::to_lowercase` computes it from the Unicode tables.
pub uninterp spec fn lowercase_of(text: Seq<char>) -> Seq<char>;

/// The test that a line contains `query` as it is written.
pub open spec fn line_matches(query: Seq<char>) -> spec_fn(Seq<char>) -> bool {
    |line: Seq<char>| has_occurrence(line, query)
}

/// The test that the lowercase form of a line contains the lowercase form of
/// `query`.
pub open spec fn line_matches_ignoring_case(query: Seq<char>) -> spec_fn(Seq<char>) -> bool {
    |line: Seq<char>| has_occurrence(lowercase_of(line), lowercase_of(query))
}

/// The lines of `contents` that contain `query`, in their order and as they
/// are written in `contents`.
pub open spec fn matching_lines(contents: Seq<char>, query: Seq<char>) -> Seq<Seq<char>> {
    lines_of(contents).filter(line_matches(query))
}

/// The lines of `contents` that contain `query` when letter case is ignored,
/// in their order and as they are written in `contents`.
pub open spec fn matching_lines_ignoring_case(contents: Seq<char>, query: Seq<char>) -> Seq<
    Seq<char>,
> {
    lines_of(contents).filter(line_matches_ignoring_case(query))
}

/// `part` is made of the elements that `whole` holds at the indices `at`,
/// which rise: nothing is moved and no element of `whole` is taken twice.
pub open spec fn picks<A>(part: Seq<A>, whole: Seq<A>, at: Seq<int>) -> bool {
    &&& at.len() == part.len()
    &&& forall|k: int| 0 <= k < at.len() ==> 0 <= #[trigger] at[k] < whole.len() && part[k] == whole[at[k]]
    &&& forall|j: int, k: int| 0 <= j < k < at.len() ==> at[j] < at[k]
}

/// `part` is `whole` with some of its elements left out.
pub open spec fn is_subsequence<A>(part: Seq<A>, whole: Seq<A>) -> bool {
    exists|at: Seq<int>| picks(part, whole, at)
}

/// The indices of the elements of `whole` that pass `test`, rising.
pub open spec fn passing<A>(whole: Seq<A>, test: spec_fn(A) -> bool) -> Seq<int>
    decreases whole.len(),
{
    if whole.len() == 0 {
        Seq::empty()
    } else if test(whole.last()) {
        passing(whole.drop_last(), test).push(whole.len() - 1)
    } else {
        passing(whole.drop_last(), test)
    }
}

/// Filtering picks the elements at the passing indices.
pub proof fn lemma_filter_picks<A>(whole: Seq<A>, test: spec_fn(A) -> bool)
    ensures
        picks(whole.filter(test), whole, passing(whole, test)),
    decreases whole.len(),
{
    reveal(Seq::filter);
    if whole.len() > 0 {
        lemma_filter_picks(whole.drop_last(), test);
    }
}

/// What a filter keeps is a subsequence of what it was given.
pub proof fn lemma_filter_is_subsequence<A>(whole: Seq<A>, test: spec_fn(A) -> bool)
    ensures
        is_subsequence(whole.filter(test), whole),
{
    lemma_filter_picks(whole, test);
}

/// A filter whose test every element passes keeps everything.
pub proof fn lemma_filter_keeps_all<A>(whole: Seq<A>, test: spec_fn(A) -> bool)
    requires
        forall|k: int| 0 <= k < whole.len() ==> test(#[trigger] whole[k]),
    ensures
        whole.filter(test) == whole,
    decreases whole.len(),
{
    reveal(Seq::filter);
    if whole.len() > 0 {
        lemma_filter_keeps_all(whole.drop_last(), test);
        assert(whole.drop_last().push(whole.last()) =~= whole);
    }
}

/// The matching lines are lines of the text, in the order of the text, none
/// of them repeated.
pub proof fn lemma_matches_keep_order(contents: Seq<char>, query: Seq<char>)
    ensures
        is_subsequence(matching_lines(contents, query), lines_of(contents)),
        is_subsequence(matching_lines_ignoring_case(contents, query), lines_of(contents)),
{
    lemma_filter_is_subsequence(lines_of(contents), line_matches(query));
    lemma_filter_is_subsequence(lines_of(contents), line_matches_ignoring_case(query));
}

/// Every matching line stands in the text, character for character.
pub proof fn lemma_matches_occur_in_text(contents: Seq<char>, query: Seq<char>)
    ensures
        forall|k: int|
            0 <= k < matching_lines(contents, query).len() ==> has_occurrence(
                contents,
                #[trigger] matching_lines(contents, query)[k],
            ),
        forall|k: int|
            0 <= k < matching_lines_ignoring_case(contents, query).len() ==> has_occurrence(
                contents,
                #[trigger] matching_lines_ignoring_case(contents, query)[k],
            ),
{
    let all = lines_of(contents);
    lemma_lines_occur_in_text(contents);
    lemma_filter_picks(all, line_matches(query));
    lemma_filter_picks(all, line_matches_ignoring_case(query));
    let at = passing(all, line_matches(query));
    assert forall|k: int| 0 <= k < matching_lines(contents, query).len() implies has_occurrence(
        contents,
        #[trigger] matching_lines(contents, query)[k],
    ) by {
        assert(matching_lines(contents, query)[k] == all[at[k]]);
    }
    let at = passing(all, line_matches_ignoring_case(query));
    assert forall|k: int|
        0 <= k < matching_lines_ignoring_case(contents, query).len() implies has_occurrence(
        contents,
        #[trigger] matching_lines_ignoring_case(contents, query)[k],
    ) by {
        assert(matching_lines_ignoring_case(contents, query)[k] == all[at[k]]);
    }
}

/// Every line contains the empty query: searching for it gives every line.
pub proof fn lemma_empty_query_matches_all(contents: Seq<char>)
    ensures
        matching_lines(contents, Seq::empty()) == lines_of(contents),
{
    let all = lines_of(contents);
    let test = line_matches(Seq::empty());
    assert forall|k: int| 0 <= k < all.len() implies test(#[trigger] all[k]) by {
        assert(all[k].subrange(0, 0) =~= Seq::<char>::empty());
        assert(occurs_at(all[k], Seq::<char>::empty(), 0));
    }
    lemma_filter_keeps_all(all, test);
}

/// An empty text has no lines, so no query matches in it.
pub proof fn lemma_empty_text_matches_nothing(query: Seq<char>)
    ensures
        lines_of(Seq::empty()) == Seq::<Seq<char>>::empty(),
        matching_lines(Seq::empty(), query) == Seq::<Seq<char>>::empty(),
        matching_lines_ignoring_case(Seq::empty(), query) == Seq::<Seq<char>>::empty(),
{
    reveal(Seq::filter);
}

/// The standard library's `str::to_lowercase`: the result is the lowercase
/// form of `text`, which is a function of the characters of `text` alone and
/// is named, not spelled out, by `lowercase_of`.
#[verifier::external_body]
fn to_lowercase(text: &str) -> (lower: String)
    ensures
        lower@ == lowercase_of(text@),
{
    text.to_lowercase()
}

/// Every line of `contents` that contains `query` exactly as written, in the
/// order of `contents`. Each line returned is a slice of `contents`.
pub fn search<'a>(query: &str, contents: &'a str) -> (found: Vec<&'a str>)
    ensures
        found.deep_view() == matching_lines(contents@, query@),
        is_subsequence(found.deep_view(), lines_of(contents@)),
        found@.len() <= lines_of(contents@).len(),
        forall|k: int| 0 <= k < found@.len() ==> has_occurrence(contents@, (#[trigger] found@[k])@),
        query@.len() == 0 ==> found.deep_view() == lines_of(contents@),
        contents@.len() == 0 ==> found@.len() == 0,
{
    let all = lines(contents);
    let mut found: Vec<&'a str> = Vec::new();
    let mut k: usize = 0;
    proof {
        reveal(Seq::filter);
    }
    while k < all.len()
        invariant
            k <= all.len(),
            found.deep_view() == all.deep_view().take(k as int).filter(line_matches(query@)),
        decreases all.len() - k,
    {
        let line = all[k];
        let ghost before = found.deep_view();
        let ghost seen = all.deep_view().take(k + 1);
        if contains(line, query) {
            found.push(line);
            assert(found.deep_view() =~= before.push(line@));
        }
        proof {
            reveal(Seq::filter);
            assert(seen.drop_last() =~= all.deep_view().take(k as int));
            assert(seen.last() == line@);
        }
        k += 1;
    }
    proof {
        assert(all.deep_view().take(k as int) =~= all.deep_view());
        lemma_matches_keep_order(contents@, query@);
        lemma_matches_occur_in_text(contents@, query@);
        assert forall|k: int| 0 <= k < found@.len() implies has_occurrence(
            contents@,
            (#[trigger] found@[k])@,
        ) by {
            assert(found@[k]@ == matching_lines(contents@, query@)[k]);
        }
        lines_of(contents@).lemma_filter_len(line_matches(query@));
        if query@.len() == 0 {
            assert(query@ =~= Seq::<char>::empty());
            lemma_empty_query_matches_all(contents@);
        }
        if contents@.len() == 0 {
            assert(contents@ =~= Seq::<char>::empty());
            lemma_empty_text_matches_nothing(query@);
        }
    }
    found
}

/// Every line of `contents` whose lowercase form contains the lowercase form
/// of `query`, in the order of `contents`. Each line returned is a slice of
/// `contents`, in its own case.
pub fn search_case_insensitive<'a>(query: &str, contents: &'a str) -> (found: Vec<&'a str>)
    ensures
        found.deep_view() == matching_lines_ignoring_case(contents@, query@),
        is_subsequence(found.deep_view(), lines_of(contents@)),
        found@.len() <= lines_of(contents@).len(),
        forall|k: int| 0 <= k < found@.len() ==> has_occurrence(contents@, (#[trigger] found@[k])@),
        contents@.len() == 0 ==> found@.len() == 0,
{
    let lowered = to_lowercase(query);
    let all = lines(contents);
    let mut found: Vec<&'a str> = Vec::new();
    let mut k: usize = 0;
    proof {
        reveal(Seq::filter);
    }
    while k < all.len()
        invariant
            k <= all.len(),
            lowered@ == lowercase_of(query@),
            found.deep_view() == all.deep_view().take(k as int).filter(
                line_matches_ignoring_case(query@),
            ),
        decreases all.len() - k,
    {
        let line = all[k];
        let ghost before = found.deep_view();
        let ghost seen = all.deep_view().take(k + 1);
        let folded = to_lowercase(line);
        if contains(folded.as_str(), lowered.as_str()) {
            found.push(line);
            assert(found.deep_view() =~= before.push(line@));
        }
        proof {
            reveal(Seq::filter);
            assert(seen.drop_last() =~= all.deep_view().take(k as int));
            assert(seen.last() == line@);
        }
        k += 1;
    }
    proof {
        assert(all.deep_view().take(k as int) =~= all.deep_view());
        lemma_matches_keep_order(contents@, query@);
        lemma_matches_occur_in_text(contents@, query@);
        assert forall|k: int| 0 <= k < found@.len() implies has_occurrence(
            contents@,
            (#[trigger] found@[k])@,
        ) by {
            assert(found@[k]@ == matching_lines_ignoring_case(contents@, query@)[k]);
        }
        lines_of(contents@).lemma_filter_len(line_matches_ignoring_case(query@));
        if contents@.len() == 0 {
            assert(contents@ =~= Seq::<char>::empty());
            lemma_empty_text_matches_nothing(query@);
        }
    }
    found
}

} // verus!
