//! Occurrences of one sequence inside another, and a search for the leftmost
//! one in a slice of bytes.

use vstd::prelude::*;

verus! {

/// `needle` stands in `hay` at index `at`, element for element.
pub open spec fn occurs_at<T>(hay: Seq<T>, needle: Seq<T>, at: int) -> bool {
    &&& 0 <= at
    &&& at + needle.len() <= hay.len()
    &&& hay.subrange(at, at + needle.len()) == needle
}

/// `needle` stands somewhere in `hay` as a contiguous run.
pub open spec fn has_occurrence<T>(hay: Seq<T>, needle: Seq<T>) -> bool {
    exists|at: int| occurs_at(hay, needle, at)
}

/// The index of the leftmost occurrence of `needle` in `hay`, if there is one.
pub open spec fn first_occurrence<T>(hay: Seq<T>, needle: Seq<T>) -> Option<int>
    decreases hay.len(),
{
    if occurs_at(hay, needle, 0) {
        Some(0)
    } else if hay.len() == 0 {
        None
    } else {
        match first_occurrence(hay.drop_first(), needle) {
            Some(at) => Some(at + 1),
            None => None,
        }
    }
}

/// An occurrence in `hay` after its first `k` elements is an occurrence in
/// what is left when those are dropped, `k` places earlier.
pub proof fn lemma_occurs_at_skip<T>(hay: Seq<T>, needle: Seq<T>, k: int, at: int)
    requires
        0 <= k <= hay.len(),
        0 <= at,
    ensures
        occurs_at(hay.skip(k), needle, at) <==> occurs_at(hay, needle, k + at),
{
    if at + needle.len() <= hay.len() - k {
        assert(hay.skip(k).subrange(at, at + needle.len()) =~= hay.subrange(
            k + at,
            k + at + needle.len(),
        ));
    }
}

/// `first_occurrence` names an occurrence with none to its left, and names
/// one whenever there is any.
pub proof fn lemma_first_occurrence<T>(hay: Seq<T>, needle: Seq<T>)
    ensures
        match first_occurrence(hay, needle) {
            Some(at) => occurs_at(hay, needle, at) && forall|j: int|
                0 <= j < at ==> !occurs_at(hay, needle, j),
            None => !has_occurrence(hay, needle),
        },
    decreases hay.len(),
{
    if occurs_at(hay, needle, 0) {
    } else if hay.len() == 0 {
        assert forall|j: int| !occurs_at(hay, needle, j) by {}
    } else {
        let rest = hay.drop_first();
        lemma_first_occurrence(rest, needle);
        assert forall|j: int| 0 <= j implies (occurs_at(rest, needle, j) <==> occurs_at(
            hay,
            needle,
            j + 1,
        )) by {
            lemma_occurs_at_skip(hay, needle, 1, j);
        }
        match first_occurrence(rest, needle) {
            Some(at) => {
                assert forall|j: int| 0 <= j < at + 1 implies !occurs_at(hay, needle, j) by {
                    if j > 0 {
                        assert(!occurs_at(rest, needle, j - 1));
                    }
                }
            },
            None => {
                assert forall|j: int| !occurs_at(hay, needle, j) by {
                    if j > 0 {
                        assert(!occurs_at(rest, needle, j - 1));
                    }
                }
            },
        }
    }
}

/// An occurrence with none to its left is the one that `first_occurrence`
/// names.
pub proof fn lemma_leftmost_is_first<T>(hay: Seq<T>, needle: Seq<T>, at: int)
    requires
        occurs_at(hay, needle, at),
        forall|j: int| 0 <= j < at ==> !occurs_at(hay, needle, j),
    ensures
        first_occurrence(hay, needle) == Some(at),
{
    lemma_first_occurrence(hay, needle);
}

/// Whether `needle` stands in `hay` at index `at`.
pub(crate) fn matches_at(hay: &[u8], needle: &[u8], at: usize) -> (same: bool)
    requires
        at + needle@.len() <= hay@.len(),
    ensures
        same == occurs_at(hay@, needle@, at as int),
{
    let n: usize = hay.len();
    let m: usize = needle.len();
    let mut k: usize = 0;
    while k < m
        invariant
            n == hay@.len(),
            m == needle@.len(),
            at + m <= n,
            k <= m,
            forall|j: int| 0 <= j < k ==> hay@[at + j] == needle@[j],
        decreases m - k,
    {
        if hay[at + k] != needle[k] {
            proof {
                let window = hay@.subrange(at as int, at + m);
                assert(window[k as int] == hay@[at + k]);
            }
            return false;
        }
        k += 1;
    }
    assert(hay@.subrange(at as int, at + m) =~= needle@);
    true
}

/// The index of the leftmost occurrence of `needle` in `hay`, or `None` where
/// `hay` holds none. An empty `needle` occurs at index 0.
pub fn find_bytes(hay: &[u8], needle: &[u8]) -> (found: Option<usize>)
    ensures
        first_occurrence(hay@, needle@) == match found {
            Some(at) => Some(at as int),
            None => None,
        },
{
    let n: usize = hay.len();
    let m: usize = needle.len();
    proof {
        lemma_first_occurrence(hay@, needle@);
    }
    if m > n {
        return None;
    }
    let last: usize = n - m;
    let mut at: usize = 0;
    loop
        invariant
            n == hay@.len(),
            m == needle@.len(),
            last == n - m,
            at <= last,
            forall|j: int| 0 <= j < at ==> !occurs_at(hay@, needle@, j),
        decreases last - at,
    {
        if matches_at(hay, needle, at) {
            proof {
                lemma_leftmost_is_first(hay@, needle@, at as int);
            }
            return Some(at);
        }
        if at == last {
            proof {
                lemma_first_occurrence(hay@, needle@);
            }
            return None;
        }
        at += 1;
    }
}

} // verus!
