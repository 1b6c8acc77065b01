//! Searching and cutting string slices by their bytes, with contracts over
//! their characters.

use crate::encoding::{
    byte_offset, first_occurrence_offset, lemma_first_char_width,
    lemma_first_occurrence_in_bytes, lemma_offset_split, lemma_suffix_in_bytes,
};
use crate::pattern::{find_bytes, has_occurrence, lemma_first_occurrence, matches_at, occurs_at};
use vstd::prelude::*;
use vstd::utf8::encode_utf8_decode_utf8;

verus! {

/// The byte offset of the leftmost occurrence of `needle` in `hay`, or `None`
/// where `hay` does not contain it. An empty `needle` is found at offset 0.
pub fn find(hay: &str, needle: &str) -> (found: Option<usize>)
    ensures
        first_occurrence_offset(hay@, needle@) == match found {
            Some(at) => Some(at as int),
            None => None,
        },
{
    proof {
        lemma_first_occurrence_in_bytes(hay@, needle@);
    }
    find_bytes(hay.as_bytes(), needle.as_bytes())
}

/// Whether `needle` stands in `hay` as a contiguous run of characters.
pub fn contains(hay: &str, needle: &str) -> (found: bool)
    ensures
        found == has_occurrence(hay@, needle@),
{
    proof {
        lemma_first_occurrence(hay@, needle@);
    }
    find(hay, needle).is_some()
}

/// Whether the last characters of `text` are those of `suffix`.
pub fn ends_with(text: &str, suffix: &str) -> (same: bool)
    ensures
        same == occurs_at(text@, suffix@, text@.len() - suffix@.len()),
{
    proof {
        lemma_suffix_in_bytes(text@, suffix@);
    }
    let hay = text.as_bytes();
    let needle = suffix.as_bytes();
    let n: usize = hay.len();
    let m: usize = needle.len();
    m <= n && matches_at(hay, needle, n - m)
}

/// Cuts `text` after its first `i` characters, which end at byte `at`.
pub(crate) fn cut<'a>(text: &'a str, at: usize, Ghost(i): Ghost<int>) -> (parts: (&'a str, &'a str))
    requires
        0 <= i <= text@.len(),
        at == byte_offset(text@, i),
    ensures
        parts.0@ == text@.take(i),
        parts.1@ == text@.skip(i),
{
    proof {
        lemma_offset_split(text@, i);
    }
    let parts = text.split_at(at);
    proof {
        encode_utf8_decode_utf8(parts.0@);
        encode_utf8_decode_utf8(parts.1@);
        encode_utf8_decode_utf8(text@.take(i));
        encode_utf8_decode_utf8(text@.skip(i));
    }
    parts
}

/// The number of bytes that the first character of `text` takes.
pub(crate) fn first_char_width(text: &str) -> (width: usize)
    requires
        text@.len() > 0,
    ensures
        width == byte_offset(text@, 1),
{
    proof {
        lemma_first_char_width(text@);
    }
    let lead: u8 = text.as_bytes()[0];
    if lead < 0x80 {
        1
    } else if lead < 0xe0 {
        2
    } else if lead < 0xf0 {
        3
    } else {
        4
    }
}

} // verus!
