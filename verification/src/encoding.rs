//! How positions and occurrences in a text correspond to positions and
//! occurrences in its UTF-8 bytes.

use crate::pattern::{
    first_occurrence, lemma_first_occurrence, lemma_leftmost_is_first, occurs_at,
};
use vstd::prelude::*;
use vstd::utf8::*;

verus! {

/// The number of bytes that the first `i` characters of `text` take in UTF-8.
pub open spec fn byte_offset(text: Seq<char>, i: int) -> int {
    encode_utf8(text.take(i)).len() as int
}

/// The encoding of a text is the encodings of its parts, one after the other.
pub proof fn lemma_encode_concat(a: Seq<char>, b: Seq<char>)
    ensures
        encode_utf8(a + b) == encode_utf8(a) + encode_utf8(b),
    decreases a.len(),
{
    if a.len() == 0 {
        assert(a + b =~= b);
        assert(encode_utf8(a) + encode_utf8(b) =~= encode_utf8(b));
    } else {
        lemma_encode_concat(a.drop_first(), b);
        assert((a + b).drop_first() =~= a.drop_first() + b);
        assert(encode_utf8(a + b) =~= encode_utf8(a) + encode_utf8(b));
    }
}

/// Every character takes at least one byte.
pub proof fn lemma_encode_len(a: Seq<char>)
    ensures
        encode_utf8(a).len() >= a.len(),
    decreases a.len(),
{
    if a.len() > 0 {
        lemma_encode_len(a.drop_first());
    }
}

/// The end of an encoded prefix is a character boundary of the whole.
proof fn lemma_boundary_after(a: Seq<char>, b: Seq<char>)
    ensures
        is_char_boundary(encode_utf8(a + b), encode_utf8(a).len() as int),
    decreases a.len(),
{
    let bytes = encode_utf8(a + b);
    encode_utf8_valid_utf8(a + b);
    if a.len() > 0 {
        let rest = a.drop_first() + b;
        assert((a + b).drop_first() =~= rest);
        encode_utf8_first_scalar(a + b);
        assert(pop_first_scalar(bytes) =~= encode_utf8(rest));
        lemma_boundary_after(a.drop_first(), b);
        lemma_encode_concat(a.drop_first(), b);
    }
}

/// Cutting a text after `i` characters cuts its bytes at `byte_offset`, on a
/// character boundary.
pub proof fn lemma_offset_split(text: Seq<char>, i: int)
    requires
        0 <= i <= text.len(),
    ensures
        0 <= byte_offset(text, i) <= encode_utf8(text).len(),
        encode_utf8(text).take(byte_offset(text, i)) == encode_utf8(text.take(i)),
        encode_utf8(text).skip(byte_offset(text, i)) == encode_utf8(text.skip(i)),
        is_char_boundary(encode_utf8(text), byte_offset(text, i)),
{
    assert(text =~= text.take(i) + text.skip(i));
    lemma_encode_concat(text.take(i), text.skip(i));
    lemma_boundary_after(text.take(i), text.skip(i));
    assert(encode_utf8(text).take(byte_offset(text, i)) =~= encode_utf8(text.take(i)));
    assert(encode_utf8(text).skip(byte_offset(text, i)) =~= encode_utf8(text.skip(i)));
}

/// More characters take more bytes.
pub proof fn lemma_offset_increases(text: Seq<char>, i: int, j: int)
    requires
        0 <= i < j <= text.len(),
    ensures
        byte_offset(text, i) < byte_offset(text, j),
{
    assert(text.take(j) =~= text.take(i) + text.subrange(i, j));
    lemma_encode_concat(text.take(i), text.subrange(i, j));
    lemma_encode_len(text.subrange(i, j));
}

/// A character boundary in the bytes of a text is where some number of its
/// characters end.
pub proof fn lemma_boundary_index(text: Seq<char>, k: int) -> (i: int)
    requires
        is_char_boundary(encode_utf8(text), k),
    ensures
        0 <= i <= text.len(),
        byte_offset(text, i) == k,
{
    let bytes = encode_utf8(text);
    encode_utf8_valid_utf8(text);
    encode_utf8_decode_utf8(text);
    assert(0 <= k <= bytes.len());
    valid_utf8_split(bytes, k);
    decode_utf8_split(bytes, k);
    let head = decode_utf8(bytes.subrange(0, k));
    let tail = decode_utf8(bytes.subrange(k, bytes.len() as int));
    decode_utf8_encode_utf8(bytes.subrange(0, k));
    assert(text =~= head + tail);
    assert(text.take(head.len() as int) =~= head);
    head.len() as int
}

/// A text whose bytes begin the bytes of another text begins that text.
pub proof fn lemma_prefix_from_bytes(a: Seq<char>, b: Seq<char>)
    requires
        encode_utf8(a).is_prefix_of(encode_utf8(b)),
    ensures
        a.is_prefix_of(b),
    decreases a.len(),
{
    if a.len() > 0 {
        let head = encode_utf8(a);
        let whole = encode_utf8(b);
        lemma_encode_len(a);
        encode_utf8_first_scalar(a);
        assert(b.len() > 0);
        encode_utf8_first_scalar(b);
        let width = length_of_first_scalar(head);
        assert(forall|j: int| 0 <= j < width ==> head[j] == whole[j]);
        assert(length_of_first_scalar(whole) == width);
        assert(decode_first_scalar(whole) == decode_first_scalar(head));
        char_u32_cast(a[0], a[0] as u32);
        char_u32_cast(b[0], b[0] as u32);
        assert(a[0] == b[0]);
        assert(encode_utf8(a.drop_first()) =~= head.skip(width));
        assert(encode_utf8(b.drop_first()) =~= whole.skip(width));
        lemma_prefix_from_bytes(a.drop_first(), b.drop_first());
        assert(a =~= seq![a[0]] + a.drop_first());
        assert(b =~= seq![b[0]] + b.drop_first());
        assert(a =~= b.subrange(0, a.len() as int));
    } else {
        assert(a =~= b.subrange(0, 0));
    }
}

/// An occurrence in a text is an occurrence in its bytes, at the byte offset
/// of its index.
pub proof fn lemma_occurrence_to_bytes(text: Seq<char>, query: Seq<char>, i: int)
    requires
        occurs_at(text, query, i),
    ensures
        occurs_at(encode_utf8(text), encode_utf8(query), byte_offset(text, i)),
        byte_offset(text, i + query.len()) == byte_offset(text, i) + encode_utf8(query).len(),
{
    let rest = text.skip(i + query.len());
    assert(text.take(i + query.len()) =~= text.take(i) + query);
    assert(text =~= text.take(i + query.len()) + rest);
    lemma_encode_concat(text.take(i), query);
    lemma_encode_concat(text.take(i + query.len()), rest);
    assert(encode_utf8(text).subrange(
        byte_offset(text, i),
        byte_offset(text, i) + encode_utf8(query).len(),
    ) =~= encode_utf8(query));
}

/// An occurrence of the bytes of a non-empty query in the bytes of a text
/// begins on a character boundary, and is an occurrence of the query in the
/// text.
pub proof fn lemma_occurrence_from_bytes(text: Seq<char>, query: Seq<char>, k: int) -> (i: int)
    requires
        query.len() > 0,
        occurs_at(encode_utf8(text), encode_utf8(query), k),
    ensures
        byte_offset(text, i) == k,
        occurs_at(text, query, i),
{
    let bytes = encode_utf8(text);
    let needle = encode_utf8(query);
    lemma_encode_len(query);
    encode_utf8_first_scalar(query);
    encode_utf8_valid_utf8(text);
    assert(bytes[k] == bytes.subrange(k, k + needle.len())[0]);
    is_char_boundary_iff_not_is_continuation_byte(bytes, k);
    let i = lemma_boundary_index(text, k);
    lemma_offset_split(text, i);
    assert(needle =~= bytes.skip(k).subrange(0, needle.len() as int));
    lemma_prefix_from_bytes(query, text.skip(i));
    assert(text.subrange(i, i + query.len()) =~= text.skip(i).subrange(0, query.len() as int));
    i
}

/// A text ends with a query exactly when its bytes end with the bytes of the
/// query.
pub proof fn lemma_suffix_in_bytes(text: Seq<char>, query: Seq<char>)
    ensures
        occurs_at(text, query, text.len() - query.len()) <==> occurs_at(
            encode_utf8(text),
            encode_utf8(query),
            encode_utf8(text).len() - encode_utf8(query).len(),
        ),
{
    let bytes = encode_utf8(text);
    let needle = encode_utf8(query);
    assert(text.take(text.len() as int) =~= text);
    if occurs_at(text, query, text.len() - query.len()) {
        lemma_occurrence_to_bytes(text, query, text.len() - query.len());
    }
    if occurs_at(bytes, needle, bytes.len() - needle.len()) {
        if query.len() == 0 {
            assert(text.subrange(text.len() as int, text.len() as int) =~= query);
        } else {
            let j = lemma_occurrence_from_bytes(text, query, bytes.len() - needle.len());
            lemma_occurrence_to_bytes(text, query, j);
            if j + query.len() < text.len() {
                lemma_offset_increases(text, j + query.len(), text.len() as int);
            }
        }
    }
}

/// The first byte of a text tells how many bytes its first character takes.
pub proof fn lemma_first_char_width(text: Seq<char>)
    requires
        text.len() > 0,
    ensures
        encode_utf8(text).len() > 0,
        byte_offset(text, 1) == length_of_first_scalar(encode_utf8(text)),
        valid_first_scalar(encode_utf8(text)),
{
    reveal_with_fuel(encode_utf8, 2);
    encode_utf8_first_scalar(text);
    assert(text.take(1).drop_first() =~= Seq::<char>::empty());
    assert(encode_utf8(text.take(1)) =~= encode_scalar(text[0] as u32));
}

/// A single ASCII character takes one byte.
pub proof fn lemma_ascii_is_one_byte(c: char)
    requires
        c <= '\u{7f}',
    ensures
        encode_utf8(seq![c]).len() == 1,
{
    is_ascii_chars_encode_utf8(seq![c]);
}

/// The byte offset of the leftmost occurrence of `query` in `text`, if there
/// is one.
pub open spec fn first_occurrence_offset(text: Seq<char>, query: Seq<char>) -> Option<int> {
    match first_occurrence(text, query) {
        Some(i) => Some(byte_offset(text, i)),
        None => None,
    }
}

/// The leftmost occurrence in the bytes is the leftmost occurrence in the
/// text.
pub proof fn lemma_first_occurrence_in_bytes(text: Seq<char>, query: Seq<char>)
    ensures
        first_occurrence(encode_utf8(text), encode_utf8(query)) == first_occurrence_offset(
            text,
            query,
        ),
{
    let bytes = encode_utf8(text);
    let needle = encode_utf8(query);
    lemma_first_occurrence(text, query);
    lemma_first_occurrence(bytes, needle);
    if query.len() == 0 {
        assert(text.subrange(0, 0) =~= query);
        assert(bytes.subrange(0, 0) =~= needle);
        assert(text.take(0) =~= Seq::<char>::empty());
    } else {
        match first_occurrence(text, query) {
            Some(i) => {
                lemma_occurrence_to_bytes(text, query, i);
                assert forall|k: int| 0 <= k < byte_offset(text, i) implies !occurs_at(
                    bytes,
                    needle,
                    k,
                ) by {
                    if occurs_at(bytes, needle, k) {
                        let j = lemma_occurrence_from_bytes(text, query, k);
                        if i < j {
                            lemma_offset_increases(text, i, j);
                        }
                    }
                }
                lemma_leftmost_is_first(bytes, needle, byte_offset(text, i));
            },
            None => {
                if let Some(k) = first_occurrence(bytes, needle) {
                    let j = lemma_occurrence_from_bytes(text, query, k);
                    assert(occurs_at(text, query, j));
                }
            },
        }
    }
}

} // verus!
