//! Whether one sequence occurs inside another as a contiguous run.

use vstd::prelude::*;
use vstd::utf8::*;
use crate::encoding::{
    lemma_encode_concat,
    lemma_encode_empty,
    lemma_encoded_parts,
    lemma_encoded_prefix,
};

verus! {

/// `needle` stands in `hay` from position `at` on, item for item.
pub open spec fn occurs_at<T>(needle: Seq<T>, hay: Seq<T>, at: int) -> bool {
    &&& 0 <= at
    &&& at + needle.len() <= hay.len()
    &&& hay.subrange(at, at + needle.len()) == needle
}

/// `needle` stands somewhere in `hay`, item for item.
pub open spec fn is_substring<T>(needle: Seq<T>, hay: Seq<T>) -> bool {
    exists|at: int| occurs_at(needle, hay, at)
}

/// A text occurs in another exactly when its encoding occurs in the encoding
/// of the other.
pub proof fn lemma_substring_of_encoding(needle: Seq<char>, hay: Seq<char>)
    ensures
        is_substring(needle, hay) <==> is_substring(encode_utf8(needle), encode_utf8(hay)),
{
    let needle_bytes = encode_utf8(needle);
    let hay_bytes = encode_utf8(hay);
    if is_substring(needle, hay) {
        let at: int = choose|at: int| occurs_at(needle, hay, at);
        let before = hay.take(at);
        let after = hay.skip(at + needle.len());
        assert(hay =~= before + needle + after);
        lemma_encode_concat(before + needle, after);
        lemma_encode_concat(before, needle);
        let offset: int = encode_utf8(before).len() as int;
        assert(hay_bytes.subrange(offset, offset + needle_bytes.len()) =~= needle_bytes);
        assert(occurs_at(needle_bytes, hay_bytes, offset));
    }
    if is_substring(needle_bytes, hay_bytes) {
        if needle.len() == 0 {
            assert(hay.subrange(0, 0) =~= needle);
            assert(occurs_at(needle, hay, 0));
        } else {
            let offset: int = choose|offset: int| occurs_at(needle_bytes, hay_bytes, offset);
            lemma_encode_empty(needle);
            encode_utf8_valid_utf8(needle);
            encode_utf8_valid_utf8(hay);
            is_char_boundary_start_end_of_seq(needle_bytes);
            is_char_boundary_iff_not_is_continuation_byte(needle_bytes, 0);
            is_char_boundary_iff_not_is_continuation_byte(hay_bytes, offset);
            valid_utf8_split(hay_bytes, offset);
            let before = decode_utf8(hay_bytes.subrange(0, offset));
            let rest = decode_utf8(hay_bytes.subrange(offset, hay_bytes.len() as int));
            decode_utf8_encode_utf8(hay_bytes.subrange(0, offset));
            decode_utf8_encode_utf8(hay_bytes.subrange(offset, hay_bytes.len() as int));
            lemma_encoded_parts(hay, before, rest, offset);
            lemma_encoded_prefix(needle, rest);
            let at: int = before.len() as int;
            assert(hay.subrange(at, at + needle.len()) =~= rest.subrange(0, needle.len() as int));
            assert(occurs_at(needle, hay, at));
        }
    }
}

/// Whether `needle` stands in `hay` from byte `at` on.
fn matches_at(hay: &[u8], needle: &[u8], at: usize) -> (same: bool)
    requires
        at + needle.len() <= hay.len(),
    ensures
        same == occurs_at(needle@, hay@, at as int),
{
    let mut k: usize = 0;
    while k < needle.len()
        invariant
            k <= needle.len(),
            at + needle.len() <= hay.len(),
            forall|j: int| 0 <= j < k ==> hay@[at + j] == needle@[j],
        decreases needle.len() - k,
    {
        if hay[at + k] != needle[k] {
            return false;
        }
        k += 1;
    }
    assert(hay@.subrange(at as int, at + needle@.len()) =~= needle@);
    true
}

/// Whether the bytes of `needle` stand somewhere in `hay`.
fn bytes_contain(hay: &[u8], needle: &[u8]) -> (found: bool)
    ensures
        found == is_substring(needle@, hay@),
{
    if needle.len() > hay.len() {
        return false;
    }
    let last: usize = hay.len() - needle.len();
    let mut at: usize = 0;
    while at < last
        invariant
            at <= last,
            last + needle.len() == hay.len(),
            forall|k: int| 0 <= k < at ==> !occurs_at(needle@, hay@, k),
        decreases last - at,
    {
        if matches_at(hay, needle, at) {
            return true;
        }
        at += 1;
    }
    matches_at(hay, needle, last)
}

/// Whether the text `needle` stands somewhere in the text `hay`, character
/// for character. The empty text stands in every text.
pub fn contains(hay: &str, needle: &str) -> (found: bool)
    ensures
        found == is_substring(needle@, hay@),
{
    proof {
        lemma_substring_of_encoding(needle@, hay@);
    }
    bytes_contain(hay.as_bytes(), needle.as_bytes())
}

} // verus!
