//! Facts about the UTF-8 encoding of a text that let byte-level scanning
//! answer questions asked about characters.

use vstd::prelude::*;
use vstd::utf8::*;

verus! {

/// Encoding distributes over concatenation.
pub proof fn lemma_encode_concat(a: Seq<char>, b: Seq<char>)
    ensures
        encode_utf8(a + b) == encode_utf8(a) + encode_utf8(b),
    decreases a.len(),
{
    if a.len() > 0 {
        lemma_encode_concat(a.drop_first(), b);
        assert((a + b).drop_first() =~= a.drop_first() + b);
    }
}

/// Two texts with the same encoding are the same text.
pub proof fn lemma_encode_injective(a: Seq<char>, b: Seq<char>)
    requires
        encode_utf8(a) == encode_utf8(b),
    ensures
        a == b,
{
    encode_utf8_decode_utf8(a);
    encode_utf8_decode_utf8(b);
}

/// Only the empty text has an empty encoding.
pub proof fn lemma_encode_empty(a: Seq<char>)
    ensures
        encode_utf8(a).len() == 0 <==> a.len() == 0,
{
    if encode_utf8(a).len() == 0 {
        lemma_encode_injective(a, Seq::<char>::empty());
    }
}

/// Two texts whose encodings are the two parts of the encoding of `whole`, cut
/// at `mid`, are the two parts of `whole`.
pub proof fn lemma_encoded_parts(whole: Seq<char>, head: Seq<char>, tail: Seq<char>, mid: int)
    requires
        0 <= mid <= encode_utf8(whole).len(),
        encode_utf8(head) == encode_utf8(whole).subrange(0, mid),
        encode_utf8(tail) == encode_utf8(whole).subrange(mid, encode_utf8(whole).len() as int),
    ensures
        whole == head + tail,
{
    lemma_encode_concat(head, tail);
    assert(encode_utf8(head) + encode_utf8(tail) =~= encode_utf8(whole));
    lemma_encode_injective(head + tail, whole);
}

/// A character below 0x80 is encoded as the one byte of the same value, and
/// the encoding of any other character holds only bytes from 0x80 up.
pub proof fn lemma_encode_scalar_bytes(c: char)
    ensures
        1 <= encode_scalar(c as u32).len() <= 4,
        c <= '\u{7f}' ==> encode_scalar(c as u32) == seq![c as u8],
        c <= '\u{7f}' ==> (c as u8) < 0x80 && (c as u8) as char == c,
        c > '\u{7f}' ==> forall|k: int|
            0 <= k < encode_scalar(c as u32).len() ==> #[trigger] encode_scalar(c as u32)[k]
                >= 0x80,
{
    let v: u32 = c as u32;
    assert(v <= 0x7f ==> (v & 0x7f) as u8 == v as u8) by (bit_vector);
    assert(0xC0 | ((v >> 6) & 0x1F) as u8 >= 0x80) by (bit_vector);
    assert(0xE0 | ((v >> 12) & 0x0F) as u8 >= 0x80) by (bit_vector);
    assert(0xF0 | ((v >> 18) & 0x7) as u8 >= 0x80) by (bit_vector);
    assert(0x80 | (v & 0x3F) as u8 >= 0x80) by (bit_vector);
    assert(0x80 | ((v >> 6) & 0x3F) as u8 >= 0x80) by (bit_vector);
    assert(0x80 | ((v >> 12) & 0x3F) as u8 >= 0x80) by (bit_vector);
}

/// The encoding of a text of one character is the encoding of that character.
pub proof fn lemma_encode_single(c: char)
    ensures
        encode_utf8(seq![c]) == encode_scalar(c as u32),
{
    reveal_with_fuel(encode_utf8, 2);
}

/// The first byte of an encoding is below 0x80 exactly when the first
/// character is, and then the two have the same value.
pub proof fn lemma_first_byte(text: Seq<char>)
    requires
        text.len() > 0,
    ensures
        encode_utf8(text).len() > 0,
        text[0] <= '\u{7f}' <==> encode_utf8(text)[0] < 0x80,
        text[0] <= '\u{7f}' ==> encode_utf8(text)[0] as char == text[0],
{
    lemma_encode_scalar_bytes(text[0]);
}

/// The last byte of an encoding is below 0x80 exactly when the last character
/// is; then the two have the same value, and the bytes before it encode the
/// text before that character.
pub proof fn lemma_last_byte(text: Seq<char>)
    requires
        text.len() > 0,
    ensures
        encode_utf8(text).len() > 0,
        text.last() <= '\u{7f}' <==> encode_utf8(text).last() < 0x80,
        text.last() <= '\u{7f}' ==> encode_utf8(text).last() as char == text.last(),
        text.last() <= '\u{7f}' ==> encode_utf8(text.drop_last()) == encode_utf8(
            text,
        ).drop_last(),
{
    let c = text.last();
    lemma_encode_scalar_bytes(c);
    lemma_encode_single(c);
    lemma_encode_concat(text.drop_last(), seq![c]);
    assert(text =~= text.drop_last() + seq![c]);
}

/// A character below 0x80 at position `i` of a text shows as the byte of the
/// same value in the encoding, right after the encoding of what precedes it.
pub proof fn lemma_byte_of_char(text: Seq<char>, i: int)
    requires
        0 <= i < text.len(),
        text[i] <= '\u{7f}',
    ensures
        encode_utf8(text.take(i)).len() < encode_utf8(text).len(),
        encode_utf8(text)[encode_utf8(text.take(i)).len() as int] as char == text[i],
{
    lemma_encode_concat(text.take(i), text.skip(i));
    assert(text =~= text.take(i) + text.skip(i));
    lemma_first_byte(text.skip(i));
}

/// After a first character below 0x80 a new character starts at byte 1, and
/// the bytes from there on encode the rest of the text.
pub proof fn lemma_after_first_byte(text: Seq<char>)
    requires
        text.len() > 0,
        text[0] <= '\u{7f}',
    ensures
        is_char_boundary(encode_utf8(text), 1),
        encode_utf8(text.drop_first()) == encode_utf8(text).subrange(
            1,
            encode_utf8(text).len() as int,
        ),
{
    lemma_encode_scalar_bytes(text[0]);
    encode_utf8_valid_utf8(text);
    encode_utf8_valid_utf8(text.drop_first());
    reveal_with_fuel(is_char_boundary, 2);
}

/// If the encoding of `a` is the start of the encoding of `b`, then `a` is the
/// start of `b`: no character's encoding is the start of another's.
pub proof fn lemma_encoded_prefix(a: Seq<char>, b: Seq<char>)
    requires
        encode_utf8(a).is_prefix_of(encode_utf8(b)),
    ensures
        a.is_prefix_of(b),
    decreases a.len(),
{
    if a.len() > 0 {
        let bytes_a = encode_utf8(a);
        let bytes_b = encode_utf8(b);
        lemma_encode_empty(a);
        lemma_encode_empty(b);
        // The first character is read off the first bytes, which are the same.
        encode_utf8_first_scalar(a);
        encode_utf8_first_scalar(b);
        char_u32_cast(a[0], a[0] as u32);
        char_u32_cast(b[0], b[0] as u32);
        assert(a[0] == b[0]);
        // What follows it encodes the rest, on both sides.
        let width: int = length_of_first_scalar(bytes_a);
        assert(encode_utf8(a.drop_first()) =~= bytes_a.subrange(width, bytes_a.len() as int));
        assert(encode_utf8(b.drop_first()) =~= bytes_b.subrange(width, bytes_b.len() as int));
        lemma_encoded_prefix(a.drop_first(), b.drop_first());
        assert forall|i: int| 0 <= i < a.len() implies a[i] == b[i] by {
            if i > 0 {
                assert(a[i] == a.drop_first()[i - 1]);
            }
        }
    }
}

} // verus!
