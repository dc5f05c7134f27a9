//! Splitting a text into its lines.
//!
//! A line ends at a line feed. A carriage return that stands directly before
//! that line feed belongs to the line ending, not to the line. What follows
//! the last line feed is a line of its own unless it is empty, and is kept as
//! it is, a carriage return at its end included.

use vstd::prelude::*;
use vstd::utf8::*;
use crate::encoding::{
    lemma_after_first_byte,
    lemma_byte_of_char,
    lemma_encode_empty,
    lemma_encode_injective,
    lemma_encoded_parts,
    lemma_first_byte,
    lemma_last_byte,
};
use crate::substring::{is_substring, occurs_at};

verus! {

/// The number of characters of `text` before its first line feed; the length
/// of `text` if it has none.
pub open spec fn line_end(text: Seq<char>) -> nat
    decreases text.len(),
{
    if text.len() == 0 || text[0] == '\n' {
        0
    } else {
        1 + line_end(text.drop_first())
    }
}

/// `line` without the carriage return at its end, if it has one there.
pub open spec fn strip_carriage_return(line: Seq<char>) -> Seq<char> {
    if line.len() > 0 && line.last() == '\r' {
        line.drop_last()
    } else {
        line
    }
}

/// The first line of a non-empty `body`: what stands before its first line
/// feed, without a carriage return directly before that line feed; all of
/// `body`, as it is, if it has no line feed.
pub open spec fn first_line_of(body: Seq<char>) -> Seq<char> {
    if line_end(body) >= body.len() {
        body
    } else {
        strip_carriage_return(body.take(line_end(body) as int))
    }
}

/// What follows the first line of `body` and its line feed.
pub open spec fn after_first_line(body: Seq<char>) -> Seq<char> {
    if line_end(body) >= body.len() {
        Seq::empty()
    } else {
        body.skip(line_end(body) as int + 1)
    }
}

/// The lines of `body`, in order. The empty text has none.
pub open spec fn lines_of(body: Seq<char>) -> Seq<Seq<char>>
    decreases body.len(),
{
    if body.len() == 0 {
        Seq::empty()
    } else {
        seq![first_line_of(body)] + lines_of(after_first_line(body))
    }
}

/// The text of each of `parts`, in order.
pub open spec fn texts(parts: Seq<&str>) -> Seq<Seq<char>> {
    Seq::new(parts.len(), |i: int| parts[i]@)
}

/// The first line of `text` and what follows its line ending, both as parts
/// of `text` itself; nothing if `text` is empty.
pub fn split_line<'a>(text: &'a str) -> (parts: Option<(&'a str, &'a str)>)
    ensures
        match parts {
            None => text@.len() == 0,
            Some((line, rest)) => {
                &&& text@.len() > 0
                &&& line@ == first_line_of(text@)
                &&& rest@ == after_first_line(text@)
                &&& rest@.len() < text@.len()
            },
        },
{
    if text.is_empty() {
        return None;
    }
    let bytes = text.as_bytes();
    let end: usize = position_of(bytes, 10u8);
    proof {
        encode_utf8_valid_utf8(text@);
        if end < bytes@.len() {
            is_char_boundary_iff_not_is_continuation_byte(bytes@, end as int);
        } else {
            is_char_boundary_start_end_of_seq(bytes@);
        }
    }
    let (head, tail) = cut(text, end);
    proof {
        lemma_no_byte_no_char(head@, 10u8);
        lemma_encode_empty(tail@);
    }
    if tail.is_empty() {
        proof {
            lemma_line_end_is_unique(text@, text@.len() as int);
        }
        return Some((text, tail));
    }
    proof {
        lemma_first_byte(tail@);
        lemma_after_first_byte(tail@);
        lemma_line_end_is_unique(text@, head@.len() as int);
    }
    let (_, rest) = cut(tail, 1);
    proof {
        lemma_encode_injective(rest@, tail@.drop_first());
    }
    Some((trim_carriage_return(head), rest))
}

/// The lines of `contents`, in order, each a part of `contents` itself.
pub fn lines<'a>(contents: &'a str) -> (found: Vec<&'a str>)
    ensures
        texts(found@) == lines_of(contents@),
{
    let mut found: Vec<&'a str> = Vec::new();
    let mut rest: &'a str = contents;
    loop
        invariant
            texts(found@) + lines_of(rest@) == lines_of(contents@),
        decreases rest@.len(),
    {
        match split_line(rest) {
            None => {
                return found;
            },
            Some((line, next)) => {
                found.push(line);
                rest = next;
            },
        }
    }
}

/// `line` without the carriage return at its end, if it has one there.
pub fn trim_carriage_return<'a>(line: &'a str) -> (trimmed: &'a str)
    ensures
        trimmed@ == strip_carriage_return(line@),
{
    let bytes = line.as_bytes();
    let len: usize = bytes.len();
    proof {
        lemma_encode_empty(line@);
        if line@.len() > 0 {
            lemma_last_byte(line@);
        }
    }
    if len > 0 && bytes[len - 1] == 13u8 {
        proof {
            encode_utf8_valid_utf8(line@);
            is_char_boundary_iff_not_is_continuation_byte(bytes@, len - 1);
        }
        let (trimmed, _) = cut(line, len - 1);
        proof {
            lemma_encode_injective(trimmed@, line@.drop_last());
        }
        trimmed
    } else {
        line
    }
}

/// The index of the first byte of `bytes` equal to `wanted`; the length of
/// `bytes` if none is.
fn position_of(bytes: &[u8], wanted: u8) -> (at: usize)
    ensures
        at <= bytes@.len(),
        forall|j: int| 0 <= j < at ==> bytes@[j] != wanted,
        at < bytes@.len() ==> bytes@[at as int] == wanted,
{
    let mut at: usize = 0;
    while at < bytes.len() && bytes[at] != wanted
        invariant
            at <= bytes@.len(),
            forall|j: int| 0 <= j < at ==> bytes@[j] != wanted,
        decreases bytes@.len() - at,
    {
        at += 1;
    }
    at
}

/// Cuts `text` in two at byte offset `mid` of its encoding, where a character
/// starts or the text ends.
fn cut<'a>(text: &'a str, mid: usize) -> (parts: (&'a str, &'a str))
    requires
        is_char_boundary(encode_utf8(text@), mid as int),
        mid <= encode_utf8(text@).len(),
    ensures
        text@ == parts.0@ + parts.1@,
        encode_utf8(parts.0@) == encode_utf8(text@).subrange(0, mid as int),
        encode_utf8(parts.1@) == encode_utf8(text@).subrange(
            mid as int,
            encode_utf8(text@).len() as int,
        ),
{
    let parts = text.split_at(mid);
    proof {
        lemma_encoded_parts(text@, parts.0@, parts.1@, mid as int);
    }
    parts
}

/// `line_end` stops at the first line feed: it is within the text, no line
/// feed stands before it, and one stands at it unless it is the end.
pub proof fn lemma_line_end_is_first_line_feed(text: Seq<char>)
    ensures
        line_end(text) <= text.len(),
        forall|i: int| 0 <= i < line_end(text) ==> text[i] != '\n',
        line_end(text) < text.len() ==> text[line_end(text) as int] == '\n',
    decreases text.len(),
{
    if text.len() > 0 && text[0] != '\n' {
        let rest = text.drop_first();
        lemma_line_end_is_first_line_feed(rest);
        assert forall|i: int| 0 <= i < line_end(text) implies text[i] != '\n' by {
            if i > 0 {
                assert(text[i] == rest[i - 1]);
            }
        }
    }
}

/// Only the empty text has no lines.
pub proof fn lemma_no_lines_iff_empty(body: Seq<char>)
    ensures
        lines_of(body).len() == 0 <==> body.len() == 0,
{
}

/// No line holds a line feed.
pub proof fn lemma_lines_hold_no_line_feed(body: Seq<char>)
    ensures
        forall|k: int, i: int|
            0 <= k < lines_of(body).len() && 0 <= i < lines_of(body)[k].len() ==> lines_of(
                body,
            )[k][i] != '\n',
    decreases body.len(),
{
    if body.len() > 0 {
        lemma_line_end_is_first_line_feed(body);
        let rest = after_first_line(body);
        lemma_lines_hold_no_line_feed(rest);
        assert forall|k: int, i: int|
            0 <= k < lines_of(body).len() && 0 <= i < lines_of(body)[k].len() implies lines_of(
            body,
        )[k][i] != '\n' by {
            if k > 0 {
                assert(lines_of(body)[k] == lines_of(rest)[k - 1]);
            }
        }
    }
}

/// Every line stands in the body, character for character.
pub proof fn lemma_lines_are_parts_of_body(body: Seq<char>)
    ensures
        forall|k: int| 0 <= k < lines_of(body).len() ==> is_substring(lines_of(body)[k], body),
    decreases body.len(),
{
    if body.len() > 0 {
        lemma_line_end_is_first_line_feed(body);
        let first = first_line_of(body);
        let rest = after_first_line(body);
        let start: int = body.len() - rest.len();
        lemma_lines_are_parts_of_body(rest);
        assert forall|k: int| 0 <= k < lines_of(body).len() implies is_substring(
            lines_of(body)[k],
            body,
        ) by {
            let line = lines_of(body)[k];
            if k == 0 {
                assert(body.subrange(0, first.len() as int) =~= first);
                assert(occurs_at(first, body, 0));
            } else {
                assert(line == lines_of(rest)[k - 1]);
                let at: int = choose|at: int| occurs_at(line, rest, at);
                assert(body.subrange(start + at, start + at + line.len()) =~= rest.subrange(
                    at,
                    at + line.len(),
                ));
                assert(occurs_at(line, body, start + at));
            }
        }
    }
}

/// A text without a line feed, followed by a line feed and more text, gives
/// one line, without a carriage return at its end, and then the lines of
/// what follows the line feed.
pub proof fn lemma_lines_of_terminated_line(line: Seq<char>, rest: Seq<char>)
    requires
        forall|i: int| 0 <= i < line.len() ==> line[i] != '\n',
    ensures
        lines_of(line + seq!['\n'] + rest) == seq![strip_carriage_return(line)] + lines_of(rest),
{
    let body = line + seq!['\n'] + rest;
    lemma_line_end_is_unique(body, line.len() as int);
    assert(body.take(line.len() as int) =~= line);
    assert(body.skip(line.len() as int + 1) =~= rest);
}

/// A non-empty text without a line feed is one line, kept as it is.
pub proof fn lemma_lines_of_last_line(line: Seq<char>)
    requires
        line.len() > 0,
        forall|i: int| 0 <= i < line.len() ==> line[i] != '\n',
    ensures
        lines_of(line) == seq![line],
{
    lemma_line_end_is_unique(line, line.len() as int);
    assert(lines_of(after_first_line(line)) =~= Seq::<Seq<char>>::empty());
}

/// `line_end` is the one position that is either the end of the text or holds
/// a line feed, and has no line feed before it.
pub proof fn lemma_line_end_is_unique(text: Seq<char>, n: int)
    requires
        0 <= n <= text.len(),
        forall|i: int| 0 <= i < n ==> text[i] != '\n',
        n < text.len() ==> text[n] == '\n',
    ensures
        line_end(text) == n,
    decreases text.len(),
{
    if n > 0 {
        lemma_line_end_is_unique(text.drop_first(), n - 1);
    }
}

/// A text whose encoding holds no byte 0x0A holds no line feed, and likewise
/// for any other value below 0x80.
proof fn lemma_no_byte_no_char(text: Seq<char>, wanted: u8)
    requires
        wanted < 0x80,
        forall|j: int| 0 <= j < encode_utf8(text).len() ==> encode_utf8(text)[j] != wanted,
    ensures
        forall|i: int| 0 <= i < text.len() ==> text[i] != wanted as char,
{
    assert forall|i: int| 0 <= i < text.len() implies text[i] != wanted as char by {
        if text[i] == wanted as char {
            lemma_byte_of_char(text, i);
        }
    }
}

} // verus!
