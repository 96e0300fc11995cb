//! Text that grows: what has been parsed from a text is parsed from every
//! text that starts with it.

use vstd::prelude::*;
use crate::ascii::{
    is_number_byte, is_space, CLOSE_BRACE, CLOSE_BRACKET, COMMA, OPEN_BRACE, OPEN_BRACKET, QUOTE,
};
use crate::grammar::{
    byte_at, hex_run, holds_word, items_spec, leaf_spec, left, lemma_skip_space, lemma_string_spec,
    member_spec, members_spec, number_end, second_escape, simple_escape, skip_space, string_body,
    string_spec, unicode_escape, value_spec, Escape,
};
use crate::lex::Pos;
use crate::model::{upsert, Doc, Member};
use crate::parsed::{lemma_member_moves, lemma_number_end, lemma_value_moves};

verus! {

/// The text `longer` starts with the text `text`.
pub open spec fn starts_with(longer: Seq<u8>, text: Seq<u8>) -> bool {
    text.len() <= longer.len() && forall|k: int| 0 <= k < text.len() ==> longer[k] == text[k]
}

/// Whitespace that ends inside a text ends there in a longer text.
pub proof fn lemma_skip_space_grows(text: Seq<u8>, longer: Seq<u8>, pos: Pos)
    requires
        starts_with(longer, text),
        skip_space(text, pos).off < text.len(),
    ensures
        skip_space(longer, pos) == skip_space(text, pos),
    decreases text.len() - pos.off,
{
    lemma_skip_space(text, pos);
    if 0 <= pos.off < text.len() && is_space(text[pos.off]) {
        lemma_skip_space_grows(text, longer, pos.after_space(text[pos.off]));
    }
}

/// The longest run of number bytes that ends inside a text ends there in a
/// longer text.
pub proof fn lemma_number_end_grows(text: Seq<u8>, longer: Seq<u8>, i: int)
    requires
        starts_with(longer, text),
        0 <= i,
        number_end(text, i) < text.len(),
    ensures
        number_end(longer, i) == number_end(text, i),
    decreases text.len() - i,
{
    lemma_number_end(text, i);
    if i < text.len() && is_number_byte(text[i]) {
        lemma_number_end_grows(text, longer, i + 1);
    }
}

/// Hexadecimal digits read from a text are read from a longer text.
pub proof fn lemma_hex_run_grows(text: Seq<u8>, longer: Seq<u8>, i: int, n: int, code: int)
    requires
        starts_with(longer, text),
        0 <= i,
        0 <= n,
        hex_run(text, i, n, code) is Ok,
    ensures
        hex_run(longer, i, n, code) == hex_run(text, i, n, code),
    decreases 4 - n,
{
    if n < 4 {
        lemma_hex_run_grows(
            text,
            longer,
            i,
            n + 1,
            code * 16 + crate::ascii::hex_value(text[i + n]).unwrap(),
        );
    }
}

/// A `\u` escape read from a text is read from a longer text.
pub proof fn lemma_escape_grows(text: Seq<u8>, longer: Seq<u8>, at: int, i: int)
    requires
        starts_with(longer, text),
        0 <= at < i,
        unicode_escape(text, at, i) is Scalar,
    ensures
        unicode_escape(longer, at, i) == unicode_escape(text, at, i),
{
    lemma_hex_run_grows(text, longer, i + 2, 0, 0);
    let first = hex_run(text, i + 2, 0, 0)->Ok_0;
    if crate::grammar::is_high_surrogate(first) {
        assert(second_escape(text, i + 6) is Ok);
        lemma_hex_run_grows(text, longer, i + 8, 0, 0);
    }
}

/// A string literal scanned to its end in a text is scanned alike in a
/// longer text.
pub proof fn lemma_string_body_grows(
    text: Seq<u8>,
    longer: Seq<u8>,
    at: int,
    i: int,
    acc: Seq<u8>,
)
    requires
        starts_with(longer, text),
        0 <= at < i,
        string_body(text, at, i, acc) is Done,
    ensures
        string_body(longer, at, i, acc) == string_body(text, at, i, acc),
    decreases left(text, i),
{
    if text[i] == QUOTE {
    } else if text[i] != crate::ascii::BACKSLASH {
        lemma_string_body_grows(text, longer, at, i + 1, acc.push(text[i]));
    } else if simple_escape(text[i + 1]) is Some {
        lemma_string_body_grows(
            text,
            longer,
            at,
            i + 2,
            acc.push(simple_escape(text[i + 1]).unwrap()),
        );
    } else {
        lemma_escape_grows(text, longer, at, i);
        match unicode_escape(text, at, i) {
            Escape::Scalar(scalar, next) => {
                lemma_string_body_grows(
                    text,
                    longer,
                    at,
                    next,
                    acc + vstd::utf8::encode_scalar(scalar as u32),
                );
            },
            Escape::Fail(_, _) => {},
        }
    }
}

/// A string literal read from a text is read from a longer text.
pub proof fn lemma_string_grows(text: Seq<u8>, longer: Seq<u8>, pos: Pos)
    requires
        starts_with(longer, text),
        string_spec(text, pos).result is Ok,
    ensures
        string_spec(longer, pos) == string_spec(text, pos),
{
    reveal(string_spec);
    lemma_string_body_grows(text, longer, pos.off, pos.off + 1, Seq::empty());
}

/// A leaf read from a text is read from a longer text, if the leaf is no
/// number that ends where the text ends.
pub proof fn lemma_leaf_grows(text: Seq<u8>, longer: Seq<u8>, pos: Pos)
    requires
        starts_with(longer, text),
        0 <= pos.off < text.len(),
        leaf_spec(text, pos).result is Ok,
        leaf_spec(text, pos).pos.off < text.len() || !leaf_spec(
            text,
            pos,
        ).result->Ok_0.is_number(),
    ensures
        leaf_spec(longer, pos) == leaf_spec(text, pos),
{
    reveal(leaf_spec);
    let b = text[pos.off];
    if is_number_byte(b) && b != crate::ascii::LOWER_N && b != crate::ascii::LOWER_T && b
        != crate::ascii::LOWER_F {
        lemma_number_end(text, pos.off);
        lemma_number_end_grows(text, longer, pos.off);
        let end = number_end(text, pos.off);
        assert(longer.subrange(pos.off, end) =~= text.subrange(pos.off, end));
    } else if b == QUOTE {
        lemma_string_grows(text, longer, pos);
    } else {
        assert forall|w: Seq<u8>| holds_word(text, pos.off, w) implies holds_word(
            longer,
            pos.off,
            w,
        ) by {
            assert(longer.subrange(pos.off, pos.off + w.len()) =~= text.subrange(
                pos.off,
                pos.off + w.len(),
            ));
        }
    }
}

/// A value read from a text is read from every text that starts with it, if
/// the value is no number that ends where the text ends.
pub proof fn lemma_value_grows(text: Seq<u8>, longer: Seq<u8>, pos: Pos)
    requires
        starts_with(longer, text),
        0 <= pos.off,
        value_spec(text, pos).result is Ok,
        value_spec(text, pos).pos.off < text.len() || !value_spec(
            text,
            pos,
        ).result->Ok_0.is_number(),
    ensures
        value_spec(longer, pos) == value_spec(text, pos),
    decreases left(text, pos.off), 1int,
{
    let p = skip_space(text, pos);
    lemma_skip_space(text, pos);
    lemma_skip_space_grows(text, longer, pos);
    if text[p.off] == OPEN_BRACKET {
        let inner = skip_space(text, p.advance(1));
        lemma_skip_space(text, p.advance(1));
        lemma_items_start(text, inner, Seq::empty());
        lemma_skip_space_grows(text, longer, p.advance(1));
        lemma_items_grow(text, longer, inner, Seq::empty());
    } else if text[p.off] == OPEN_BRACE {
        let inner = skip_space(text, p.advance(1));
        lemma_skip_space(text, p.advance(1));
        if byte_at(text, inner) == Some(CLOSE_BRACE) {
            lemma_skip_space_grows(text, longer, p.advance(1));
        } else {
            lemma_members_start(text, inner, Seq::empty());
            lemma_skip_space_grows(text, longer, p.advance(1));
            lemma_members_grow(text, longer, inner, Seq::empty());
        }
    } else {
        lemma_leaf_grows(text, longer, p);
    }
}

/// Items are read only from inside a text.
pub proof fn lemma_items_start(text: Seq<u8>, pos: Pos, acc: Seq<Doc>)
    requires
        items_spec(text, pos, acc).result is Ok,
    ensures
        pos.off < text.len(),
{
    if byte_at(text, pos) != Some(CLOSE_BRACKET) {
        let item = value_spec(text, pos);
        assert(item.result is Ok);
        lemma_skip_space(text, pos);
    }
}

/// Members are read only from inside a text.
pub proof fn lemma_members_start(text: Seq<u8>, pos: Pos, acc: Seq<Member>)
    requires
        members_spec(text, pos, acc).result is Ok,
    ensures
        pos.off < text.len(),
{
    let one = member_spec(text, pos);
    assert(one.result is Ok);
    let key = string_spec(text, skip_space(text, pos));
    assert(key.result is Ok);
    assert(byte_at(text, skip_space(text, pos)) is Some) by {
        reveal(string_spec);
    }
    lemma_skip_space(text, pos);
}

/// The items of an array read from a text are read from a longer text.
pub proof fn lemma_items_grow(text: Seq<u8>, longer: Seq<u8>, pos: Pos, acc: Seq<Doc>)
    requires
        starts_with(longer, text),
        0 <= pos.off,
        items_spec(text, pos, acc).result is Ok,
    ensures
        items_spec(longer, pos, acc) == items_spec(text, pos, acc),
    decreases left(text, pos.off), 2int,
{
    lemma_items_start(text, pos, acc);
    if byte_at(text, pos) == Some(CLOSE_BRACKET) {
    } else {
        let item = value_spec(text, pos);
        lemma_value_moves(text, pos);
        match item.result {
            Err(e) => {},
            Ok(v) => {
                let p = skip_space(text, item.pos);
                lemma_skip_space(text, item.pos);
                let next = if byte_at(text, p) == Some(COMMA) {
                    skip_space(text, p.advance(1))
                } else {
                    p
                };
                if byte_at(text, p) == Some(COMMA) {
                    lemma_skip_space(text, p.advance(1));
                }
                lemma_items_start(text, next, acc.push(v));
                lemma_value_grows(text, longer, pos);
                lemma_skip_space_grows(text, longer, item.pos);
                if byte_at(text, p) == Some(COMMA) {
                    lemma_skip_space_grows(text, longer, p.advance(1));
                }
                lemma_items_grow(text, longer, next, acc.push(v));
            },
        }
    }
}

/// A member read from a text, and ended inside it, is read from a longer text.
pub proof fn lemma_member_grows(text: Seq<u8>, longer: Seq<u8>, pos: Pos)
    requires
        starts_with(longer, text),
        0 <= pos.off,
        member_spec(text, pos).result is Ok,
        member_spec(text, pos).pos.off < text.len(),
    ensures
        member_spec(longer, pos) == member_spec(text, pos),
    decreases left(text, pos.off), 2int,
{
    let q = skip_space(text, pos);
    lemma_skip_space(text, pos);
    let key = string_spec(text, q);
    lemma_string_spec(text, q);
    assert(q.off < text.len()) by {
        reveal(string_spec);
    }
    lemma_skip_space_grows(text, longer, pos);
    lemma_string_grows(text, longer, q);
    let colon = skip_space(text, key.pos);
    lemma_skip_space(text, key.pos);
    lemma_skip_space_grows(text, longer, key.pos);
    let start = skip_space(text, colon.advance(1));
    lemma_skip_space(text, colon.advance(1));
    lemma_value_moves(text, start);
    lemma_skip_space_grows(text, longer, colon.advance(1));
    lemma_value_grows(text, longer, start);
}

/// The members of an object read from a text are read from a longer text.
pub proof fn lemma_members_grow(text: Seq<u8>, longer: Seq<u8>, pos: Pos, acc: Seq<Member>)
    requires
        starts_with(longer, text),
        0 <= pos.off,
        members_spec(text, pos, acc).result is Ok,
    ensures
        members_spec(longer, pos, acc) == members_spec(text, pos, acc),
    decreases left(text, pos.off), 3int,
{
    let one = member_spec(text, pos);
    lemma_member_moves(text, pos);
    match one.result {
        Err(e) => {},
        Ok(member) => {
            let p = skip_space(text, one.pos);
            lemma_skip_space(text, one.pos);
            lemma_member_grows(text, longer, pos);
            lemma_skip_space_grows(text, longer, one.pos);
            if byte_at(text, p) == Some(COMMA) && p.off >= pos.off {
                lemma_members_grow(
                    text,
                    longer,
                    p.advance(1),
                    upsert(acc, member.key, member.value),
                );
            }
        },
    }
}

} // verus!
