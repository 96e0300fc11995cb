//! What holds of whatever is parsed: it is well-formed, and the tracker has
//! moved on.

use vstd::prelude::*;
use vstd::utf8::valid_utf8;
use crate::ascii::{is_number_byte, CLOSE_BRACE, CLOSE_BRACKET, COMMA, OPEN_BRACE, OPEN_BRACKET};
use crate::grammar::{
    byte_at, items_spec, leaf_spec, left, lemma_int_lexeme_fits, lemma_skip_space,
    lemma_string_spec, member_spec, members_spec, number_end, number_spec, skip_space, string_spec,
    value_spec,
};
use crate::lex::Pos;
use crate::model::{all_wf, lemma_upsert_sorted, lemma_upsert_values, sorted, upsert, Doc, Member};

verus! {

/// A sorted store of well-formed members stays one when a well-formed member
/// is put into it.
pub proof fn lemma_upsert_wf(members: Seq<Member>, key: Seq<u8>, value: Doc)
    requires
        sorted(members),
        all_wf(members),
        valid_utf8(key),
        value.wf(),
    ensures
        sorted(upsert(members, key, value)),
        all_wf(upsert(members, key, value)),
{
    lemma_upsert_sorted(members, key, value);
    lemma_upsert_values(members, key, value);
    let after = upsert(members, key, value);
    assert forall|i: int| 0 <= i < after.len() implies valid_utf8((#[trigger] after[i]).key)
        && after[i].value.wf() by {
        if after[i] != (Member { key, value }) {
            let j = choose|j: int| 0 <= j < members.len() && members[j] == after[i];
            assert(valid_utf8(members[j].key));
        }
    }
}

/// A leaf that parses is well-formed.
pub proof fn lemma_leaf_wf(text: Seq<u8>, pos: Pos)
    requires
        leaf_spec(text, pos).result is Ok,
    ensures
        leaf_spec(text, pos).result->Ok_0.wf(),
{
    reveal(leaf_spec);
    reveal(string_spec);
    let end = number_end(text, pos.off);
    lemma_int_lexeme_fits(text.subrange(pos.off, end));
}

/// Whatever parses is well-formed.
pub proof fn lemma_value_wf(text: Seq<u8>, pos: Pos)
    requires
        value_spec(text, pos).result is Ok,
    ensures
        value_spec(text, pos).result->Ok_0.wf(),
    decreases left(text, pos.off), 1int,
{
    let p = skip_space(text, pos);
    lemma_skip_space(text, pos);
    if text[p.off] == OPEN_BRACKET {
        let inner = skip_space(text, p.advance(1));
        lemma_skip_space(text, p.advance(1));
        lemma_items_wf(text, inner, Seq::empty());
    } else if text[p.off] == OPEN_BRACE {
        let inner = skip_space(text, p.advance(1));
        lemma_skip_space(text, p.advance(1));
        if byte_at(text, inner) != Some(CLOSE_BRACE) {
            lemma_members_wf(text, inner, Seq::empty());
        }
    } else {
        lemma_leaf_wf(text, p);
    }
}

/// An array that parses behind well-formed items is well-formed.
pub proof fn lemma_items_wf(text: Seq<u8>, pos: Pos, acc: Seq<Doc>)
    requires
        items_spec(text, pos, acc).result is Ok,
        forall|i: int| 0 <= i < acc.len() ==> (#[trigger] acc[i]).wf(),
    ensures
        items_spec(text, pos, acc).result->Ok_0.wf(),
    decreases left(text, pos.off), 2int,
{
    if byte_at(text, pos) == Some(CLOSE_BRACKET) {
    } else {
        let item = value_spec(text, pos);
        match item.result {
            Err(e) => {},
            Ok(v) => {
                lemma_value_wf(text, pos);
                let p = skip_space(text, item.pos);
                let next = if byte_at(text, p) == Some(COMMA) {
                    skip_space(text, p.advance(1))
                } else {
                    p
                };
                if pos.off < next.off && pos.off < text.len() {
                    let more = acc.push(v);
                    assert forall|i: int| 0 <= i < more.len() implies (#[trigger] more[i]).wf() by {
                        if i < acc.len() {
                            assert(more[i] == acc[i]);
                        }
                    }
                    lemma_items_wf(text, next, more);
                }
            },
        }
    }
}

/// A member that parses has a UTF-8 key and a well-formed value.
pub proof fn lemma_member_wf(text: Seq<u8>, pos: Pos)
    requires
        member_spec(text, pos).result is Ok,
    ensures
        valid_utf8(member_spec(text, pos).result->Ok_0.key),
        member_spec(text, pos).result->Ok_0.value.wf(),
        pos.off <= member_spec(text, pos).pos.off,
    decreases left(text, pos.off), 2int,
{
    let key = string_spec(text, skip_space(text, pos));
    lemma_skip_space(text, pos);
    lemma_string_spec(text, skip_space(text, pos));
    assert(valid_utf8(key.result->Ok_0)) by {
        reveal(string_spec);
    }
    let colon = skip_space(text, key.pos);
    lemma_skip_space(text, key.pos);
    let start = skip_space(text, colon.advance(1));
    lemma_skip_space(text, colon.advance(1));
    lemma_value_wf(text, start);
    lemma_value_moves(text, start);
}

/// Parsing never moves the tracker back, and a value that is read moves it on.
pub proof fn lemma_value_moves(text: Seq<u8>, pos: Pos)
    ensures
        pos.off <= value_spec(text, pos).pos.off,
        value_spec(text, pos).result is Ok ==> pos.off < value_spec(text, pos).pos.off,
    decreases left(text, pos.off), 1int,
{
    let p = skip_space(text, pos);
    lemma_skip_space(text, pos);
    if !(0 <= p.off < text.len()) {
    } else if text[p.off] == OPEN_BRACKET {
        let inner = skip_space(text, p.advance(1));
        lemma_skip_space(text, p.advance(1));
        if byte_at(text, inner) != Some(COMMA) {
            lemma_items_move(text, inner, Seq::empty());
        }
    } else if text[p.off] == OPEN_BRACE {
        let inner = skip_space(text, p.advance(1));
        lemma_skip_space(text, p.advance(1));
        if byte_at(text, inner) != Some(CLOSE_BRACE) {
            lemma_members_move(text, inner, Seq::empty());
        }
    } else {
        reveal(leaf_spec);
        lemma_string_spec(text, p);
        lemma_number_moves(text, p);
    }
}

/// Reading a number never moves the tracker back, and a number that is read
/// moves it on.
pub proof fn lemma_number_moves(text: Seq<u8>, pos: Pos)
    requires
        0 <= pos.off <= text.len(),
    ensures
        pos.off <= number_spec(text, pos).pos.off,
        number_spec(text, pos).result is Ok ==> pos.off < number_spec(text, pos).pos.off,
{
    lemma_number_end(text, pos.off);
    let end = number_end(text, pos.off);
    if end == pos.off {
        assert(text.subrange(pos.off, end) =~= Seq::<u8>::empty());
    }
}

/// The longest run of number bytes ends inside the text, behind number bytes
/// only and before a byte that is none.
pub proof fn lemma_number_end(text: Seq<u8>, i: int)
    ensures
        i <= number_end(text, i),
        i <= text.len() ==> number_end(text, i) <= text.len(),
        forall|k: int|
            i <= k < number_end(text, i) ==> is_number_byte(
                #[trigger] text[k],
            ),
        0 <= number_end(text, i) < text.len() ==> !is_number_byte(
            text[number_end(text, i)],
        ),
    decreases text.len() - i,
{
    if 0 <= i < text.len() && is_number_byte(text[i]) {
        lemma_number_end(text, i + 1);
    }
}

/// Reading the items of an array never moves the tracker back.
pub proof fn lemma_items_move(text: Seq<u8>, pos: Pos, acc: Seq<Doc>)
    ensures
        pos.off <= items_spec(text, pos, acc).pos.off,
    decreases left(text, pos.off), 2int,
{
    if byte_at(text, pos) == Some(CLOSE_BRACKET) {
    } else {
        let item = value_spec(text, pos);
        lemma_value_moves(text, pos);
        match item.result {
            Err(e) => {},
            Ok(v) => {
                let p = skip_space(text, item.pos);
                let next = if byte_at(text, p) == Some(COMMA) {
                    skip_space(text, p.advance(1))
                } else {
                    p
                };
                if pos.off < next.off && pos.off < text.len() {
                    lemma_items_move(text, next, acc.push(v));
                }
            },
        }
    }
}

/// Reading a member never moves the tracker back.
pub proof fn lemma_member_moves(text: Seq<u8>, pos: Pos)
    ensures
        pos.off <= member_spec(text, pos).pos.off,
    decreases left(text, pos.off), 2int,
{
    let key = string_spec(text, skip_space(text, pos));
    lemma_skip_space(text, pos);
    lemma_string_spec(text, skip_space(text, pos));
    let colon = skip_space(text, key.pos);
    lemma_skip_space(text, key.pos);
    let start = skip_space(text, colon.advance(1));
    lemma_skip_space(text, colon.advance(1));
    lemma_value_moves(text, start);
}

/// Reading the members of an object never moves the tracker back.
pub proof fn lemma_members_move(text: Seq<u8>, pos: Pos, acc: Seq<Member>)
    ensures
        pos.off <= members_spec(text, pos, acc).pos.off,
    decreases left(text, pos.off), 3int,
{
    let one = member_spec(text, pos);
    lemma_member_moves(text, pos);
    match one.result {
        Err(e) => {},
        Ok(member) => {
            let p = skip_space(text, one.pos);
            lemma_skip_space(text, one.pos);
            if byte_at(text, p) == Some(COMMA) && p.off >= pos.off {
                lemma_members_move(text, p.advance(1), upsert(acc, member.key, member.value));
            }
        },
    }
}

/// An object that parses into a sorted store of well-formed members is
/// well-formed.
pub proof fn lemma_members_wf(text: Seq<u8>, pos: Pos, acc: Seq<Member>)
    requires
        members_spec(text, pos, acc).result is Ok,
        sorted(acc),
        all_wf(acc),
    ensures
        members_spec(text, pos, acc).result->Ok_0.wf(),
    decreases left(text, pos.off), 3int,
{
    let one = member_spec(text, pos);
    match one.result {
        Err(e) => {},
        Ok(member) => {
            lemma_member_wf(text, pos);
            let p = skip_space(text, one.pos);
            lemma_skip_space(text, one.pos);
            let store = upsert(acc, member.key, member.value);
            lemma_upsert_wf(acc, member.key, member.value);
            if byte_at(text, p) == Some(CLOSE_BRACE) {
            } else if byte_at(text, p) == Some(COMMA) && p.off >= pos.off {
                lemma_members_wf(text, p.advance(1), store);
            }
        },
    }
}

} // verus!
