//! The parser: text and a tracker to one value, arrays and objects read by
//! recursive descent.

use vstd::prelude::*;
use vstd::utf8::{encode_utf8_valid_utf8, valid_utf8};
use crate::ascii::{
    byte_is_number, CLOSE_BRACE, CLOSE_BRACKET, COLON, COMMA, LOWER_F, LOWER_N, LOWER_T,
    OPEN_BRACE, OPEN_BRACKET, QUOTE,
};
use crate::error::{Error, Failure};
use crate::grammar::{
    array_spec, byte_at, items_spec, leaf_spec, member_spec, members_spec, object_spec,
    parse_error, reaches, value_spec,
};
use crate::json::{docs, members, Json, Property};
use crate::lex::{decimal_text, start, Lex};
use crate::model::{lemma_upsert_sorted, lemma_upsert_values, sorted, Doc, Member};
use crate::scan::{
    agrees, failure, numbered, parse_false, parse_null, parse_num, parse_string, parse_text,
    parse_true, parse_whitespace, ready,
};
use crate::store::insert;
use crate::utf8::bytes_of;

verus! {

/// Fails where the text has ended.
pub fn check_eof(text: &[u8], lex: &Lex) -> (r: Result<(), Error>)
    requires
        ready(text@, lex@),
    ensures
        r is Ok <==> byte_at(text@, lex@) is Some,
        r is Err ==> r->Err_0@ == parse_error("unexpected eof"@, lex@),
{
    if lex.off >= text.len() {
        Err(failure(lex, "unexpected eof"))
    } else {
        Ok(())
    }
}

/// Moves over the byte `b`, which must stand under the tracker.
pub fn check_next_byte(text: &[u8], lex: &mut Lex, b: u8) -> (r: Result<(), Error>)
    requires
        ready(text@, old(lex)@),
    ensures
        r is Ok <==> byte_at(text@, old(lex)@) == Some(b),
        r is Ok ==> final(lex)@ == old(lex)@.advance(1),
        r is Err ==> final(lex)@ == old(lex)@ && r->Err_0@ == parse_error(
            (if byte_at(text@, old(lex)@) is None {
                "missing token "@
            } else {
                "invalid token "@
            }) + decimal_text(b as int),
            old(lex)@,
        ),
        ready(text@, final(lex)@),
{
    if lex.off >= text.len() {
        let msg = numbered("missing token ", b as i128);
        return Err(failure(lex, msg.as_str()));
    }
    if text[lex.off] != b {
        let msg = numbered("invalid token ", b as i128);
        return Err(failure(lex, msg.as_str()));
    }
    lex.incr_col(1);
    Ok(())
}

/// Reads a value that holds no other, with the tracker on its first byte.
pub fn parse_leaf(text: &[u8], lex: &mut Lex) -> (r: Result<Json, Error>)
    requires
        ready(text@, old(lex)@),
        old(lex).off < text.len(),
    ensures
        agrees(r, leaf_spec(text@, old(lex)@).result),
        final(lex)@ == leaf_spec(text@, old(lex)@).pos,
        ready(text@, final(lex)@),
        reaches(old(lex)@, final(lex)@),
        r is Ok ==> final(lex).off > old(lex).off,
        r is Ok ==> r->Ok_0@.wf(),
{
    reveal(leaf_spec);
    let b: u8 = text[lex.off];
    if b == LOWER_N {
        parse_null(text, lex)
    } else if b == LOWER_T {
        parse_true(text, lex)
    } else if b == LOWER_F {
        parse_false(text, lex)
    } else if byte_is_number(b) {
        parse_num(text, lex)
    } else if b == QUOTE {
        parse_string(text, lex)
    } else {
        let msg = numbered("invalid token ", b as i128);
        Err(failure(lex, msg.as_str()))
    }
}

/// Reads one value: skips whitespace, then reads what the first byte behind
/// it announces. On success the tracker stands behind the value.
pub fn parse_value(text: &[u8], lex: &mut Lex) -> (r: Result<Json, Error>)
    requires
        ready(text@, old(lex)@),
    ensures
        agrees(r, value_spec(text@, old(lex)@).result),
        final(lex)@ == value_spec(text@, old(lex)@).pos,
        ready(text@, final(lex)@),
        reaches(old(lex)@, final(lex)@),
        r is Ok ==> final(lex).off > old(lex).off,
        r is Ok ==> r->Ok_0@.wf(),
    decreases text.len() - old(lex).off, 1int,
{
    parse_whitespace(text, lex);
    match check_eof(text, lex) {
        Ok(()) => {},
        Err(e) => {
            return Err(e);
        },
    }
    let b: u8 = text[lex.off];
    if b == OPEN_BRACKET {
        parse_array(text, lex)
    } else if b == OPEN_BRACE {
        parse_object(text, lex)
    } else {
        parse_leaf(text, lex)
    }
}

/// Reads an array, with the tracker on its opening bracket.
pub fn parse_array(text: &[u8], lex: &mut Lex) -> (r: Result<Json, Error>)
    requires
        ready(text@, old(lex)@),
        byte_at(text@, old(lex)@) == Some(OPEN_BRACKET),
    ensures
        agrees(r, array_spec(text@, old(lex)@).result),
        final(lex)@ == array_spec(text@, old(lex)@).pos,
        ready(text@, final(lex)@),
        reaches(old(lex)@, final(lex)@),
        r is Ok ==> final(lex).off > old(lex).off,
        r is Ok ==> r->Ok_0@.wf(),
    decreases text.len() - old(lex).off, 0int,
{
    lex.incr_col(1);
    parse_whitespace(text, lex);
    if lex.off < text.len() && text[lex.off] == COMMA {
        return Err(failure(lex, "expected ','"));
    }
    let mut array: Vec<Json> = Vec::new();
    assert(docs(array@) =~= Seq::<Doc>::empty());
    loop
        invariant
            ready(text@, lex@),
            reaches(old(lex)@, lex@),
            old(lex).off < lex.off,
            array_spec(text@, old(lex)@) == items_spec(text@, lex@, docs(array@)),
            forall|k: int| 0 <= k < array.len() ==> (#[trigger] docs(array@)[k]).wf(),
        decreases text.len() - lex.off,
    {
        if lex.off < text.len() && text[lex.off] == CLOSE_BRACKET {
            lex.incr_col(1);
            return Ok(Json::Array(array));
        }
        let ghost before = lex@;
        let ghost sofar = docs(array@);
        let item = match parse_value(text, lex) {
            Ok(item) => item,
            Err(e) => {
                assert(items_spec(text@, before, sofar) == value_spec(text@, before));
                return Err(e);
            },
        };
        array.push(item);
        assert(docs(array@) =~= sofar.push(item@));
        parse_whitespace(text, lex);
        if lex.off < text.len() && text[lex.off] == COMMA {
            lex.incr_col(1);
            parse_whitespace(text, lex);
        }
    }
}

/// Reads one member of an object: a key, a colon and a value.
pub fn parse_member(text: &[u8], lex: &mut Lex) -> (r: Result<Property, Error>)
    requires
        ready(text@, old(lex)@),
    ensures
        match member_spec(text@, old(lex)@).result {
            Ok(member) => r is Ok && r->Ok_0@ == member,
            Err(f) => r is Err && r->Err_0@ == f,
        },
        final(lex)@ == member_spec(text@, old(lex)@).pos,
        ready(text@, final(lex)@),
        reaches(old(lex)@, final(lex)@),
        r is Ok ==> final(lex).off > old(lex).off,
        r is Ok ==> r->Ok_0.value@.wf(),
    decreases text.len() - old(lex).off, 2int,
{
    parse_whitespace(text, lex);
    let key: String = match parse_text(text, lex) {
        Ok(key) => key,
        Err(e) => {
            return Err(e);
        },
    };
    parse_whitespace(text, lex);
    match check_next_byte(text, lex, COLON) {
        Ok(()) => {},
        Err(e) => {
            return Err(e);
        },
    }
    parse_whitespace(text, lex);
    match parse_value(text, lex) {
        Ok(value) => Ok(Property::new(key, value)),
        Err(e) => Err(e),
    }
}

/// Reads an object, with the tracker on its opening brace. Of two members
/// with one key the later one stays.
pub fn parse_object(text: &[u8], lex: &mut Lex) -> (r: Result<Json, Error>)
    requires
        ready(text@, old(lex)@),
        byte_at(text@, old(lex)@) == Some(OPEN_BRACE),
    ensures
        agrees(r, object_spec(text@, old(lex)@).result),
        final(lex)@ == object_spec(text@, old(lex)@).pos,
        ready(text@, final(lex)@),
        reaches(old(lex)@, final(lex)@),
        r is Ok ==> final(lex).off > old(lex).off,
        r is Ok ==> r->Ok_0@.wf(),
    decreases text.len() - old(lex).off, 0int,
{
    lex.incr_col(1);
    parse_whitespace(text, lex);
    let mut m: Vec<Property> = Vec::new();
    assert(members(m@) =~= Seq::<Member>::empty());
    if lex.off < text.len() && text[lex.off] == CLOSE_BRACE {
        lex.incr_col(1);
        return Ok(Json::Object(m));
    }
    loop
        invariant
            ready(text@, lex@),
            reaches(old(lex)@, lex@),
            old(lex).off < lex.off,
            object_spec(text@, old(lex)@) == members_spec(text@, lex@, members(m@)),
            sorted(members(m@)),
            forall|k: int| 0 <= k < m.len() ==> (#[trigger] members(m@)[k]).value.wf(),
        decreases text.len() - lex.off,
    {
        let ghost before = lex@;
        let ghost store = members(m@);
        let member = match parse_member(text, lex) {
            Ok(member) => member,
            Err(e) => {
                return Err(e);
            },
        };
        insert(&mut m, member);
        proof {
            lemma_upsert_sorted(store, member@.key, member@.value);
            lemma_upsert_values(store, member@.key, member@.value);
            encode_utf8_valid_utf8(member.key@);
        }
        parse_whitespace(text, lex);
        if lex.off >= text.len() {
            return Err(failure(lex, "unexpected eof"));
        }
        let b: u8 = text[lex.off];
        if b == CLOSE_BRACE {
            lex.incr_col(1);
            proof {
                let ms = members(m@);
                assert forall|k: int| 0 <= k < ms.len() implies valid_utf8(
                    (#[trigger] ms[k]).key,
                ) && ms[k].value.wf() by {
                    encode_utf8_valid_utf8(m@[k].key@);
                }
            }
            return Ok(Json::Object(m));
        }
        if b != COMMA {
            let msg = numbered("invalid token ", b as i128);
            return Err(failure(lex, msg.as_str()));
        }
        lex.incr_col(1);
    }
}

/// What a whole text parses to when it is read from the start, with the
/// tracker at offset zero on row one, column one. What follows the first
/// value is not looked at.
pub open spec fn parse_spec(text: Seq<u8>) -> Result<Doc, Failure> {
    value_spec(text, start()).result
}

impl Json {
    /// Parses the first value of a text.
    pub fn from_str(text: &str) -> (r: Result<Json, Error>)
        ensures
            bytes_of(text@).len() < usize::MAX ==> agrees(r, parse_spec(bytes_of(text@))),
            bytes_of(text@).len() >= usize::MAX ==> r is Err && r->Err_0@ == Failure::Parse(
                "input too large"@,
            ),
            r is Ok ==> r->Ok_0@.wf(),
    {
        let bytes = text.as_bytes();
        if bytes.len() >= usize::MAX {
            return Err(Error::Parse("input too large".to_owned()));
        }
        let mut lex = Lex::new(0, 1, 1);
        parse_value(bytes, &mut lex)
    }
}

} // verus!
