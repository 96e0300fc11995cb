//! The serializer: a value tree to compact text.

use vstd::prelude::*;
use vstd::utf8::*;
use crate::ascii::{
    hex_digit, hex_digit_of, lemma_decimal_digits, push_signed_decimal, signed_decimal, BACKSLASH,
    CLOSE_BRACE, CLOSE_BRACKET, COLON, COMMA, LOWER_B, LOWER_F, LOWER_N, LOWER_R, LOWER_T, LOWER_U,
    OPEN_BRACE, OPEN_BRACKET, QUOTE, ZERO,
};
use crate::grammar::{word_false, word_null, word_true};
use crate::json::{docs, members, Json};
use crate::model::{Doc, Member};
use crate::utf8::{bytes_of, lemma_ascii_text, string_from_utf8};

verus! {

/// Whether a byte is written as an escape: the control characters, the quote
/// and the backslash. Every other byte is written as it is.
pub open spec fn is_escaped(b: u8) -> bool {
    b < 0x20 || b == 0x7f || b == QUOTE || b == BACKSLASH
}

/// The escape for a byte that has one: a backslash and a letter where JSON
/// has a letter for it, `\u00` and two hexadecimal digits where not.
pub open spec fn escape_of(b: u8) -> Seq<u8> {
    if b == QUOTE || b == BACKSLASH {
        seq![BACKSLASH, b]
    } else if b == 0x08 {
        seq![BACKSLASH, LOWER_B]
    } else if b == 0x09 {
        seq![BACKSLASH, LOWER_T]
    } else if b == 0x0a {
        seq![BACKSLASH, LOWER_N]
    } else if b == 0x0c {
        seq![BACKSLASH, LOWER_F]
    } else if b == 0x0d {
        seq![BACKSLASH, LOWER_R]
    } else {
        seq![BACKSLASH, LOWER_U, ZERO, ZERO, hex_digit(b as int / 16), hex_digit(b as int % 16)]
    }
}

/// What one byte of a string is written as.
pub open spec fn written(b: u8) -> Seq<u8> {
    if is_escaped(b) {
        escape_of(b)
    } else {
        seq![b]
    }
}

/// The bytes of a string with each byte written as its escape where it has one.
pub open spec fn escaped(bytes: Seq<u8>) -> Seq<u8>
    decreases bytes.len(),
{
    if bytes.len() == 0 {
        Seq::empty()
    } else {
        escaped(bytes.drop_last()) + written(bytes.last())
    }
}

/// A string literal: the escaped bytes between quotes.
pub open spec fn quoted(bytes: Seq<u8>) -> Seq<u8> {
    seq![QUOTE] + escaped(bytes) + seq![QUOTE]
}

/// The text of a document: no whitespace, integers in decimal, floats as they
/// are held, strings as literals, the items of an array and the members of an
/// object in their order with commas between.
pub open spec fn render(d: Doc) -> Seq<u8>
    decreases d,
{
    match d {
        Doc::Null => word_null(),
        Doc::Bool(true) => word_true(),
        Doc::Bool(false) => word_false(),
        Doc::Integer(n) => signed_decimal(n),
        Doc::Float(t) => t,
        Doc::Text(t) => quoted(t),
        Doc::Array(items) => seq![OPEN_BRACKET] + render_items(items) + seq![CLOSE_BRACKET],
        Doc::Object(members) => seq![OPEN_BRACE] + render_members(members) + seq![CLOSE_BRACE],
    }
}

/// The texts of the items of an array with commas between.
pub open spec fn render_items(items: Seq<Doc>) -> Seq<u8>
    decreases items,
{
    if items.len() == 0 {
        Seq::empty()
    } else if items.len() == 1 {
        render(items[0])
    } else {
        render_items(items.drop_last()) + seq![COMMA] + render(items.last())
    }
}

/// The text of one member: the key as a literal, a colon and the value.
pub open spec fn render_member(member: Member) -> Seq<u8>
    decreases member,
{
    quoted(member.key) + seq![COLON] + render(member.value)
}

/// The texts of the members of an object with commas between.
pub open spec fn render_members(members: Seq<Member>) -> Seq<u8>
    decreases members,
{
    if members.len() == 0 {
        Seq::empty()
    } else if members.len() == 1 {
        render_member(members[0])
    } else {
        render_members(members.drop_last()) + seq![COMMA] + render_member(members.last())
    }
}

/// Escaping goes piece by piece.
pub proof fn lemma_escaped_add(a: Seq<u8>, b: Seq<u8>)
    ensures
        escaped(a + b) == escaped(a) + escaped(b),
    decreases b.len(),
{
    if b.len() == 0 {
        assert(a + b =~= a);
        assert(escaped(a) + escaped(b) =~= escaped(a));
    } else {
        assert((a + b).drop_last() =~= a + b.drop_last());
        lemma_escaped_add(a, b.drop_last());
        assert(escaped(a + b) =~= escaped(a) + escaped(b));
    }
}

/// What a byte is written as is ASCII if the byte is, and the byte itself if not.
pub proof fn lemma_written(b: u8)
    ensures
        written(b).len() >= 1,
        b >= 0x80 ==> written(b) == seq![b],
        b < 0x80 ==> forall|i: int| 0 <= i < written(b).len() ==> written(b)[i] < 0x80,
{
}

/// The escaped bytes of UTF-8 text are UTF-8 text.
pub proof fn lemma_escaped_valid(bytes: Seq<u8>)
    requires
        valid_utf8(bytes),
    ensures
        valid_utf8(escaped(bytes)),
    decreases bytes.len(),
{
    if bytes.len() > 0 {
        let n = length_of_first_scalar(bytes);
        let first = bytes.subrange(0, n);
        let rest = pop_first_scalar(bytes);
        assert(bytes =~= first + rest);
        lemma_escaped_add(first, rest);
        lemma_escaped_valid(rest);
        assert(valid_utf8(escaped(first))) by {
            reveal_with_fuel(escaped, 5);
            if n == 1 {
                lemma_written(first[0]);
                assert(first.drop_last() =~= Seq::<u8>::empty());
                assert(escaped(first) =~= written(first[0]));
                lemma_ascii_text(written(first[0]));
            } else {
                assert forall|i: int| 0 <= i < n implies first[i] >= 0x80 by {
                    assert(first[i] == bytes[i]);
                }
                lemma_escaped_high(first);
                reveal_with_fuel(valid_utf8, 2);
                assert(pop_first_scalar(first) =~= Seq::<u8>::empty());
            }
        }
        valid_utf8_concat(escaped(first), escaped(rest));
    }
}

/// Bytes that are not ASCII are written as they are.
pub proof fn lemma_escaped_high(bytes: Seq<u8>)
    requires
        forall|i: int| 0 <= i < bytes.len() ==> bytes[i] >= 0x80,
    ensures
        escaped(bytes) == bytes,
    decreases bytes.len(),
{
    if bytes.len() > 0 {
        lemma_escaped_high(bytes.drop_last());
        assert(escaped(bytes) =~= bytes);
    }
}

/// Whatever a value tree holds as text is UTF-8.
pub proof fn lemma_view_is_text(j: Json)
    ensures
        j@.is_text(),
    decreases j,
{
    match j {
        Json::Float(t) => {
            encode_utf8_valid_utf8(t@);
        },
        Json::String(t) => {
            encode_utf8_valid_utf8(t@);
        },
        Json::Array(items) => {
            assert forall|i: int| 0 <= i < items.len() implies (#[trigger] docs(
                items@,
            )[i]).is_text() by {
                lemma_view_is_text(items[i]);
            }
            assert(Doc::Array(docs(items@)).is_text());
        },
        Json::Object(props) => {
            assert forall|i: int| 0 <= i < props.len() implies valid_utf8(
                (#[trigger] members(props@)[i]).key,
            ) && members(props@)[i].value.is_text() by {
                encode_utf8_valid_utf8(props[i].key@);
                lemma_view_is_text(props[i].value);
            }
        },
        _ => {},
    }
}

/// A string literal of UTF-8 text is UTF-8 text.
pub proof fn lemma_quoted_valid(bytes: Seq<u8>)
    requires
        valid_utf8(bytes),
    ensures
        valid_utf8(quoted(bytes)),
{
    lemma_escaped_valid(bytes);
    lemma_ascii_text(seq![QUOTE]);
    valid_utf8_concat(seq![QUOTE], escaped(bytes));
    valid_utf8_concat(seq![QUOTE] + escaped(bytes), seq![QUOTE]);
}

/// The text of a document is UTF-8 text.
pub proof fn lemma_render_valid(d: Doc)
    requires
        d.is_text(),
    ensures
        valid_utf8(render(d)),
    decreases d, 1int,
{
    match d {
        Doc::Null => {
            lemma_ascii_text(word_null());
        },
        Doc::Bool(b) => {
            lemma_ascii_text(word_true());
            lemma_ascii_text(word_false());
        },
        Doc::Integer(n) => {
            if n < 0 {
                lemma_decimal_digits((-n) as nat);
            } else {
                lemma_decimal_digits(n as nat);
            }
            lemma_ascii_text(signed_decimal(n));
        },
        Doc::Float(t) => {},
        Doc::Text(t) => {
            lemma_quoted_valid(t);
        },
        Doc::Array(items) => {
            lemma_items_valid(items);
            lemma_ascii_text(seq![OPEN_BRACKET]);
            lemma_ascii_text(seq![CLOSE_BRACKET]);
            valid_utf8_concat(seq![OPEN_BRACKET], render_items(items));
            valid_utf8_concat(seq![OPEN_BRACKET] + render_items(items), seq![CLOSE_BRACKET]);
        },
        Doc::Object(members) => {
            lemma_members_valid(members);
            lemma_ascii_text(seq![OPEN_BRACE]);
            lemma_ascii_text(seq![CLOSE_BRACE]);
            valid_utf8_concat(seq![OPEN_BRACE], render_members(members));
            valid_utf8_concat(seq![OPEN_BRACE] + render_members(members), seq![CLOSE_BRACE]);
        },
    }
}

/// The texts of the items of an array are UTF-8 text.
pub proof fn lemma_items_valid(items: Seq<Doc>)
    requires
        forall|i: int| 0 <= i < items.len() ==> (#[trigger] items[i]).is_text(),
    ensures
        valid_utf8(render_items(items)),
    decreases items, 0int,
{
    if items.len() == 0 {
    } else if items.len() == 1 {
        lemma_render_valid(items[0]);
    } else {
        let front = items.drop_last();
        assert forall|i: int| 0 <= i < front.len() implies (#[trigger] front[i]).is_text() by {
            assert(front[i] == items[i]);
        }
        lemma_items_valid(front);
        lemma_render_valid(items.last());
        lemma_ascii_text(seq![COMMA]);
        valid_utf8_concat(render_items(front), seq![COMMA]);
        valid_utf8_concat(render_items(front) + seq![COMMA], render(items.last()));
    }
}

/// The text of a member is UTF-8 text.
pub proof fn lemma_member_valid(member: Member)
    requires
        valid_utf8(member.key),
        member.value.is_text(),
    ensures
        valid_utf8(render_member(member)),
    decreases member, 2int,
{
    lemma_quoted_valid(member.key);
    lemma_render_valid(member.value);
    lemma_ascii_text(seq![COLON]);
    valid_utf8_concat(quoted(member.key), seq![COLON]);
    valid_utf8_concat(quoted(member.key) + seq![COLON], render(member.value));
}

/// The texts of the members of an object are UTF-8 text.
pub proof fn lemma_members_valid(members: Seq<Member>)
    requires
        forall|i: int|
            0 <= i < members.len() ==> valid_utf8((#[trigger] members[i]).key)
                && members[i].value.is_text(),
    ensures
        valid_utf8(render_members(members)),
    decreases members, 0int,
{
    if members.len() == 0 {
    } else if members.len() == 1 {
        lemma_member_valid(members[0]);
    } else {
        let front = members.drop_last();
        assert forall|i: int| 0 <= i < front.len() implies valid_utf8((#[trigger] front[i]).key)
            && front[i].value.is_text() by {
            assert(front[i] == members[i]);
        }
        lemma_members_valid(front);
        lemma_member_valid(members.last());
        lemma_ascii_text(seq![COMMA]);
        valid_utf8_concat(render_members(front), seq![COMMA]);
        valid_utf8_concat(render_members(front) + seq![COMMA], render_member(members.last()));
    }
}

/// Appends what one byte of a string is written as.
pub fn push_written(out: &mut Vec<u8>, b: u8)
    ensures
        final(out)@ == old(out)@ + written(b),
{
    if b == QUOTE || b == BACKSLASH {
        out.push(BACKSLASH);
        out.push(b);
    } else if b == 0x08 {
        out.push(BACKSLASH);
        out.push(LOWER_B);
    } else if b == 0x09 {
        out.push(BACKSLASH);
        out.push(LOWER_T);
    } else if b == 0x0a {
        out.push(BACKSLASH);
        out.push(LOWER_N);
    } else if b == 0x0c {
        out.push(BACKSLASH);
        out.push(LOWER_F);
    } else if b == 0x0d {
        out.push(BACKSLASH);
        out.push(LOWER_R);
    } else if b < 0x20 || b == 0x7f {
        out.push(BACKSLASH);
        out.push(LOWER_U);
        out.push(ZERO);
        out.push(ZERO);
        out.push(hex_digit_of(b / 16));
        out.push(hex_digit_of(b % 16));
    } else {
        out.push(b);
    }
    assert(out@ =~= old(out)@ + written(b));
}

/// Appends all of `bytes`.
pub fn push_all(out: &mut Vec<u8>, bytes: &[u8])
    ensures
        final(out)@ == old(out)@ + bytes@,
{
    let mut i: usize = 0;
    while i < bytes.len()
        invariant
            i <= bytes.len(),
            out@ == old(out)@ + bytes@.subrange(0, i as int),
        decreases bytes.len() - i,
    {
        out.push(bytes[i]);
        assert(bytes@.subrange(0, i + 1) =~= bytes@.subrange(0, i as int).push(bytes@[i as int]));
        assert(out@ =~= old(out)@ + bytes@.subrange(0, i + 1));
        i = i + 1;
    }
    assert(bytes@.subrange(0, bytes.len() as int) =~= bytes@);
}

impl Json {
    /// Appends a string as a literal: quotes around it, and an escape for
    /// each control character, quote and backslash in it.
    pub fn encode_string(out: &mut Vec<u8>, val: &str)
        ensures
            final(out)@ == old(out)@ + quoted(bytes_of(val@)),
    {
        let bytes = val.as_bytes();
        out.push(QUOTE);
        let ghost start = out@;
        let mut i: usize = 0;
        assert(bytes@.subrange(0, 0) =~= Seq::<u8>::empty());
        while i < bytes.len()
            invariant
                i <= bytes.len(),
                out@ == start + escaped(bytes@.subrange(0, i as int)),
            decreases bytes.len() - i,
        {
            push_written(out, bytes[i]);
            proof {
                let now = bytes@.subrange(0, i + 1);
                assert(now.drop_last() =~= bytes@.subrange(0, i as int));
                assert(out@ =~= start + escaped(now));
            }
            i = i + 1;
        }
        assert(bytes@.subrange(0, bytes.len() as int) =~= bytes@);
        out.push(QUOTE);
        assert(out@ =~= old(out)@ + quoted(bytes_of(val@)));
    }

    /// Appends the text of the value.
    pub fn write(&self, out: &mut Vec<u8>)
        ensures
            final(out)@ == old(out)@ + render(self@),
        decreases self,
    {
        match self {
            Json::Null => {
                let word: [u8; 4] = [0x6e, 0x75, 0x6c, 0x6c];
                assert(word@ =~= word_null());
                push_all(out, word.as_slice());
            },
            Json::Bool(true) => {
                let word: [u8; 4] = [0x74, 0x72, 0x75, 0x65];
                assert(word@ =~= word_true());
                push_all(out, word.as_slice());
            },
            Json::Bool(false) => {
                let word: [u8; 5] = [0x66, 0x61, 0x6c, 0x73, 0x65];
                assert(word@ =~= word_false());
                push_all(out, word.as_slice());
            },
            Json::Integer(n) => {
                push_signed_decimal(out, *n);
            },
            Json::Float(t) => {
                push_all(out, t.as_str().as_bytes());
            },
            Json::String(t) => {
                Json::encode_string(out, t.as_str());
            },
            Json::Array(items) => {
                out.push(OPEN_BRACKET);
                let ghost start = out@;
                let ghost all = docs(items@);
                let mut i: usize = 0;
                assert(all.subrange(0, 0) =~= Seq::<Doc>::empty());
                while i < items.len()
                    invariant
                        i <= items.len(),
                        self is Array,
                        self->Array_0 == *items,
                        all == docs(items@),
                        out@ == start + render_items(all.subrange(0, i as int)),
                    decreases items.len() - i,
                {
                    assert(decreases_to!(*items => items[i as int]));
                    if i > 0 {
                        out.push(COMMA);
                    }
                    items[i].write(out);
                    proof {
                        let now = all.subrange(0, i + 1);
                        assert(now.drop_last() =~= all.subrange(0, i as int));
                        assert(now.last() == items[i as int]@);
                        assert(out@ =~= start + render_items(now));
                    }
                    i = i + 1;
                }
                assert(all.subrange(0, items.len() as int) =~= all);
                out.push(CLOSE_BRACKET);
                assert(out@ =~= old(out)@ + render(self@));
            },
            Json::Object(props) => {
                out.push(OPEN_BRACE);
                let ghost start = out@;
                let ghost all = members(props@);
                let mut i: usize = 0;
                assert(all.subrange(0, 0) =~= Seq::<Member>::empty());
                while i < props.len()
                    invariant
                        i <= props.len(),
                        self is Object,
                        self->Object_0 == *props,
                        all == members(props@),
                        out@ == start + render_members(all.subrange(0, i as int)),
                    decreases props.len() - i,
                {
                    assert(decreases_to!(*props => props[i as int]));
                    if i > 0 {
                        out.push(COMMA);
                    }
                    let ghost mid = out@;
                    Json::encode_string(out, props[i].key.as_str());
                    out.push(COLON);
                    let ghost mid2 = out@;
                    props[i].value.write(out);
                    proof {
                        let now = all.subrange(0, i + 1);
                        assert(now.drop_last() =~= all.subrange(0, i as int));
                        assert(now.last() == props[i as int]@);
                        assert(out@ =~= mid + render_member(props[i as int]@));
                        assert(out@ =~= start + render_members(now));
                    }
                    i = i + 1;
                }
                assert(all.subrange(0, props.len() as int) =~= all);
                out.push(CLOSE_BRACE);
                assert(out@ =~= old(out)@ + render(self@));
            },
        }
    }

    /// The text of the value.
    pub fn to_string(&self) -> (r: String)
        ensures
            bytes_of(r@) == render(self@),
    {
        let out = self.to_bytes();
        proof {
            lemma_view_is_text(*self);
            lemma_render_valid(self@);
        }
        match string_from_utf8(out) {
            Some(s) => s,
            None => String::new(),
        }
    }

    /// The text of the value as bytes.
    pub fn to_bytes(&self) -> (r: Vec<u8>)
        ensures
            r@ == render(self@),
    {
        let mut out: Vec<u8> = Vec::new();
        self.write(&mut out);
        assert(out@ =~= render(self@));
        out
    }
}

} // verus!
