//! Writing and reading back: the text of a well-formed document parses to
//! that document.

use vstd::prelude::*;
use vstd::utf8::{encode_scalar, valid_utf8};
use crate::ascii::{
    all_digits, decimal, digits_value, hex_digit, hex_value, is_digit, is_float_mark,
    is_number_byte, is_space, lemma_decimal_digits, signed_decimal, CLOSE_BRACE, CLOSE_BRACKET,
    COLON, COMMA, LOWER_U, MINUS, OPEN_BRACE, OPEN_BRACKET, QUOTE,
};
use crate::grammar::{
    array_spec, byte_at, hex_run, holds_word, int_lexeme, int_scan, items_spec, leaf_spec,
    member_spec, members_spec, number_end, number_spec, object_spec, skip_space, string_body,
    string_spec, unicode_escape, value_spec, Escape, MemberOutcome, Outcome, Scan, TextOutcome,
};
use crate::lex::Pos;
use crate::model::{
    all_number_bytes, has_float_mark, is_float_lexeme, lemma_float_syntax_bytes, lemma_slot_is,
    sorted, upsert, Doc, Member,
};
use crate::order::bytes_lt;
use crate::render::{
    escaped, is_escaped, lemma_escaped_add, quoted, render, render_items, render_member,
    render_members, written,
};

verus! {

/// The text holds the bytes `s` from index `at` on.
pub open spec fn has_at(text: Seq<u8>, at: int, s: Seq<u8>) -> bool {
    &&& 0 <= at
    &&& at + s.len() <= text.len()
    &&& forall|k: int| 0 <= k < s.len() ==> text[at + k] == #[trigger] s[k]
}

/// A text that holds two runs one behind the other holds each of them.
pub proof fn lemma_has_at_parts(text: Seq<u8>, at: int, a: Seq<u8>, b: Seq<u8>)
    requires
        has_at(text, at, a + b),
    ensures
        has_at(text, at, a),
        has_at(text, at + a.len(), b),
{
    assert forall|k: int| 0 <= k < a.len() implies text[at + k] == #[trigger] a[k] by {
        assert((a + b)[k] == a[k]);
    }
    assert forall|k: int| 0 <= k < b.len() implies text[at + a.len() + k] == #[trigger] b[k] by {
        assert((a + b)[a.len() + k] == b[k]);
    }
}

/// A text that holds a run holds it as a word.
pub proof fn lemma_has_at_word(text: Seq<u8>, at: int, s: Seq<u8>)
    requires
        has_at(text, at, s),
    ensures
        holds_word(text, at, s),
        text.subrange(at, at + s.len()) == s,
{
    assert(text.subrange(at, at + s.len()) =~= s);
}

/// A run of number bytes that ends at the end of the text, or before a byte
/// that is not one, is the longest run of number bytes there.
pub proof fn lemma_number_end_is(text: Seq<u8>, at: int, n: int)
    requires
        0 <= at,
        0 <= n,
        at + n <= text.len(),
        forall|k: int| at <= k < at + n ==> is_number_byte(#[trigger] text[k]),
        at + n == text.len() || !is_number_byte(text[at + n]),
    ensures
        number_end(text, at) == at + n,
    decreases n,
{
    if n > 0 {
        assert(is_number_byte(text[at]));
        lemma_number_end_is(text, at + 1, n - 1);
    }
}

/// The digits read so far never denote more than all the digits.
pub proof fn lemma_digits_grow(s: Seq<u8>, k: int)
    requires
        all_digits(s),
        0 <= k <= s.len(),
    ensures
        digits_value(s.subrange(0, k)) <= digits_value(s),
    decreases s.len() - k,
{
    if k < s.len() {
        lemma_digits_grow(s, k + 1);
        let longer = s.subrange(0, k + 1);
        assert(longer.drop_last() =~= s.subrange(0, k));
        assert(is_digit(s[k]));
        assert(longer.last() == s[k]);
    } else {
        assert(s.subrange(0, k) =~= s);
    }
}

/// Digits that denote a number in the range of 128 bits are read as that number.
pub proof fn lemma_int_scan(body: Seq<u8>, i: int, negative: bool)
    requires
        all_digits(body),
        0 <= i <= body.len(),
        negative ==> -(digits_value(body) as int) >= i128::MIN,
        !negative ==> digits_value(body) <= i128::MAX,
    ensures
        int_scan(
            body,
            i,
            if negative {
                -(digits_value(body.subrange(0, i)) as int)
            } else {
                digits_value(body.subrange(0, i)) as int
            },
            negative,
        ) == Ok::<int, crate::error::IntFault>(
            if negative {
                -(digits_value(body) as int)
            } else {
                digits_value(body) as int
            },
        ),
    decreases body.len() - i,
{
    if i < body.len() {
        let longer = body.subrange(0, i + 1);
        assert(longer.drop_last() =~= body.subrange(0, i));
        assert(longer.last() == body[i]);
        assert(is_digit(body[i]));
        lemma_digits_grow(body, i + 1);
        lemma_int_scan(body, i + 1, negative);
    } else {
        assert(body.subrange(0, i) =~= body);
    }
}

/// The decimal notation of a 128-bit integer denotes that integer.
pub proof fn lemma_int_lexeme_decimal(v: int)
    requires
        i128::MIN <= v <= i128::MAX,
    ensures
        int_lexeme(signed_decimal(v)) == Ok::<int, crate::error::IntFault>(v),
        !has_float_mark(signed_decimal(v)),
        all_number_bytes(signed_decimal(v)),
        signed_decimal(v).len() >= 1,
        signed_decimal(v)[0] == MINUS || is_digit(signed_decimal(v)[0]),
{
    let s = signed_decimal(v);
    if v < 0 {
        let d = decimal((-v) as nat);
        lemma_decimal_digits((-v) as nat);
        assert(s.drop_first() =~= d);
        assert forall|i: int| 0 <= i < s.len() implies is_number_byte(#[trigger] s[i])
            && !is_float_mark(s[i]) by {
            if i > 0 {
                assert(s[i] == d[i - 1]);
                assert(is_digit(d[i - 1]));
            }
        }
        assert(d.subrange(0, 0) =~= Seq::<u8>::empty());
        lemma_int_scan(d, 0, true);
    } else {
        lemma_decimal_digits(v as nat);
        assert forall|i: int| 0 <= i < s.len() implies is_number_byte(#[trigger] s[i])
            && !is_float_mark(s[i]) by {
            assert(is_digit(s[i]));
        }
        assert(is_digit(s[0]));
        assert(s.subrange(0, 0) =~= Seq::<u8>::empty());
        lemma_int_scan(s, 0, false);
    }
}

/// The decimal notation of an integer, where a text holds it before a byte
/// that is no number byte, parses to the integer.
pub proof fn lemma_parse_integer(text: Seq<u8>, pos: Pos, v: int)
    requires
        i128::MIN <= v <= i128::MAX,
        has_at(text, pos.off, signed_decimal(v)),
        pos.off + signed_decimal(v).len() == text.len() || !is_number_byte(
            text[pos.off + signed_decimal(v).len()],
        ),
    ensures
        number_spec(text, pos) == (Outcome {
            result: Ok(Doc::Integer(v)),
            pos: pos.advance(signed_decimal(v).len() as int),
        }),
{
    let s = signed_decimal(v);
    lemma_int_lexeme_decimal(v);
    assert forall|k: int| pos.off <= k < pos.off + s.len() implies is_number_byte(
        #[trigger] text[k],
    ) by {
        assert(text[pos.off + (k - pos.off)] == s[k - pos.off]);
    }
    lemma_number_end_is(text, pos.off, s.len() as int);
    lemma_has_at_word(text, pos.off, s);
}

/// The text of a float, where a text holds it before a byte that is no
/// number byte, parses to the float.
pub proof fn lemma_parse_float(text: Seq<u8>, pos: Pos, t: Seq<u8>)
    requires
        is_float_lexeme(t),
        has_at(text, pos.off, t),
        pos.off + t.len() == text.len() || !is_number_byte(text[pos.off + t.len()]),
    ensures
        number_spec(text, pos) == (Outcome {
            result: Ok(Doc::Float(t)),
            pos: pos.advance(t.len() as int),
        }),
{
    lemma_float_syntax_bytes(t);
    assert forall|k: int| pos.off <= k < pos.off + t.len() implies is_number_byte(
        #[trigger] text[k],
    ) by {
        assert(text[pos.off + (k - pos.off)] == t[k - pos.off]);
    }
    lemma_number_end_is(text, pos.off, t.len() as int);
    lemma_has_at_word(text, pos.off, t);
}

/// What a text is written as starts with what its first byte is written as.
pub proof fn lemma_escaped_first(t: Seq<u8>)
    requires
        t.len() > 0,
    ensures
        escaped(t) == written(t[0]) + escaped(t.drop_first()),
{
    let head = seq![t[0]];
    lemma_escaped_add(head, t.drop_first());
    assert(head + t.drop_first() =~= t);
    assert(escaped(head) =~= written(t[0])) by {
        reveal_with_fuel(escaped, 2);
        assert(head.drop_last() =~= Seq::<u8>::empty());
    }
}

/// A hexadecimal digit has the value it was made for.
pub proof fn lemma_hex_digit(v: int)
    requires
        0 <= v < 16,
    ensures
        hex_value(hex_digit(v)) == Some(v),
{
}

/// The scan of a string literal reads what a byte is written as, as that byte.
pub proof fn lemma_scan_written(text: Seq<u8>, at: int, i: int, acc: Seq<u8>, b: u8)
    requires
        0 <= at < i,
        has_at(text, i, written(b)),
    ensures
        string_body(text, at, i, acc) == string_body(
            text,
            at,
            i + written(b).len(),
            acc.push(b),
        ),
{
    let w = written(b);
    assert(text[i + 0] == w[0]);
    if !is_escaped(b) {
    } else {
        assert(text[i + 1] == w[1]);
        if w[1] == LOWER_U {
            assert(text[i + 2] == w[2]);
            assert(text[i + 3] == w[3]);
            assert(text[i + 4] == w[4]);
            assert(text[i + 5] == w[5]);
            lemma_hex_digit(b as int / 16);
            lemma_hex_digit(b as int % 16);
            lemma_hex_digit(0);
            assert(hex_run(text, i + 2, 0, 0) == Ok::<int, Seq<char>>(b as int)) by {
                reveal_with_fuel(hex_run, 5);
            }
            assert(unicode_escape(text, at, i) == Escape::Scalar(b as int, i + 6));
            assert(encode_scalar(b as u32) =~= seq![b]) by {
                let c = b as u32;
                assert((c & 0x7F) as u8 == b) by (bit_vector)
                    requires
                        c == b as u32,
                        b < 0x80,
                ;
            }
            assert(acc + encode_scalar(b as u32) =~= acc.push(b));
        }
    }
}

/// The scan of a string literal reads what a text is written as, as that text.
pub proof fn lemma_scan_escaped(text: Seq<u8>, at: int, i: int, acc: Seq<u8>, t: Seq<u8>)
    requires
        0 <= at < i,
        has_at(text, i, escaped(t) + seq![QUOTE]),
    ensures
        string_body(text, at, i, acc) == Scan::Done(acc + t, i + escaped(t).len() + 1),
    decreases t.len(),
{
    lemma_has_at_parts(text, i, escaped(t), seq![QUOTE]);
    if t.len() == 0 {
        assert(text[i + 0] == seq![QUOTE][0]);
        assert(acc + t =~= acc);
    } else {
        let b = t[0];
        let rest = t.drop_first();
        lemma_escaped_first(t);
        let w = written(b);
        assert(escaped(t) + seq![QUOTE] =~= w + (escaped(rest) + seq![QUOTE]));
        lemma_has_at_parts(text, i, w, escaped(rest) + seq![QUOTE]);
        lemma_scan_written(text, at, i, acc, b);
        lemma_scan_escaped(text, at, i + w.len(), acc.push(b), rest);
        assert(acc.push(b) + rest =~= acc + t);
    }
}

/// A string literal, where a text holds it, parses to the text it was
/// written for.
pub proof fn lemma_parse_text(text: Seq<u8>, pos: Pos, t: Seq<u8>)
    requires
        valid_utf8(t),
        has_at(text, pos.off, quoted(t)),
    ensures
        string_spec(text, pos) == (TextOutcome {
            result: Ok(t),
            pos: pos.advance(quoted(t).len() as int),
        }),
{
    reveal(string_spec);
    let q = quoted(t);
    assert(q =~= seq![QUOTE] + (escaped(t) + seq![QUOTE]));
    lemma_has_at_parts(text, pos.off, seq![QUOTE], escaped(t) + seq![QUOTE]);
    assert(text[pos.off + 0] == seq![QUOTE][0]);
    lemma_scan_escaped(text, pos.off, pos.off + 1, Seq::empty(), t);
    assert(Seq::<u8>::empty() + t =~= t);
}

/// The texts of the items of an array start with the text of the first.
pub proof fn lemma_render_items_front(items: Seq<Doc>)
    requires
        items.len() >= 1,
    ensures
        render_items(items) == render(items[0]) + (if items.len() == 1 {
            Seq::<u8>::empty()
        } else {
            seq![COMMA] + render_items(items.drop_first())
        }),
    decreases items.len(),
{
    if items.len() == 1 {
        assert(render(items[0]) + Seq::<u8>::empty() =~= render(items[0]));
    } else if items.len() == 2 {
        assert(items.drop_last().len() == 1);
        assert(items.drop_first().len() == 1);
        assert(items.drop_last()[0] == items[0]);
        assert(items.drop_first()[0] == items.last());
        assert(render_items(items.drop_last()) == render(items[0]));
        assert(render_items(items.drop_first()) == render(items.last()));
        assert(render_items(items) == render_items(items.drop_last()) + seq![COMMA] + render(
            items.last(),
        ));
        assert(render_items(items) =~= render(items[0]) + (seq![COMMA] + render_items(
            items.drop_first(),
        )));
    } else {
        let front = items.drop_last();
        let tail = items.drop_first();
        lemma_render_items_front(front);
        assert(front[0] == items[0]);
        assert(front.drop_first() =~= tail.drop_last());
        assert(tail.last() == items.last());
        assert(render_items(items) =~= render(items[0]) + (seq![COMMA] + render_items(tail)));
    }
}

/// The texts of the members of an object start with the text of the first.
pub proof fn lemma_render_members_front(members: Seq<Member>)
    requires
        members.len() >= 1,
    ensures
        render_members(members) == render_member(members[0]) + (if members.len() == 1 {
            Seq::<u8>::empty()
        } else {
            seq![COMMA] + render_members(members.drop_first())
        }),
    decreases members.len(),
{
    if members.len() == 1 {
        assert(render_member(members[0]) + Seq::<u8>::empty() =~= render_member(members[0]));
    } else if members.len() == 2 {
        assert(members.drop_last().len() == 1);
        assert(members.drop_first().len() == 1);
        assert(members.drop_last()[0] == members[0]);
        assert(members.drop_first()[0] == members.last());
        assert(render_members(members.drop_last()) == render_member(members[0]));
        assert(render_members(members.drop_first()) == render_member(members.last()));
        assert(render_members(members) == render_members(members.drop_last()) + seq![COMMA]
            + render_member(members.last()));
        assert(render_members(members) =~= render_member(members[0]) + (seq![COMMA]
            + render_members(members.drop_first())));
    } else {
        let front = members.drop_last();
        let tail = members.drop_first();
        lemma_render_members_front(front);
        assert(front[0] == members[0]);
        assert(front.drop_first() =~= tail.drop_last());
        assert(tail.last() == members.last());
        assert(render_members(members) =~= render_member(members[0]) + (seq![COMMA]
            + render_members(tail)));
    }
}

/// A byte that a value can be told by: no whitespace and none of the marks
/// that stand between and behind values.
pub open spec fn opens_value(b: u8) -> bool {
    !is_space(b) && b != COMMA && b != COLON && b != CLOSE_BRACKET && b != CLOSE_BRACE
}

/// The text of a document starts with a byte that tells its kind.
pub proof fn lemma_render_first(d: Doc)
    requires
        d.wf(),
    ensures
        render(d).len() >= 1,
        opens_value(render(d)[0]),
        match d {
            Doc::Null => render(d)[0] == crate::ascii::LOWER_N,
            Doc::Bool(b) => render(d)[0] == if b {
                crate::ascii::LOWER_T
            } else {
                crate::ascii::LOWER_F
            },
            Doc::Integer(_) => is_number_byte(render(d)[0]),
            Doc::Float(_) => is_number_byte(render(d)[0]),
            Doc::Text(_) => render(d)[0] == QUOTE,
            Doc::Array(_) => render(d)[0] == OPEN_BRACKET,
            Doc::Object(_) => render(d)[0] == OPEN_BRACE,
        },
{
    match d {
        Doc::Integer(n) => {
            lemma_int_lexeme_decimal(n);
        },
        Doc::Float(t) => {
            lemma_float_syntax_bytes(t);
            assert(is_number_byte(t[0]));
        },
        _ => {},
    }
}

/// Where the tracker stands on a byte that is no whitespace, a value is read
/// from that byte on: an array behind a bracket, an object behind a brace, a
/// leaf behind anything else.
pub proof fn lemma_value_at(text: Seq<u8>, pos: Pos)
    requires
        byte_at(text, pos) is Some,
        !is_space(byte_at(text, pos).unwrap()),
    ensures
        skip_space(text, pos) == pos,
        value_spec(text, pos) == (if text[pos.off] == OPEN_BRACKET {
            array_spec(text, pos)
        } else if text[pos.off] == OPEN_BRACE {
            object_spec(text, pos)
        } else {
            leaf_spec(text, pos)
        }),
{
}

/// Where the text has no whitespace under the tracker, none is skipped.
pub proof fn lemma_no_space(text: Seq<u8>, pos: Pos)
    requires
        byte_at(text, pos) is None || !is_space(byte_at(text, pos).unwrap()),
    ensures
        skip_space(text, pos) == pos,
{
}

/// A member whose key comes behind all keys of a sorted store goes to its end.
pub proof fn lemma_upsert_last(acc: Seq<Member>, member: Member)
    requires
        sorted(acc.push(member)),
    ensures
        upsert(acc, member.key, member.value) == acc.push(member),
{
    let all = acc.push(member);
    assert forall|i: int| 0 <= i < acc.len() implies bytes_lt(
        (#[trigger] acc[i]).key,
        member.key,
    ) by {
        assert(all[i] == acc[i]);
        assert(all[acc.len() as int] == member);
    }
    lemma_slot_is(acc, member.key, acc.len() as int);
    assert(acc.insert(acc.len() as int, member) =~= acc.push(member));
}

/// Behind the text stands the end of the whole text or a byte that no
/// number is written with.
pub open spec fn delimited(text: Seq<u8>, end: int) -> bool {
    end == text.len() || (0 <= end < text.len() && !is_number_byte(text[end]))
}

/// The text of a leaf, where a text holds it, parses to the leaf.
pub proof fn lemma_parse_leaf(text: Seq<u8>, pos: Pos, d: Doc)
    requires
        d.wf(),
        !(d is Array),
        !(d is Object),
        has_at(text, pos.off, render(d)),
        d is Integer || d is Float ==> delimited(text, pos.off + render(d).len()),
    ensures
        leaf_spec(text, pos) == (Outcome {
            result: Ok(d),
            pos: pos.advance(render(d).len() as int),
        }),
{
    reveal(leaf_spec);
    lemma_render_first(d);
    let r = render(d);
    assert(text[pos.off + 0] == r[0]);
    match d {
        Doc::Null => {
            lemma_has_at_word(text, pos.off, r);
        },
        Doc::Bool(b) => {
            lemma_has_at_word(text, pos.off, r);
        },
        Doc::Integer(n) => {
            lemma_parse_integer(text, pos, n);
        },
        Doc::Float(t) => {
            lemma_parse_float(text, pos, t);
        },
        Doc::Text(t) => {
            lemma_parse_text(text, pos, t);
        },
        _ => {},
    }
}

/// The text of a well-formed document, where a text holds it, parses to the
/// document, and the tracker moves over just that text. Behind the text of a
/// number no byte must follow that a number is written with.
pub proof fn lemma_parse_render(text: Seq<u8>, pos: Pos, d: Doc)
    requires
        d.wf(),
        has_at(text, pos.off, render(d)),
        d is Integer || d is Float ==> delimited(text, pos.off + render(d).len()),
    ensures
        value_spec(text, pos) == (Outcome {
            result: Ok(d),
            pos: pos.advance(render(d).len() as int),
        }),
    decreases d,
{
    lemma_render_first(d);
    let r = render(d);
    assert(text[pos.off + 0] == r[0]);
    lemma_value_at(text, pos);
    match d {
        Doc::Array(items) => {
            let inner = render_items(items) + seq![CLOSE_BRACKET];
            assert(r =~= seq![OPEN_BRACKET] + inner);
            lemma_has_at_parts(text, pos.off, seq![OPEN_BRACKET], inner);
            let p = pos.advance(1);
            lemma_items_first(items);
            assert(text[p.off + 0] == inner[0]);
            lemma_no_space(text, p);
            lemma_parse_items(text, p, items, Seq::empty());
            assert(Seq::<Doc>::empty() + items =~= items);
            assert(array_spec(text, pos) == items_spec(text, p, Seq::empty()));
        },
        Doc::Object(members) => {
            let inner = render_members(members) + seq![CLOSE_BRACE];
            assert(r =~= seq![OPEN_BRACE] + inner);
            lemma_has_at_parts(text, pos.off, seq![OPEN_BRACE], inner);
            let p = pos.advance(1);
            if members.len() == 0 {
                assert(text[p.off + 0] == inner[0]);
                lemma_no_space(text, p);
            } else {
                lemma_render_members_front(members);
                assert(inner[0] == QUOTE) by {
                    assert(render_member(members[0])[0] == QUOTE);
                }
                assert(text[p.off + 0] == inner[0]);
                lemma_no_space(text, p);
                assert(Seq::<Member>::empty() + members =~= members);
                lemma_parse_members(text, p, members, Seq::empty());
                assert(object_spec(text, pos) == members_spec(text, p, Seq::empty()));
            }
        },
        _ => {
            lemma_parse_leaf(text, pos, d);
        },
    }
}

/// What stands behind an opening bracket starts with a byte that is neither
/// whitespace nor a comma.
pub proof fn lemma_items_first(items: Seq<Doc>)
    requires
        forall|i: int| 0 <= i < items.len() ==> (#[trigger] items[i]).wf(),
    ensures
        !is_space((render_items(items) + seq![CLOSE_BRACKET])[0]),
        (render_items(items) + seq![CLOSE_BRACKET])[0] != COMMA,
        items.len() > 0 ==> (render_items(items) + seq![CLOSE_BRACKET])[0] != CLOSE_BRACKET,
{
    if items.len() > 0 {
        lemma_render_items_front(items);
        lemma_render_first(items[0]);
        assert(render_items(items)[0] == render(items[0])[0]);
    }
}

/// The texts of the items of an array with the closing bracket behind them,
/// where a text holds them, parse to the items.
pub proof fn lemma_parse_items(text: Seq<u8>, pos: Pos, rest: Seq<Doc>, acc: Seq<Doc>)
    requires
        forall|i: int| 0 <= i < rest.len() ==> (#[trigger] rest[i]).wf(),
        has_at(text, pos.off, render_items(rest) + seq![CLOSE_BRACKET]),
    ensures
        items_spec(text, pos, acc) == (Outcome {
            result: Ok(Doc::Array(acc + rest)),
            pos: pos.advance(render_items(rest).len() as int + 1),
        }),
    decreases rest,
{
    let whole = render_items(rest) + seq![CLOSE_BRACKET];
    lemma_items_first(rest);
    assert(text[pos.off + 0] == whole[0]);
    if rest.len() == 0 {
        assert(acc + rest =~= acc);
    } else {
        let first = rest[0];
        let tail = rest.drop_first();
        let r0 = render(first);
        lemma_render_items_front(rest);
        lemma_render_first(first);
        assert forall|i: int| 0 <= i < tail.len() implies (#[trigger] tail[i]).wf() by {
            assert(tail[i] == rest[i + 1]);
        }
        let behind = if rest.len() == 1 {
            seq![CLOSE_BRACKET]
        } else {
            seq![COMMA] + (render_items(tail) + seq![CLOSE_BRACKET])
        };
        assert(whole =~= r0 + behind);
        lemma_has_at_parts(text, pos.off, r0, behind);
        let q = pos.advance(r0.len() as int);
        assert(text[q.off + 0] == behind[0]);
        lemma_parse_render(text, pos, first);
        lemma_no_space(text, q);
        let next = if rest.len() == 1 { q } else { q.advance(1) };
        if rest.len() > 1 {
            lemma_has_at_parts(text, q.off, seq![COMMA], render_items(tail) + seq![CLOSE_BRACKET]);
            lemma_items_first(tail);
            assert(text[next.off + 0] == (render_items(tail) + seq![CLOSE_BRACKET])[0]);
            lemma_no_space(text, next);
        } else {
            assert(tail.len() == 0);
            assert(render_items(tail) + seq![CLOSE_BRACKET] =~= seq![CLOSE_BRACKET]);
        }
        lemma_parse_items(text, next, tail, acc.push(first));
        assert(acc.push(first) + tail =~= acc + rest);
    }
}

/// The text of a member, where a text holds it before a comma or a closing
/// brace, parses to the member.
pub proof fn lemma_parse_member(text: Seq<u8>, pos: Pos, member: Member)
    requires
        valid_utf8(member.key),
        member.value.wf(),
        has_at(text, pos.off, render_member(member)),
        delimited(text, pos.off + render_member(member).len()),
    ensures
        member_spec(text, pos) == (MemberOutcome {
            result: Ok(member),
            pos: pos.advance(render_member(member).len() as int),
        }),
    decreases member,
{
    let k = quoted(member.key);
    let v = render(member.value);
    let whole = render_member(member);
    assert(whole =~= k + (seq![COLON] + v));
    lemma_has_at_parts(text, pos.off, k, seq![COLON] + v);
    assert(text[pos.off + 0] == k[0]);
    lemma_no_space(text, pos);
    lemma_parse_text(text, pos, member.key);
    let colon = pos.advance(k.len() as int);
    lemma_has_at_parts(text, colon.off, seq![COLON], v);
    assert(text[colon.off + 0] == seq![COLON][0]);
    lemma_no_space(text, colon);
    let start = colon.advance(1);
    lemma_render_first(member.value);
    assert(text[start.off + 0] == v[0]);
    lemma_no_space(text, start);
    lemma_parse_render(text, start, member.value);
}

/// The texts of the members of an object with the closing brace behind them,
/// where a text holds them, parse to the members, which go to the end of the
/// store one after the other.
pub proof fn lemma_parse_members(text: Seq<u8>, pos: Pos, rest: Seq<Member>, acc: Seq<Member>)
    requires
        rest.len() >= 1,
        sorted(acc + rest),
        forall|i: int|
            0 <= i < rest.len() ==> valid_utf8((#[trigger] rest[i]).key) && rest[i].value.wf(),
        has_at(text, pos.off, render_members(rest) + seq![CLOSE_BRACE]),
    ensures
        members_spec(text, pos, acc) == (Outcome {
            result: Ok(Doc::Object(acc + rest)),
            pos: pos.advance(render_members(rest).len() as int + 1),
        }),
    decreases rest,
{
    let whole = render_members(rest) + seq![CLOSE_BRACE];
    let first = rest[0];
    let tail = rest.drop_first();
    let r0 = render_member(first);
    lemma_render_members_front(rest);
    let behind = if rest.len() == 1 {
        seq![CLOSE_BRACE]
    } else {
        seq![COMMA] + (render_members(tail) + seq![CLOSE_BRACE])
    };
    assert(whole =~= r0 + behind);
    lemma_has_at_parts(text, pos.off, r0, behind);
    let q = pos.advance(r0.len() as int);
    assert(text[q.off + 0] == behind[0]);
    lemma_parse_member(text, pos, first);
    lemma_no_space(text, q);
    let store = acc.push(first);
    assert(store + tail =~= acc + rest);
    assert(sorted(store)) by {
        assert forall|i: int, j: int| 0 <= i < j < store.len() implies bytes_lt(
            (#[trigger] store[i]).key,
            (#[trigger] store[j]).key,
        ) by {
            assert((acc + rest)[i] == store[i]);
            assert((acc + rest)[j] == store[j]);
        }
    }
    lemma_upsert_last(acc, first);
    if rest.len() > 1 {
        let next = q.advance(1);
        assert forall|i: int| 0 <= i < tail.len() implies valid_utf8((#[trigger] tail[i]).key)
            && tail[i].value.wf() by {
            assert(tail[i] == rest[i + 1]);
        }
        lemma_has_at_parts(text, q.off, seq![COMMA], render_members(tail) + seq![CLOSE_BRACE]);
        lemma_parse_members(text, next, tail, store);
    } else {
        assert(tail.len() == 0);
        assert(store =~= acc + rest);
    }
}

} // verus!
