//! The grammar: what each text parses to, as functions on bytes and positions.

use vstd::prelude::*;
use vstd::utf8::{encode_scalar, is_scalar, valid_utf8};
use crate::ascii::{
    hex_value, is_digit, is_number_byte, is_sign, is_space, BACKSLASH, CLOSE_BRACE, CLOSE_BRACKET,
    COLON, COMMA, LOWER_B, LOWER_F, LOWER_N, LOWER_R, LOWER_T, LOWER_U, MINUS, OPEN_BRACE,
    OPEN_BRACKET, QUOTE, SLASH, ZERO,
};
use crate::error::{Failure, IntFault};
use crate::lex::{annotate, debug_form, decimal_text, hex_text, Pos};
use crate::model::{has_float_mark, is_float_syntax, upsert, Doc, Member};
use crate::utf8::char_at;

verus! {

/// What parsing a value comes to: the document or the failure, and where the
/// tracker then stands.
pub ghost struct Outcome {
    pub result: Result<Doc, Failure>,
    pub pos: Pos,
}

/// What parsing a string literal comes to: the bytes of the string or the
/// failure, and where the tracker then stands.
pub ghost struct TextOutcome {
    pub result: Result<Seq<u8>, Failure>,
    pub pos: Pos,
}

/// How the scan of a string literal ends: with the decoded bytes and the index
/// behind the closing quote, or with a message and the number of bytes the
/// tracker moves before the message is written.
pub ghost enum Scan {
    Done(Seq<u8>, int),
    Fail(Seq<char>, int),
}

/// The position `b` can be reached from `a` by moving forward over text.
pub open spec fn reaches(a: Pos, b: Pos) -> bool {
    &&& a.off <= b.off
    &&& a.row <= b.row <= a.row + (b.off - a.off)
    &&& 0 <= b.col <= a.col + (b.off - a.off)
}

/// How many bytes of the text lie at or behind index `i`.
pub open spec fn left(text: Seq<u8>, i: int) -> int {
    if i <= text.len() {
        text.len() - i
    } else {
        0
    }
}

/// A structural failure at a position.
pub open spec fn parse_error(msg: Seq<char>, pos: Pos) -> Failure {
    Failure::Parse(annotate(msg, pos))
}

/// The byte under the tracker, if the text has not ended there.
pub open spec fn byte_at(text: Seq<u8>, pos: Pos) -> Option<u8> {
    if 0 <= pos.off < text.len() {
        Some(text[pos.off])
    } else {
        None
    }
}

/// The position of the first byte at or after `pos` that is no whitespace.
pub open spec fn skip_space(text: Seq<u8>, pos: Pos) -> Pos
    decreases text.len() - pos.off,
{
    if 0 <= pos.off < text.len() && is_space(text[pos.off]) {
        skip_space(text, pos.after_space(text[pos.off]))
    } else {
        pos
    }
}

/// The bytes of `null`.
pub open spec fn word_null() -> Seq<u8> {
    seq![0x6eu8, 0x75u8, 0x6cu8, 0x6cu8]
}

/// The bytes of `true`.
pub open spec fn word_true() -> Seq<u8> {
    seq![0x74u8, 0x72u8, 0x75u8, 0x65u8]
}

/// The bytes of `false`.
pub open spec fn word_false() -> Seq<u8> {
    seq![0x66u8, 0x61u8, 0x6cu8, 0x73u8, 0x65u8]
}

/// The text holds `word` at index `at`.
pub open spec fn holds_word(text: Seq<u8>, at: int, word: Seq<u8>) -> bool {
    0 <= at && at + word.len() <= text.len() && text.subrange(at, at + word.len()) == word
}

/// One of the three literals: the word must stand at the position; what
/// follows it is not looked at.
pub open spec fn word_spec(
    text: Seq<u8>,
    pos: Pos,
    word: Seq<u8>,
    value: Doc,
    msg: Seq<char>,
) -> Outcome {
    if holds_word(text, pos.off, word) {
        Outcome { result: Ok(value), pos: pos.advance(word.len() as int) }
    } else {
        Outcome { result: Err(parse_error(msg, pos)), pos }
    }
}

/// The first index at or after `i` that holds no number byte.
pub open spec fn number_end(text: Seq<u8>, i: int) -> int
    decreases text.len() - i,
{
    if 0 <= i < text.len() && is_number_byte(text[i]) {
        number_end(text, i + 1)
    } else {
        i
    }
}

/// Reads the digits of an integer from index `i` on, first to last, behind
/// the digits that make up `acc`: each digit is taken in at once, so that
/// the first byte that is no digit, or the first digit that takes the number
/// out of the range of 128 bits, decides the fault.
pub open spec fn int_scan(body: Seq<u8>, i: int, acc: int, negative: bool) -> Result<
    int,
    IntFault,
>
    decreases body.len() - i,
{
    if !(0 <= i < body.len()) {
        Ok(acc)
    } else if !is_digit(body[i]) {
        Err(IntFault::InvalidDigit)
    } else {
        let digit = body[i] - ZERO;
        let next = if negative { acc * 10 - digit } else { acc * 10 + digit };
        if next > i128::MAX {
            Err(IntFault::PosOverflow)
        } else if next < i128::MIN {
            Err(IntFault::NegOverflow)
        } else {
            int_scan(body, i + 1, next, negative)
        }
    }
}

/// The integer that a run of bytes denotes: an optional sign, then digits
/// only and one at least, and a value that fits 128 bits.
pub open spec fn int_lexeme(s: Seq<u8>) -> Result<int, IntFault> {
    if s.len() == 0 {
        Err(IntFault::Empty)
    } else if s.len() == 1 && is_sign(s[0]) {
        Err(IntFault::InvalidDigit)
    } else if is_sign(s[0]) {
        int_scan(s.drop_first(), 0, 0, s[0] == MINUS)
    } else {
        int_scan(s, 0, 0, false)
    }
}

/// A number: the longest run of number bytes, read as a float if it holds a
/// point or an exponent and as an integer if not. The tracker moves over the
/// run whether or not it denotes a number.
pub open spec fn number_spec(text: Seq<u8>, pos: Pos) -> Outcome {
    let end = number_end(text, pos.off);
    let span = text.subrange(pos.off, end);
    let after = pos.advance(end - pos.off);
    if has_float_mark(span) {
        if is_float_syntax(span) {
            Outcome { result: Ok(Doc::Float(span)), pos: after }
        } else {
            Outcome {
                result: Err(Failure::ParseFloat(annotate("invalid float"@, after))),
                pos: after,
            }
        }
    } else {
        match int_lexeme(span) {
            Ok(v) => Outcome { result: Ok(Doc::Integer(v)), pos: after },
            Err(fault) => Outcome {
                result: Err(Failure::ParseInt(fault, annotate("invalid integer"@, after))),
                pos: after,
            },
        }
    }
}

/// The byte that a one-letter escape stands for.
pub open spec fn simple_escape(e: u8) -> Option<u8> {
    if e == QUOTE || e == BACKSLASH || e == SLASH {
        Some(e)
    } else if e == LOWER_B {
        Some(0x08u8)
    } else if e == LOWER_F {
        Some(0x0cu8)
    } else if e == LOWER_N {
        Some(0x0au8)
    } else if e == LOWER_R {
        Some(0x0du8)
    } else if e == LOWER_T {
        Some(0x09u8)
    } else {
        None
    }
}

/// Reads hexadecimal digits from index `i` until four are read: `n` are read
/// already and make up `code`. Fails with a message where the text ends,
/// which cites the digits read so far, or where a byte is no hexadecimal
/// digit, which cites the character that starts there.
pub open spec fn hex_run(text: Seq<u8>, i: int, n: int, code: int) -> Result<int, Seq<char>>
    decreases 4 - n,
{
    if n >= 4 {
        Ok(code)
    } else if !(0 <= i + n < text.len()) {
        Err("incomplete string escape code "@ + hex_text(code))
    } else {
        match hex_value(text[i + n]) {
            None => Err("invalid string escape code "@ + debug_form(char_at(text, i + n))),
            Some(v) => hex_run(text, i, n + 1, code * 16 + v),
        }
    }
}

/// The first half of a surrogate pair.
pub open spec fn is_high_surrogate(code: int) -> bool {
    0xD800 <= code <= 0xDBFF
}

/// The second half of a surrogate pair.
pub open spec fn is_low_surrogate(code: int) -> bool {
    0xDC00 <= code <= 0xDFFF
}

/// The scalar that a surrogate pair stands for.
pub open spec fn pair_scalar(high: int, low: int) -> int {
    0x10000 + (high - 0xD800) * 0x400 + (low - 0xDC00)
}

/// The escape of a low surrogate behind a high one: `\u` at index `i` and
/// four hexadecimal digits behind it, or a message.
pub open spec fn second_escape(text: Seq<u8>, i: int) -> Result<int, Seq<char>> {
    if 0 <= i && i + 1 < text.len() && text[i] == BACKSLASH && text[i + 1] == LOWER_U {
        hex_run(text, i + 2, 0, 0)
    } else {
        Err("invalid string string escape type"@)
    }
}

/// How a `\u` escape ends: with the scalar it stands for and the index behind
/// it, or with a message and the number of bytes the tracker moves before the
/// message is written.
pub ghost enum Escape {
    Scalar(int, int),
    Fail(Seq<char>, int),
}

/// The `\u` escape whose backslash stands at index `i`, in a string literal
/// whose opening quote stands at index `at`: four hexadecimal digits for a
/// scalar, which a high surrogate makes only together with a low surrogate
/// that follows it at once in an escape of its own.
pub open spec fn unicode_escape(text: Seq<u8>, at: int, i: int) -> Escape {
    match hex_run(text, i + 2, 0, 0) {
        Err(msg) => Escape::Fail(msg, 0),
        Ok(first) => {
            if is_low_surrogate(first) {
                Escape::Fail("invalid string codepoint "@ + decimal_text(first), i + 1 - at)
            } else if !is_high_surrogate(first) {
                Escape::Scalar(first, i + 6)
            } else {
                match second_escape(text, i + 6) {
                    Err(msg) => Escape::Fail(msg, 0),
                    Ok(second) => {
                        if !is_low_surrogate(second) {
                            Escape::Fail(
                                "invalid string codepoint "@ + decimal_text(second),
                                i + 1 - at,
                            )
                        } else {
                            Escape::Scalar(pair_scalar(first, second), i + 12)
                        }
                    },
                }
            }
        },
    }
}

/// Scans the body of a string literal whose opening quote stands at index
/// `at`, from index `i` on, with `acc` decoded so far. Bytes are copied until
/// the closing quote, but for escapes: a backslash and a letter for one byte,
/// or a `\u` escape for the UTF-8 encoding of a scalar.
pub open spec fn string_body(text: Seq<u8>, at: int, i: int, acc: Seq<u8>) -> Scan
    decreases left(text, i),
{
    if !(0 <= i < text.len()) {
        Scan::Fail("incomplete string"@, 0)
    } else if text[i] == QUOTE {
        Scan::Done(acc, i + 1)
    } else if text[i] != BACKSLASH {
        string_body(text, at, i + 1, acc.push(text[i]))
    } else if i + 1 >= text.len() {
        Scan::Fail("incomplete string"@, 0)
    } else if simple_escape(text[i + 1]) is Some {
        string_body(text, at, i + 2, acc.push(simple_escape(text[i + 1]).unwrap()))
    } else if text[i + 1] != LOWER_U {
        Scan::Fail("invalid string string escape type"@, i + 1 - at)
    } else {
        match unicode_escape(text, at, i) {
            Escape::Fail(msg, moved) => Scan::Fail(msg, moved),
            Escape::Scalar(scalar, next) => string_body(
                text,
                at,
                next,
                acc + encode_scalar(scalar as u32),
            ),
        }
    }
}

/// A string literal at the position: the bytes it decodes to, which must be
/// UTF-8. On success the tracker stands behind the closing quote.
#[verifier::opaque]
pub open spec fn string_spec(text: Seq<u8>, pos: Pos) -> TextOutcome {
    if byte_at(text, pos) is None {
        TextOutcome { result: Err(parse_error("unexpected eof"@, pos)), pos }
    } else if byte_at(text, pos) != Some(QUOTE) {
        TextOutcome { result: Err(parse_error("not a string"@, pos)), pos }
    } else {
        match string_body(text, pos.off, pos.off + 1, Seq::empty()) {
            Scan::Done(bytes, end) => {
                if valid_utf8(bytes) {
                    TextOutcome { result: Ok(bytes), pos: pos.advance(end - pos.off) }
                } else {
                    TextOutcome { result: Err(parse_error("invalid utf-8 in string"@, pos)), pos }
                }
            },
            Scan::Fail(msg, moved) => TextOutcome {
                result: Err(parse_error(msg, pos.advance(moved))),
                pos: pos.advance(moved),
            },
        }
    }
}

/// A value that holds no other: a literal, a number or a string, or nothing
/// that a value can start with. The tracker stands on a byte of the text.
#[verifier::opaque]
pub open spec fn leaf_spec(text: Seq<u8>, pos: Pos) -> Outcome {
    let b = text[pos.off];
    if b == LOWER_N {
        word_spec(text, pos, word_null(), Doc::Null, "expected null"@)
    } else if b == LOWER_T {
        word_spec(text, pos, word_true(), Doc::Bool(true), "expected true"@)
    } else if b == LOWER_F {
        word_spec(text, pos, word_false(), Doc::Bool(false), "expected false"@)
    } else if is_number_byte(b) {
        number_spec(text, pos)
    } else if b == QUOTE {
        let s = string_spec(text, pos);
        match s.result {
            Ok(bytes) => Outcome { result: Ok(Doc::Text(bytes)), pos: s.pos },
            Err(e) => Outcome { result: Err(e), pos: s.pos },
        }
    } else {
        Outcome { result: Err(parse_error("invalid token "@ + decimal_text(b as int), pos)), pos }
    }
}

/// A value: leading whitespace is skipped, and the first byte behind it
/// decides what is read.
pub open spec fn value_spec(text: Seq<u8>, pos: Pos) -> Outcome
    decreases left(text, pos.off), 1int,
{
    let p = skip_space(text, pos);
    if !(0 <= p.off < text.len()) {
        Outcome { result: Err(parse_error("unexpected eof"@, p)), pos: p }
    } else {
        proof {
            lemma_skip_space(text, pos);
        }
        if text[p.off] == OPEN_BRACKET {
            array_spec(text, p)
        } else if text[p.off] == OPEN_BRACE {
            object_spec(text, p)
        } else {
            leaf_spec(text, p)
        }
    }
}

/// An array, with the tracker on its opening bracket. A comma must not come
/// first; between and behind the items one comma each may stand.
pub open spec fn array_spec(text: Seq<u8>, pos: Pos) -> Outcome
    decreases left(text, pos.off), 0int,
{
    let p = skip_space(text, pos.advance(1));
    if byte_at(text, pos) != Some(OPEN_BRACKET) {
        Outcome { result: Err(parse_error("not an array"@, pos)), pos }
    } else if byte_at(text, p) == Some(COMMA) {
        Outcome { result: Err(parse_error("expected ','"@, p)), pos: p }
    } else {
        proof {
            lemma_skip_space(text, pos.advance(1));
        }
        items_spec(text, p, Seq::empty())
    }
}

/// The items of an array from the position on, behind the items `acc`. An
/// item that is read ends behind where it starts; that this is asked for
/// before the next item is read only makes the definition well-founded.
pub open spec fn items_spec(text: Seq<u8>, pos: Pos, acc: Seq<Doc>) -> Outcome
    decreases left(text, pos.off), 2int,
{
    if byte_at(text, pos) == Some(CLOSE_BRACKET) {
        Outcome { result: Ok(Doc::Array(acc)), pos: pos.advance(1) }
    } else {
        let item = value_spec(text, pos);
        match item.result {
            Err(e) => item,
            Ok(v) => {
                let p = skip_space(text, item.pos);
                let next = if byte_at(text, p) == Some(COMMA) {
                    skip_space(text, p.advance(1))
                } else {
                    p
                };
                if pos.off < next.off && pos.off < text.len() {
                    items_spec(text, next, acc.push(v))
                } else {
                    item
                }
            },
        }
    }
}

/// An object, with the tracker on its opening brace.
pub open spec fn object_spec(text: Seq<u8>, pos: Pos) -> Outcome
    decreases left(text, pos.off), 0int,
{
    let p = skip_space(text, pos.advance(1));
    if byte_at(text, pos) != Some(OPEN_BRACE) {
        Outcome { result: Err(parse_error("not an object"@, pos)), pos }
    } else if byte_at(text, p) == Some(CLOSE_BRACE) {
        Outcome { result: Ok(Doc::Object(Seq::empty())), pos: p.advance(1) }
    } else {
        proof {
            lemma_skip_space(text, pos.advance(1));
        }
        members_spec(text, p, Seq::empty())
    }
}

/// What parsing one member comes to: the key and the value or the failure,
/// and where the tracker then stands.
pub ghost struct MemberOutcome {
    pub result: Result<Member, Failure>,
    pub pos: Pos,
}

/// One member of an object: a key, which is a string literal, a colon and a
/// value, with whitespace before each.
pub open spec fn member_spec(text: Seq<u8>, pos: Pos) -> MemberOutcome
    decreases left(text, pos.off), 2int,
{
    let key = string_spec(text, skip_space(text, pos));
    match key.result {
        Err(e) => MemberOutcome { result: Err(e), pos: key.pos },
        Ok(name) => {
            let colon = skip_space(text, key.pos);
            if byte_at(text, colon) != Some(COLON) {
                MemberOutcome {
                    result: Err(
                        parse_error(
                            (if byte_at(text, colon) is None {
                                "missing token "@
                            } else {
                                "invalid token "@
                            }) + decimal_text(COLON as int),
                            colon,
                        ),
                    ),
                    pos: colon,
                }
            } else {
                let start = skip_space(text, colon.advance(1));
                proof {
                    lemma_skip_space(text, pos);
                    lemma_string_spec(text, skip_space(text, pos));
                    lemma_skip_space(text, key.pos);
                    lemma_skip_space(text, colon.advance(1));
                }
                let item = value_spec(text, start);
                match item.result {
                    Err(e) => MemberOutcome { result: Err(e), pos: item.pos },
                    Ok(value) => MemberOutcome {
                        result: Ok(Member { key: name, value }),
                        pos: item.pos,
                    },
                }
            }
        },
    }
}

/// The members of an object from the position on, into the store `acc`: each
/// is put into the store so that the last of two equal keys stays, and behind
/// each stands a comma, to go on, or the closing brace. A member never ends
/// before where it starts; that this is asked for before the next member is
/// read only makes the definition well-founded.
pub open spec fn members_spec(text: Seq<u8>, pos: Pos, acc: Seq<Member>) -> Outcome
    decreases left(text, pos.off), 3int,
{
    let one = member_spec(text, pos);
    match one.result {
        Err(e) => Outcome { result: Err(e), pos: one.pos },
        Ok(member) => {
            let p = skip_space(text, one.pos);
            let store = upsert(acc, member.key, member.value);
            if byte_at(text, p) is None {
                Outcome { result: Err(parse_error("unexpected eof"@, p)), pos: p }
            } else if byte_at(text, p) == Some(CLOSE_BRACE) {
                Outcome { result: Ok(Doc::Object(store)), pos: p.advance(1) }
            } else if byte_at(text, p) != Some(COMMA) || p.off < pos.off {
                Outcome {
                    result: Err(
                        parse_error("invalid token "@ + decimal_text(text[p.off] as int), p),
                    ),
                    pos: p,
                }
            } else {
                members_spec(text, p.advance(1), store)
            }
        },
    }
}

/// Digits that are read into a number in the range of 128 bits give a number
/// in that range.
pub proof fn lemma_int_scan_fits(body: Seq<u8>, i: int, acc: int, negative: bool)
    requires
        i128::MIN <= acc <= i128::MAX,
    ensures
        int_scan(body, i, acc, negative) is Ok ==> i128::MIN <= int_scan(
            body,
            i,
            acc,
            negative,
        )->Ok_0 <= i128::MAX,
    decreases body.len() - i,
{
    if 0 <= i < body.len() && is_digit(body[i]) {
        let digit = body[i] - ZERO;
        let next = if negative { acc * 10 - digit } else { acc * 10 + digit };
        if i128::MIN <= next <= i128::MAX {
            lemma_int_scan_fits(body, i + 1, next, negative);
        }
    }
}

/// An integer that is read fits 128 bits.
pub proof fn lemma_int_lexeme_fits(s: Seq<u8>)
    ensures
        int_lexeme(s) is Ok ==> i128::MIN <= int_lexeme(s)->Ok_0 <= i128::MAX,
{
    if s.len() > 0 {
        lemma_int_scan_fits(s.drop_first(), 0, 0, s[0] == MINUS);
        lemma_int_scan_fits(s, 0, 0, false);
    }
}

/// Skipping whitespace moves forward, stops inside the text and stops on a
/// byte that is no whitespace.
pub proof fn lemma_skip_space(text: Seq<u8>, pos: Pos)
    ensures
        0 <= pos.col ==> reaches(pos, skip_space(text, pos)),
        pos.off <= skip_space(text, pos).off,
        pos.off <= text.len() ==> skip_space(text, pos).off <= text.len(),
        byte_at(text, skip_space(text, pos)) is Some ==> !is_space(
            byte_at(text, skip_space(text, pos)).unwrap(),
        ),
        skip_space(text, skip_space(text, pos)) == skip_space(text, pos),
    decreases text.len() - pos.off,
{
    if 0 <= pos.off < text.len() && is_space(text[pos.off]) {
        lemma_skip_space(text, pos.after_space(text[pos.off]));
    }
}

/// Reading four hexadecimal digits succeeds only inside the text, and gives a
/// number below 65536.
pub proof fn lemma_hex_run(text: Seq<u8>, i: int)
    requires
        0 <= i,
    ensures
        hex_run(text, i, 0, 0) is Ok ==> i + 4 <= text.len() && 0 <= hex_run(text, i, 0, 0)->Ok_0
            < 0x10000,
{
    reveal_with_fuel(hex_run, 5);
}

/// A `\u` escape ends behind its backslash, inside the text, with a scalar.
pub proof fn lemma_unicode_escape(text: Seq<u8>, at: int, i: int)
    requires
        0 <= at < i,
        i + 1 < text.len(),
    ensures
        match unicode_escape(text, at, i) {
            Escape::Scalar(scalar, next) => i < next <= text.len() && 0 <= scalar <= 0x10FFFF
                && is_scalar(scalar as u32),
            Escape::Fail(_, moved) => 0 <= moved && at + moved <= text.len(),
        },
{
    lemma_hex_run(text, i + 2);
    lemma_hex_run(text, i + 8);
}

/// A scan ends behind what it has read, inside the text.
pub proof fn lemma_string_body(text: Seq<u8>, at: int, i: int, acc: Seq<u8>)
    requires
        0 <= at < i,
        at < text.len(),
    ensures
        match string_body(text, at, i, acc) {
            Scan::Done(_, end) => i < end <= text.len(),
            Scan::Fail(_, moved) => 0 <= moved && at + moved <= text.len(),
        },
    decreases left(text, i),
{
    if !(0 <= i < text.len()) {
    } else if text[i] == QUOTE {
    } else if text[i] != BACKSLASH {
        lemma_string_body(text, at, i + 1, acc.push(text[i]));
    } else if i + 1 >= text.len() {
    } else if simple_escape(text[i + 1]) is Some {
        lemma_string_body(text, at, i + 2, acc.push(simple_escape(text[i + 1]).unwrap()));
    } else if text[i + 1] != LOWER_U {
    } else {
        lemma_unicode_escape(text, at, i);
        match unicode_escape(text, at, i) {
            Escape::Fail(msg, moved) => {},
            Escape::Scalar(scalar, next) => {
                lemma_string_body(text, at, next, acc + encode_scalar(scalar as u32));
            },
        }
    }
}

/// A string literal takes two bytes at least, and no failure moves the
/// tracker back or out of the text.
pub proof fn lemma_string_spec(text: Seq<u8>, pos: Pos)
    ensures
        string_spec(text, pos).result is Ok ==> pos.off + 2 <= string_spec(text, pos).pos.off,
        string_spec(text, pos).pos == pos.advance(string_spec(text, pos).pos.off - pos.off),
        pos.off <= string_spec(text, pos).pos.off,
        pos.off <= text.len() ==> string_spec(text, pos).pos.off <= text.len(),
{
    reveal(string_spec);
    if byte_at(text, pos) == Some(QUOTE) {
        lemma_string_body(text, pos.off, pos.off + 1, Seq::empty());
    }
}

} // verus!
