//! Reading the leaves of the grammar: whitespace, the three literals, numbers
//! and string literals.

use vstd::prelude::*;
use vstd::slice::{slice_subrange, slice_to_vec};
use vstd::string::*;
use vstd::utf8::*;
use crate::ascii::{
    byte_hex_value, byte_is_digit, byte_is_float_mark, byte_is_number, byte_is_sign, byte_is_space,
    is_float_mark, BACKSLASH, LINE_FEED, LOWER_B, LOWER_E, LOWER_F, LOWER_N, LOWER_R, LOWER_T,
    LOWER_U, MINUS, POINT, QUOTE, SLASH, UPPER_E,
};
use crate::error::{Error, Failure, IntFault};
use crate::grammar::{
    hex_run, holds_word, int_lexeme, int_scan, lemma_int_lexeme_fits, lemma_unicode_escape,
    number_end, number_spec, parse_error, reaches, second_escape, simple_escape, skip_space,
    string_body, string_spec, unicode_escape, word_false, word_null, word_spec, word_true, Escape,
    Scan,
};
use crate::json::Json;
use crate::lex::{char_debug, decimal_string, decimal_text, hex_string, Lex, Pos};
use crate::model::{digits_end, has_float_mark, is_float_syntax, lemma_float_syntax_bytes, Doc};
use crate::utf8::{ascii_string, bytes_of, read_char, string_from_utf8};

verus! {

/// The tracker stands inside the text or at its end, and can move to the end
/// without overflow.
pub open spec fn ready(text: Seq<u8>, pos: Pos) -> bool {
    pos.off <= text.len() && pos.fits(text.len() - pos.off)
}

/// A result of the parser says what the grammar says.
pub open spec fn agrees(r: Result<Json, Error>, s: Result<Doc, Failure>) -> bool {
    match s {
        Ok(d) => r is Ok && r->Ok_0@ == d,
        Err(f) => r is Err && r->Err_0@ == f,
    }
}

/// A string read by the parser is the string that the grammar gives.
pub open spec fn agrees_text(r: Result<String, Error>, s: Result<Seq<u8>, Failure>) -> bool {
    match s {
        Ok(bytes) => r is Ok && bytes_of(r->Ok_0@) == bytes,
        Err(f) => r is Err && r->Err_0@ == f,
    }
}

/// Moves the tracker over whitespace: a line feed starts a new row at column
/// zero, any other whitespace byte counts one column.
pub fn parse_whitespace(text: &[u8], lex: &mut Lex)
    requires
        ready(text@, old(lex)@),
    ensures
        final(lex)@ == skip_space(text@, old(lex)@),
        ready(text@, final(lex)@),
        reaches(old(lex)@, final(lex)@),
{
    while lex.off < text.len() && byte_is_space(text[lex.off])
        invariant
            ready(text@, lex@),
            reaches(old(lex)@, lex@),
            skip_space(text@, old(lex)@) == skip_space(text@, lex@),
        decreases text.len() - lex.off,
    {
        if text[lex.off] == LINE_FEED {
            lex.row = lex.row + 1;
            lex.col = 0;
        } else {
            lex.col = lex.col + 1;
        }
        lex.off = lex.off + 1;
    }
}

/// A structural error at the tracker's position.
pub fn failure(lex: &Lex, msg: &str) -> (e: Error)
    ensures
        e@ == parse_error(msg@, lex@),
{
    Error::Parse(lex.format(msg))
}

/// Whether the text holds `word` at index `at`.
pub fn holds(text: &[u8], at: usize, word: &[u8]) -> (r: bool)
    requires
        at <= text.len(),
    ensures
        r == holds_word(text@, at as int, word@),
{
    if word.len() > text.len() - at {
        return false;
    }
    let mut i: usize = 0;
    while i < word.len()
        invariant
            i <= word.len(),
            at + word.len() <= text.len(),
            forall|k: int| 0 <= k < i ==> text@[at + k] == word@[k],
        decreases word.len() - i,
    {
        if text[at + i] != word[i] {
            assert(text@.subrange(at as int, at + word.len())[i as int] != word@[i as int]);
            return false;
        }
        i = i + 1;
    }
    assert(text@.subrange(at as int, at + word.len()) =~= word@);
    true
}

/// Reads one of the three literals.
fn parse_word(text: &[u8], lex: &mut Lex, word: &[u8], value: Json, msg: &str) -> (r: Result<
    Json,
    Error,
>)
    requires
        ready(text@, old(lex)@),
    ensures
        agrees(r, word_spec(text@, old(lex)@, word@, value@, msg@).result),
        final(lex)@ == word_spec(text@, old(lex)@, word@, value@, msg@).pos,
        ready(text@, final(lex)@),
        reaches(old(lex)@, final(lex)@),
        r is Ok ==> final(lex).off == old(lex).off + word@.len(),
        r is Ok ==> r->Ok_0@ == value@,
{
    if holds(text, lex.off, word) {
        lex.incr_col(word.len());
        Ok(value)
    } else {
        Err(failure(lex, msg))
    }
}

/// Reads `null`. What follows the word is not looked at.
pub fn parse_null(text: &[u8], lex: &mut Lex) -> (r: Result<Json, Error>)
    requires
        ready(text@, old(lex)@),
    ensures
        agrees(r, word_spec(text@, old(lex)@, word_null(), Doc::Null, "expected null"@).result),
        final(lex)@ == word_spec(text@, old(lex)@, word_null(), Doc::Null, "expected null"@).pos,
        ready(text@, final(lex)@),
        reaches(old(lex)@, final(lex)@),
        r is Ok ==> final(lex).off == old(lex).off + 4,
        r is Ok ==> r->Ok_0@.wf(),
{
    let word: [u8; 4] = [0x6e, 0x75, 0x6c, 0x6c];
    assert(word@ =~= word_null());
    parse_word(text, lex, word.as_slice(), Json::Null, "expected null")
}

/// Reads `true`. What follows the word is not looked at.
pub fn parse_true(text: &[u8], lex: &mut Lex) -> (r: Result<Json, Error>)
    requires
        ready(text@, old(lex)@),
    ensures
        agrees(
            r,
            word_spec(text@, old(lex)@, word_true(), Doc::Bool(true), "expected true"@).result,
        ),
        final(lex)@ == word_spec(
            text@,
            old(lex)@,
            word_true(),
            Doc::Bool(true),
            "expected true"@,
        ).pos,
        ready(text@, final(lex)@),
        reaches(old(lex)@, final(lex)@),
        r is Ok ==> final(lex).off == old(lex).off + 4,
        r is Ok ==> r->Ok_0@.wf(),
{
    let word: [u8; 4] = [0x74, 0x72, 0x75, 0x65];
    assert(word@ =~= word_true());
    parse_word(text, lex, word.as_slice(), Json::Bool(true), "expected true")
}

/// Reads `false`. What follows the word is not looked at.
pub fn parse_false(text: &[u8], lex: &mut Lex) -> (r: Result<Json, Error>)
    requires
        ready(text@, old(lex)@),
    ensures
        agrees(
            r,
            word_spec(text@, old(lex)@, word_false(), Doc::Bool(false), "expected false"@).result,
        ),
        final(lex)@ == word_spec(
            text@,
            old(lex)@,
            word_false(),
            Doc::Bool(false),
            "expected false"@,
        ).pos,
        ready(text@, final(lex)@),
        reaches(old(lex)@, final(lex)@),
        r is Ok ==> final(lex).off == old(lex).off + 5,
        r is Ok ==> r->Ok_0@.wf(),
{
    let word: [u8; 5] = [0x66, 0x61, 0x6c, 0x73, 0x65];
    assert(word@ =~= word_false());
    parse_word(text, lex, word.as_slice(), Json::Bool(false), "expected false")
}

/// The first index at or after `i` that holds no digit.
pub fn scan_digits(s: &[u8], i: usize) -> (r: usize)
    requires
        i <= s.len(),
    ensures
        r == digits_end(s@, i as int),
        i <= r <= s.len(),
{
    let mut k: usize = i;
    while k < s.len() && byte_is_digit(s[k])
        invariant
            i <= k <= s.len(),
            digits_end(s@, i as int) == digits_end(s@, k as int),
        decreases s.len() - k,
    {
        k = k + 1;
    }
    k
}

/// Whether the bytes are in the grammar of a float.
pub fn float_syntax(s: &[u8]) -> (r: bool)
    ensures
        r == is_float_syntax(s@),
{
    let a: usize = if s.len() > 0 && byte_is_sign(s[0]) { 1 } else { 0 };
    let b: usize = scan_digits(s, a);
    let pointed: bool = b < s.len() && s[b] == POINT;
    let d: usize = if pointed { scan_digits(s, b + 1) } else { b };
    let digits: usize = if pointed { d - a - 1 } else { d - a };
    if digits < 1 {
        return false;
    }
    let scaled: bool = d < s.len() && (s[d] == LOWER_E || s[d] == UPPER_E);
    if !scaled {
        return d == s.len();
    }
    let f: usize = if d + 1 < s.len() && byte_is_sign(s[d + 1]) { d + 2 } else { d + 1 };
    let g: usize = scan_digits(s, f);
    g > f && g == s.len()
}

/// Reads a run of bytes as a 128-bit integer: an optional sign, then digits.
pub fn read_integer(s: &[u8]) -> (r: Result<i128, IntFault>)
    ensures
        match int_lexeme(s@) {
            Ok(v) => r == Ok::<i128, IntFault>(v as i128),
            Err(fault) => r == Err::<i128, IntFault>(fault),
        },
{
    if s.len() == 0 {
        return Err(IntFault::Empty);
    }
    let signed: bool = byte_is_sign(s[0]);
    if signed && s.len() == 1 {
        return Err(IntFault::InvalidDigit);
    }
    let negative: bool = s[0] == MINUS;
    let start: usize = if signed { 1 } else { 0 };
    let ghost body = if signed { s@.drop_first() } else { s@ };
    let mut acc: i128 = 0;
    let mut i: usize = start;
    while i < s.len()
        invariant
            start <= i <= s.len(),
            body.len() == s.len() - start,
            forall|k: int| 0 <= k < body.len() ==> body[k] == s@[k + start],
            negative ==> acc <= 0,
            !negative ==> acc >= 0,
            int_lexeme(s@) == int_scan(body, i - start, acc as int, negative),
        decreases s.len() - i,
    {
        let b: u8 = s[i];
        assert(body[i - start] == b);
        if !byte_is_digit(b) {
            return Err(IntFault::InvalidDigit);
        }
        let d: i128 = (b - 0x30) as i128;
        let next: Option<i128> = match acc.checked_mul(10) {
            Some(m) => if negative {
                m.checked_sub(d)
            } else {
                m.checked_add(d)
            },
            None => None,
        };
        match next {
            Some(n) => {
                acc = n;
            },
            None => {
                if negative {
                    return Err(IntFault::NegOverflow);
                } else {
                    return Err(IntFault::PosOverflow);
                }
            },
        }
        i = i + 1;
    }
    Ok(acc)
}

/// Reads a number: the longest run of number bytes under the tracker, which
/// moves over the run whether or not it is a number. A run with a point or
/// an exponent is a float and is kept as written.
pub fn parse_num(text: &[u8], lex: &mut Lex) -> (r: Result<Json, Error>)
    requires
        ready(text@, old(lex)@),
    ensures
        agrees(r, number_spec(text@, old(lex)@).result),
        final(lex)@ == number_spec(text@, old(lex)@).pos,
        ready(text@, final(lex)@),
        reaches(old(lex)@, final(lex)@),
        r is Ok ==> final(lex).off > old(lex).off,
        r is Ok ==> r->Ok_0@.wf(),
{
    let from: usize = lex.off;
    let mut end: usize = from;
    let mut marked: bool = false;
    assert(text@.subrange(from as int, from as int) =~= Seq::<u8>::empty());
    while end < text.len() && byte_is_number(text[end])
        invariant
            from <= end <= text.len(),
            number_end(text@, from as int) == number_end(text@, end as int),
            marked == has_float_mark(text@.subrange(from as int, end as int)),
        decreases text.len() - end,
    {
        proof {
            let before = text@.subrange(from as int, end as int);
            let now = text@.subrange(from as int, end + 1);
            assert(now[end - from] == text@[end as int]);
            if has_float_mark(before) {
                let k = choose|k: int| 0 <= k < before.len() && is_float_mark(before[k]);
                assert(now[k] == before[k]);
            }
            if has_float_mark(now) {
                let k = choose|k: int| 0 <= k < now.len() && is_float_mark(now[k]);
                if k < before.len() {
                    assert(now[k] == before[k]);
                }
            }
        }
        if byte_is_float_mark(text[end]) {
            marked = true;
        }
        end = end + 1;
    }
    let span: Vec<u8> = slice_to_vec(slice_subrange(text, from, end));
    lex.incr_col(end - from);
    proof {
        lemma_int_lexeme_fits(span@);
    }
    if marked {
        if float_syntax(span.as_slice()) {
            proof {
                lemma_float_syntax_bytes(span@);
            }
            Ok(Json::Float(ascii_string(span)))
        } else {
            Err(Error::ParseFloat(lex.format("invalid float")))
        }
    } else {
        match read_integer(span.as_slice()) {
            Ok(v) => {
                assert(end > from);
                Ok(Json::Integer(v))
            },
            Err(fault) => Err(Error::ParseInt(fault, lex.format("invalid integer"))),
        }
    }
}

/// A message that ends in a number.
pub fn numbered(prefix: &str, n: i128) -> (r: String)
    ensures
        r@ == prefix@ + decimal_text(n as int),
{
    let mut out: String = prefix.to_owned();
    out.append(decimal_string(n).as_str());
    out
}

/// A message that ends in what it cites.
pub fn cited(prefix: &str, what: &str) -> (r: String)
    ensures
        r@ == prefix@ + what@,
{
    let mut out: String = prefix.to_owned();
    out.append(what);
    out
}

/// Reads four hexadecimal digits from index `i` as one number, or says in a
/// message what stands in their place.
pub fn decode_json_hex_code(text: &[u8], i: usize) -> (r: Result<u32, String>)
    requires
        i <= text.len(),
    ensures
        match hex_run(text@, i as int, 0, 0) {
            Ok(code) => r is Ok && r->Ok_0 == code && i + 4 <= text.len(),
            Err(msg) => r is Err && r->Err_0@ == msg,
        },
{
    let mut n: usize = 0;
    let mut code: u32 = 0;
    while n < 4
        invariant
            n <= 4,
            i <= text.len(),
            n == 0 ==> code == 0,
            n == 1 ==> code < 0x10,
            n == 2 ==> code < 0x100,
            n == 3 ==> code < 0x1000,
            n == 4 ==> i + 4 <= text.len(),
            hex_run(text@, i as int, 0, 0) == hex_run(text@, i as int, n as int, code as int),
        decreases 4 - n,
    {
        if text.len() - i <= n {
            return Err(cited("incomplete string escape code ", hex_string(code).as_str()));
        }
        let b: u8 = text[i + n];
        match byte_hex_value(b) {
            None => {
                let found = char_debug(read_char(text, i + n));
                return Err(cited("invalid string escape code ", found.as_str()));
            },
            Some(v) => {
                code = code * 16 + v as u32;
                n = n + 1;
            },
        }
    }
    Ok(code)
}

/// Appends the UTF-8 encoding of a scalar.
pub fn push_scalar(out: &mut Vec<u8>, c: u32)
    requires
        is_scalar(c),
    ensures
        final(out)@ == old(out)@ + encode_scalar(c),
{
    if c < 0x80 {
        assert((c & 0x7F) < 0x100) by (bit_vector);
        out.push((c & 0x7F) as u8);
        assert(out@ =~= old(out)@ + encode_scalar(c));
    } else if c < 0x800 {
        assert(((c >> 6) & 0x1F) < 0x100 && (c & 0x3F) < 0x100) by (bit_vector);
        out.push(0xC0 | ((c >> 6) & 0x1F) as u8);
        out.push(0x80 | (c & 0x3F) as u8);
        assert(out@ =~= old(out)@ + encode_scalar(c));
    } else if c < 0x10000 {
        assert(((c >> 12) & 0x0F) < 0x100 && ((c >> 6) & 0x3F) < 0x100 && (c & 0x3F) < 0x100)
            by (bit_vector);
        out.push(0xE0 | ((c >> 12) & 0x0F) as u8);
        out.push(0x80 | ((c >> 6) & 0x3F) as u8);
        out.push(0x80 | (c & 0x3F) as u8);
        assert(out@ =~= old(out)@ + encode_scalar(c));
    } else {
        assert(((c >> 18) & 0x7) < 0x100 && ((c >> 12) & 0x3F) < 0x100 && ((c >> 6) & 0x3F)
            < 0x100 && (c & 0x3F) < 0x100) by (bit_vector);
        out.push(0xF0 | ((c >> 18) & 0x7) as u8);
        out.push(0x80 | ((c >> 12) & 0x3F) as u8);
        out.push(0x80 | ((c >> 6) & 0x3F) as u8);
        out.push(0x80 | (c & 0x3F) as u8);
        assert(out@ =~= old(out)@ + encode_scalar(c));
    }
}

/// The byte that a one-letter escape stands for.
pub fn escape_byte(e: u8) -> (r: Option<u8>)
    ensures
        r == simple_escape(e),
{
    if e == QUOTE || e == BACKSLASH || e == SLASH {
        Some(e)
    } else if e == LOWER_B {
        Some(0x08)
    } else if e == LOWER_F {
        Some(0x0c)
    } else if e == LOWER_N {
        Some(0x0a)
    } else if e == LOWER_R {
        Some(0x0d)
    } else if e == LOWER_T {
        Some(0x09)
    } else {
        None
    }
}

/// Reads the escape of a low surrogate behind a high one: `\u` at index `i`
/// and four hexadecimal digits behind it.
pub fn decode_json_hex_code2(text: &[u8], i: usize) -> (r: Result<u32, String>)
    requires
        i <= text.len(),
    ensures
        match second_escape(text@, i as int) {
            Ok(code) => r is Ok && r->Ok_0 == code && i + 6 <= text.len(),
            Err(msg) => r is Err && r->Err_0@ == msg,
        },
{
    if text.len() - i > 1 && text[i] == BACKSLASH && text[i + 1] == LOWER_U {
        decode_json_hex_code(text, i + 2)
    } else {
        Err("invalid string string escape type".to_owned())
    }
}

/// How reading a `\u` escape ended.
pub enum Escaped {
    /// The scalar, and the index behind the escape.
    Scalar(u32, usize),
    /// The message, and the number of bytes the tracker moves before it is written.
    Fail(String, usize),
}

impl Escaped {
    /// What was read is what the grammar gives.
    pub open spec fn agrees(self, e: Escape) -> bool {
        match e {
            Escape::Scalar(scalar, next) => self is Scalar && self->Scalar_0 == scalar
                && self->Scalar_1 == next,
            Escape::Fail(msg, moved) => self is Fail && self->Fail_0@ == msg && self->Fail_1
                == moved,
        }
    }
}

/// Reads the `\u` escape whose backslash stands at index `i`, in a string
/// literal whose opening quote stands at index `at`.
pub fn read_unicode_escape(text: &[u8], at: usize, i: usize) -> (r: Escaped)
    requires
        at < i,
        i + 1 < text.len(),
    ensures
        r.agrees(unicode_escape(text@, at as int, i as int)),
        r is Scalar ==> i < r->Scalar_1 <= text.len() && is_scalar(r->Scalar_0),
        r is Fail ==> at + r->Fail_1 <= text.len(),
{
    proof {
        lemma_unicode_escape(text@, at as int, i as int);
    }
    let first: u32 = match decode_json_hex_code(text, i + 2) {
        Ok(code) => code,
        Err(msg) => {
            return Escaped::Fail(msg, 0);
        },
    };
    if 0xDC00 <= first && first <= 0xDFFF {
        return Escaped::Fail(numbered("invalid string codepoint ", first as i128), i + 1 - at);
    }
    if !(0xD800 <= first && first <= 0xDBFF) {
        return Escaped::Scalar(first, i + 6);
    }
    let second: u32 = match decode_json_hex_code2(text, i + 6) {
        Ok(code) => code,
        Err(msg) => {
            return Escaped::Fail(msg, 0);
        },
    };
    if !(0xDC00 <= second && second <= 0xDFFF) {
        return Escaped::Fail(numbered("invalid string codepoint ", second as i128), i + 1 - at);
    }
    Escaped::Scalar(0x10000 + (first - 0xD800) * 0x400 + (second - 0xDC00), i + 12)
}

/// How the scan of a string literal ended.
pub enum Scanned {
    /// The decoded bytes, and the index behind the closing quote.
    Done(Vec<u8>, usize),
    /// The message, and the number of bytes the tracker moves before it is written.
    Fail(String, usize),
}

impl Scanned {
    /// What was scanned is what the grammar gives.
    pub open spec fn agrees(self, s: Scan) -> bool {
        match s {
            Scan::Done(bytes, end) => self is Done && self->Done_0@ == bytes && self->Done_1 == end,
            Scan::Fail(msg, moved) => self is Fail && self->Fail_0@ == msg && self->Fail_1
                == moved,
        }
    }
}

/// Scans and decodes the string literal whose opening quote stands at index `at`.
pub fn scan_string(text: &[u8], at: usize) -> (r: Scanned)
    requires
        at < text.len(),
    ensures
        r.agrees(string_body(text@, at as int, at + 1, Seq::empty())),
        r is Done ==> at + 2 <= r->Done_1 <= text.len(),
        r is Fail ==> at + r->Fail_1 <= text.len(),
{
    let mut acc: Vec<u8> = Vec::new();
    let mut i: usize = at + 1;
    loop
        invariant
            at < i <= text.len(),
            string_body(text@, at as int, at + 1, Seq::empty()) == string_body(
                text@,
                at as int,
                i as int,
                acc@,
            ),
        decreases text.len() - i,
    {
        if i >= text.len() {
            return Scanned::Fail("incomplete string".to_owned(), 0);
        }
        let b: u8 = text[i];
        if b == QUOTE {
            return Scanned::Done(acc, i + 1);
        }
        if b != BACKSLASH {
            acc.push(b);
            i = i + 1;
            continue ;
        }
        if text.len() - i <= 1 {
            return Scanned::Fail("incomplete string".to_owned(), 0);
        }
        let e: u8 = text[i + 1];
        match escape_byte(e) {
            Some(x) => {
                acc.push(x);
                i = i + 2;
                continue ;
            },
            None => {},
        }
        if e != LOWER_U {
            return Scanned::Fail("invalid string string escape type".to_owned(), i + 1 - at);
        }
        match read_unicode_escape(text, at, i) {
            Escaped::Fail(msg, moved) => {
                return Scanned::Fail(msg, moved);
            },
            Escaped::Scalar(scalar, next) => {
                push_scalar(&mut acc, scalar);
                i = next;
            },
        }
    }
}

/// Reads a string literal and decodes it. On success the tracker stands
/// behind the closing quote; a failure inside an escape may leave it on the
/// escape's letter.
pub fn parse_text(text: &[u8], lex: &mut Lex) -> (r: Result<String, Error>)
    requires
        ready(text@, old(lex)@),
    ensures
        agrees_text(r, string_spec(text@, old(lex)@).result),
        final(lex)@ == string_spec(text@, old(lex)@).pos,
        ready(text@, final(lex)@),
        reaches(old(lex)@, final(lex)@),
        r is Ok ==> final(lex).off >= old(lex).off + 2,
{
    reveal(string_spec);
    if lex.off >= text.len() {
        return Err(failure(lex, "unexpected eof"));
    }
    if text[lex.off] != QUOTE {
        return Err(failure(lex, "not a string"));
    }
    match scan_string(text, lex.off) {
        Scanned::Done(bytes, end) => {
            match string_from_utf8(bytes) {
                Some(s) => {
                    lex.incr_col(end - lex.off);
                    Ok(s)
                },
                None => Err(failure(lex, "invalid utf-8 in string")),
            }
        },
        Scanned::Fail(msg, moved) => {
            lex.incr_col(moved);
            Err(failure(lex, msg.as_str()))
        },
    }
}

/// Reads a string literal as a value.
pub fn parse_string(text: &[u8], lex: &mut Lex) -> (r: Result<Json, Error>)
    requires
        ready(text@, old(lex)@),
    ensures
        match string_spec(text@, old(lex)@).result {
            Ok(bytes) => r is Ok && r->Ok_0@ == Doc::Text(bytes),
            Err(f) => r is Err && r->Err_0@ == f,
        },
        final(lex)@ == string_spec(text@, old(lex)@).pos,
        ready(text@, final(lex)@),
        reaches(old(lex)@, final(lex)@),
        r is Ok ==> final(lex).off >= old(lex).off + 2,
        r is Ok ==> r->Ok_0@.wf(),
{
    proof {
        encode_utf8_valid_utf8(Seq::empty());
    }
    match parse_text(text, lex) {
        Ok(s) => {
            proof {
                encode_utf8_valid_utf8(s@);
            }
            Ok(Json::String(s))
        },
        Err(e) => Err(e),
    }
}

} // verus!
