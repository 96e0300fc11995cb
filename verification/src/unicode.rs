//! String literals in UTF-8 text: what is decoded from them is UTF-8 text.

use vstd::prelude::*;
use vstd::utf8::*;
use crate::ascii::{hex_value, BACKSLASH, LOWER_U, QUOTE};
use crate::grammar::{
    hex_run, is_high_surrogate, left, lemma_hex_run, second_escape, simple_escape, string_body,
    unicode_escape, Escape, Scan,
};
use crate::utf8::lemma_ascii_text;

verus! {

/// In UTF-8 text a character starts where one ends: behind the character
/// that starts at a boundary lies a boundary.
pub proof fn lemma_boundary_step(text: Seq<u8>, i: int)
    requires
        valid_utf8(text),
        0 <= i < text.len(),
        is_char_boundary(text, i),
    ensures
        valid_first_scalar(text.subrange(i, text.len() as int)),
        valid_utf8(take_first_scalar(text.subrange(i, text.len() as int))),
        i + length_of_first_scalar(text.subrange(i, text.len() as int)) <= text.len(),
        is_char_boundary(text, i + length_of_first_scalar(text.subrange(i, text.len() as int))),
{
    let tail = text.subrange(i, text.len() as int);
    valid_utf8_split(text, i);
    let w = length_of_first_scalar(tail);
    let rest = pop_first_scalar(tail);
    assert(tail.len() > 0);
    assert(valid_first_scalar(tail) && valid_utf8(rest));
    assert(w <= tail.len());
    assert(rest =~= text.subrange(i + w, text.len() as int));
    assert(valid_utf8(take_first_scalar(tail))) by {
        reveal_with_fuel(valid_utf8, 2);
        assert(pop_first_scalar(take_first_scalar(tail)) =~= Seq::<u8>::empty());
    }
    if i + w == text.len() {
        is_char_boundary_start_end_of_seq(text);
    } else {
        assert(rest.len() > 0);
        assert(valid_first_scalar(rest));
        assert(rest[0] == text[i + w]);
        is_char_boundary_iff_not_is_continuation_byte(text, i + w);
    }
}

/// In UTF-8 text a boundary lies behind an ASCII byte that starts at one.
pub proof fn lemma_boundary_ascii(text: Seq<u8>, i: int)
    requires
        valid_utf8(text),
        0 <= i < text.len(),
        is_char_boundary(text, i),
        text[i] < 0x80,
    ensures
        is_char_boundary(text, i + 1),
{
    lemma_boundary_step(text, i);
    assert(text.subrange(i, text.len() as int)[0] == text[i]);
}

/// A hexadecimal digit is an ASCII byte.
pub proof fn lemma_hex_ascii(b: u8)
    requires
        hex_value(b) is Some,
    ensures
        b < 0x80,
{
}

/// Where four hexadecimal digits are read in UTF-8 text from a boundary on,
/// a boundary lies behind them.
pub proof fn lemma_boundary_hex(text: Seq<u8>, i: int)
    requires
        valid_utf8(text),
        0 <= i,
        is_char_boundary(text, i),
        hex_run(text, i, 0, 0) is Ok,
    ensures
        i + 4 <= text.len(),
        is_char_boundary(text, i + 4),
{
    lemma_hex_run(text, i);
    reveal_with_fuel(hex_run, 5);
    lemma_hex_ascii(text[i]);
    lemma_boundary_ascii(text, i);
    lemma_hex_ascii(text[i + 1]);
    lemma_boundary_ascii(text, i + 1);
    lemma_hex_ascii(text[i + 2]);
    lemma_boundary_ascii(text, i + 2);
    lemma_hex_ascii(text[i + 3]);
    lemma_boundary_ascii(text, i + 3);
}

/// The encoding of a scalar is UTF-8 text.
pub proof fn lemma_scalar_valid(c: u32)
    requires
        is_scalar(c),
    ensures
        valid_utf8(encode_scalar(c)),
{
    let ch = c as char;
    let one = seq![ch];
    assert(ch as u32 == c);
    encode_utf8_valid_utf8(one);
    assert(encode_utf8(one) =~= encode_scalar(c)) by {
        reveal_with_fuel(encode_utf8, 2);
        assert(one.drop_first() =~= Seq::<char>::empty());
    }
}

/// A `\u` escape in UTF-8 text, read from a boundary, stands for a scalar
/// and ends at a boundary.
pub proof fn lemma_escape_boundary(text: Seq<u8>, at: int, i: int)
    requires
        valid_utf8(text),
        0 <= at < i,
        i + 1 < text.len(),
        is_char_boundary(text, i),
        text[i] == BACKSLASH,
        text[i + 1] == LOWER_U,
    ensures
        match unicode_escape(text, at, i) {
            Escape::Scalar(scalar, next) => i < next <= text.len() && is_char_boundary(text, next)
                && 0 <= scalar <= 0x10FFFF && is_scalar(scalar as u32),
            Escape::Fail(_, _) => true,
        },
{
    lemma_boundary_ascii(text, i);
    lemma_boundary_ascii(text, i + 1);
    lemma_hex_run(text, i + 2);
    if hex_run(text, i + 2, 0, 0) is Ok {
        lemma_boundary_hex(text, i + 2);
        let first = hex_run(text, i + 2, 0, 0)->Ok_0;
        if is_high_surrogate(first) && second_escape(text, i + 6) is Ok {
            lemma_boundary_ascii(text, i + 6);
            lemma_boundary_ascii(text, i + 7);
            lemma_hex_run(text, i + 8);
            lemma_boundary_hex(text, i + 8);
        }
    }
}

/// What the scan of a string literal in UTF-8 text decodes, from a boundary
/// on and behind UTF-8 text, is UTF-8 text.
pub proof fn lemma_scan_valid(text: Seq<u8>, at: int, i: int, acc: Seq<u8>)
    requires
        valid_utf8(text),
        valid_utf8(acc),
        0 <= at < i <= text.len(),
        is_char_boundary(text, i),
    ensures
        string_body(text, at, i, acc) matches Scan::Done(bytes, _) ==> valid_utf8(bytes),
    decreases left(text, i),
{
    if i < text.len() {
        let b = text[i];
        lemma_boundary_step(text, i);
        let tail = text.subrange(i, text.len() as int);
        let w = length_of_first_scalar(tail);
        assert(tail[0] == b);
        if b == QUOTE {
        } else if b == BACKSLASH {
            lemma_boundary_ascii(text, i);
            if i + 1 >= text.len() {
            } else if simple_escape(text[i + 1]) is Some {
                lemma_boundary_ascii(text, i + 1);
                let x = simple_escape(text[i + 1]).unwrap();
                lemma_ascii_text(seq![x]);
                valid_utf8_concat(acc, seq![x]);
                assert(acc.push(x) =~= acc + seq![x]);
                lemma_scan_valid(text, at, i + 2, acc.push(x));
            } else if text[i + 1] != LOWER_U {
            } else {
                lemma_escape_boundary(text, at, i);
                match unicode_escape(text, at, i) {
                    Escape::Fail(msg, moved) => {},
                    Escape::Scalar(scalar, next) => {
                        lemma_scalar_valid(scalar as u32);
                        valid_utf8_concat(acc, encode_scalar(scalar as u32));
                        lemma_scan_valid(text, at, next, acc + encode_scalar(scalar as u32));
                    },
                }
            }
        } else {
            let chunk = take_first_scalar(tail);
            valid_utf8_concat(acc, chunk);
            assert(string_body(text, at, i, acc) == string_body(text, at, i + w, acc + chunk)) by {
                reveal_with_fuel(string_body, 5);
                assert(forall|k: int| 0 <= k < w ==> tail[k] == text[i + k]);
                if w == 1 {
                    assert(acc + chunk =~= acc.push(text[i]));
                } else if w == 2 {
                    assert(acc + chunk =~= acc.push(text[i]).push(text[i + 1]));
                } else if w == 3 {
                    assert(acc + chunk =~= acc.push(text[i]).push(text[i + 1]).push(text[i + 2]));
                } else {
                    assert(acc + chunk =~= acc.push(text[i]).push(text[i + 1]).push(
                        text[i + 2],
                    ).push(text[i + 3]));
                }
            }
            lemma_scan_valid(text, at, i + w, acc + chunk);
        }
    }
}

} // verus!
