//! Text held as UTF-8: the bytes of a string, and strings made from bytes.

use vstd::prelude::*;
use vstd::slice::{slice_subrange, slice_to_vec};
use vstd::string::*;
use vstd::utf8::*;

verus! {

/// The UTF-8 bytes of a string: what the string is, in every contract of this crate.
pub open spec fn bytes_of(chars: Seq<char>) -> Seq<u8> {
    encode_utf8(chars)
}

/// The characters that a run of ASCII bytes spells.
pub open spec fn ascii_chars(s: Seq<u8>) -> Seq<char> {
    Seq::new(s.len(), |i: int| s[i] as char)
}

/// Two runs of characters with the same UTF-8 bytes are the same run.
pub proof fn lemma_bytes_tell_chars(a: Seq<char>, b: Seq<char>)
    requires
        encode_utf8(a) == encode_utf8(b),
    ensures
        a == b,
{
    encode_utf8_decode_utf8(a);
    encode_utf8_decode_utf8(b);
}

/// The bytes of two runs of characters, one behind the other, are the bytes
/// of the one behind the bytes of the other.
pub proof fn lemma_bytes_add(a: Seq<char>, b: Seq<char>)
    ensures
        bytes_of(a + b) == bytes_of(a) + bytes_of(b),
    decreases a.len(),
{
    if a.len() == 0 {
        assert(a + b =~= b);
        assert(bytes_of(a) + bytes_of(b) =~= bytes_of(b));
    } else {
        assert((a + b).drop_first() =~= a.drop_first() + b);
        lemma_bytes_add(a.drop_first(), b);
        assert(bytes_of(a + b) =~= bytes_of(a) + bytes_of(b));
    }
}

/// ASCII bytes are valid UTF-8, and encode the characters with their own numbers.
pub proof fn lemma_ascii_text(s: Seq<u8>)
    requires
        forall|i: int| 0 <= i < s.len() ==> s[i] < 0x80,
    ensures
        valid_utf8(s),
        encode_utf8(ascii_chars(s)) == s,
{
    let cs = ascii_chars(s);
    assert(is_ascii_chars(cs));
    is_ascii_chars_encode_utf8(cs);
    assert(encode_utf8(cs) =~= s);
    encode_utf8_valid_utf8(cs);
}

/// `String::from_utf8`: the string whose UTF-8 encoding is `bytes`, which exists
/// exactly when the bytes are well-formed UTF-8.
#[verifier::external_body]
pub(crate) fn string_from_utf8(bytes: Vec<u8>) -> (r: Option<String>)
    ensures
        r is Some <==> valid_utf8(bytes@),
        r is Some ==> encode_utf8(r.unwrap()@) == bytes@,
{
    String::from_utf8(bytes).ok()
}

/// How many bytes the character takes that a byte starts.
pub open spec fn width_of(lead: u8) -> int {
    if is_leading_byte_width_2(lead) {
        2
    } else if is_leading_byte_width_3(lead) {
        3
    } else if is_leading_byte_width_4(lead) {
        4
    } else {
        1
    }
}

/// The bytes of the character that starts at index `i`, as far as the text goes.
pub open spec fn bytes_at(text: Seq<u8>, i: int) -> Seq<u8> {
    let end = if i + width_of(text[i]) <= text.len() {
        i + width_of(text[i])
    } else {
        text.len() as int
    };
    text.subrange(i, end)
}

/// The character that starts at index `i` of a text, or the replacement
/// character where the bytes there are no character.
pub open spec fn char_at(text: Seq<u8>, i: int) -> char {
    if valid_utf8(bytes_at(text, i)) {
        decode_utf8(bytes_at(text, i))[0]
    } else {
        '\u{FFFD}'
    }
}

/// The character that starts at index `i` of a text, or the replacement
/// character where the bytes there are no character.
pub fn read_char(text: &[u8], i: usize) -> (c: char)
    requires
        i < text.len(),
    ensures
        c == char_at(text@, i as int),
{
    let lead: u8 = text[i];
    let width: usize = if 0xc0 <= lead && lead <= 0xdf {
        2
    } else if 0xe0 <= lead && lead <= 0xef {
        3
    } else if 0xf0 <= lead && lead <= 0xf7 {
        4
    } else {
        1
    };
    let end: usize = if text.len() - i >= width { i + width } else { text.len() };
    let chunk: Vec<u8> = slice_to_vec(slice_subrange(text, i, end));
    assert(chunk@ == bytes_at(text@, i as int));
    match string_from_utf8(chunk) {
        Some(s) => {
            proof {
                encode_utf8_decode_utf8(s@);
                assert(s@.len() > 0) by {
                    if s@.len() == 0 {
                        assert(encode_utf8(s@) =~= Seq::<u8>::empty());
                    }
                }
            }
            s.as_str().get_char(0)
        },
        None => '\u{FFFD}',
    }
}

/// The string that a run of ASCII bytes spells.
pub fn ascii_string(bytes: Vec<u8>) -> (r: String)
    requires
        forall|i: int| 0 <= i < bytes.len() ==> bytes[i] < 0x80,
    ensures
        r@ == ascii_chars(bytes@),
        encode_utf8(r@) == bytes@,
{
    proof {
        lemma_ascii_text(bytes@);
    }
    let ghost chars = ascii_chars(bytes@);
    let made = string_from_utf8(bytes);
    match made {
        Some(s) => {
            proof {
                lemma_bytes_tell_chars(s@, chars);
            }
            s
        },
        None => String::new(),
    }
}

} // verus!
