//! Byte classes of the JSON grammar and decimal notation for integers.

use vstd::prelude::*;

verus! {

// The bytes that the grammar names.
pub const TAB: u8 = 0x09;

pub const LINE_FEED: u8 = 0x0a;

pub const RETURN: u8 = 0x0d;

pub const SPACE: u8 = 0x20;

pub const QUOTE: u8 = 0x22;

pub const PLUS: u8 = 0x2b;

pub const COMMA: u8 = 0x2c;

pub const MINUS: u8 = 0x2d;

pub const POINT: u8 = 0x2e;

pub const SLASH: u8 = 0x2f;

pub const ZERO: u8 = 0x30;

pub const COLON: u8 = 0x3a;

pub const UPPER_E: u8 = 0x45;

pub const OPEN_BRACKET: u8 = 0x5b;

pub const BACKSLASH: u8 = 0x5c;

pub const CLOSE_BRACKET: u8 = 0x5d;

pub const LOWER_B: u8 = 0x62;

pub const LOWER_E: u8 = 0x65;

pub const LOWER_F: u8 = 0x66;

pub const LOWER_N: u8 = 0x6e;

pub const LOWER_R: u8 = 0x72;

pub const LOWER_T: u8 = 0x74;

pub const LOWER_U: u8 = 0x75;

pub const OPEN_BRACE: u8 = 0x7b;

pub const CLOSE_BRACE: u8 = 0x7d;

/// Space, tab and carriage return: whitespace that stays on the line.
pub open spec fn is_blank(b: u8) -> bool {
    b == SPACE || b == TAB || b == RETURN
}

/// Any whitespace byte of the grammar, the line feed included.
pub open spec fn is_space(b: u8) -> bool {
    is_blank(b) || b == LINE_FEED
}

/// A decimal digit.
pub open spec fn is_digit(b: u8) -> bool {
    0x30 <= b <= 0x39
}

/// A plus or a minus sign.
pub open spec fn is_sign(b: u8) -> bool {
    b == PLUS || b == MINUS
}

/// `.`, `e` and `E`: the bytes that make a number a float.
pub open spec fn is_float_mark(b: u8) -> bool {
    b == POINT || b == LOWER_E || b == UPPER_E
}

/// The bytes a number may be written with: digits, signs and float marks.
pub open spec fn is_number_byte(b: u8) -> bool {
    is_digit(b) || is_sign(b) || is_float_mark(b)
}

/// The value of a hexadecimal digit, or `None` for any other byte.
pub open spec fn hex_value(b: u8) -> Option<int> {
    if 0x30 <= b <= 0x39 {
        Some(b - 0x30)
    } else if 0x61 <= b <= 0x66 {
        Some(b - 0x61 + 10)
    } else if 0x41 <= b <= 0x46 {
        Some(b - 0x41 + 10)
    } else {
        None
    }
}

/// The lower-case hexadecimal digit for a value below sixteen.
pub open spec fn hex_digit(v: int) -> u8
    recommends
        0 <= v < 16,
{
    if v < 10 {
        (0x30 + v) as u8
    } else {
        (0x61 + v - 10) as u8
    }
}

/// Every byte of the run is a decimal digit.
pub open spec fn all_digits(s: Seq<u8>) -> bool {
    forall|i: int| 0 <= i < s.len() ==> is_digit(#[trigger] s[i])
}

/// The decimal digits of `n`, most significant first; `0` is written `0`.
pub open spec fn decimal(n: nat) -> Seq<u8>
    decreases n,
{
    if n < 10 {
        seq![(0x30 + n) as u8]
    } else {
        decimal(n / 10).push((0x30 + n % 10) as u8)
    }
}

/// The hexadecimal digits of `n`, lower case and most significant first; `0`
/// is written `0`.
pub open spec fn hexadecimal(n: nat) -> Seq<u8>
    decreases n,
{
    if n < 16 {
        seq![hex_digit(n as int)]
    } else {
        hexadecimal(n / 16).push(hex_digit((n % 16) as int))
    }
}

/// The number that a run of decimal digits denotes; the empty run denotes zero.
pub open spec fn digits_value(s: Seq<u8>) -> nat
    decreases s.len(),
{
    if s.len() == 0 {
        0
    } else {
        (digits_value(s.drop_last()) * 10 + (s.last() - 0x30)) as nat
    }
}

/// The decimal notation of a signed integer: a minus sign for negatives, no plus sign.
pub open spec fn signed_decimal(v: int) -> Seq<u8> {
    if v < 0 {
        seq![MINUS] + decimal((-v) as nat)
    } else {
        decimal(v as nat)
    }
}

/// The decimal digits of a number are digits, one at least, with no zero
/// before them, and denote the number.
pub proof fn lemma_decimal_digits(n: nat)
    ensures
        decimal(n).len() >= 1,
        all_digits(decimal(n)),
        digits_value(decimal(n)) == n,
        n > 0 ==> decimal(n)[0] != 0x30,
    decreases n,
{
    if n < 10 {
        assert(decimal(n).drop_last() =~= Seq::<u8>::empty());
        reveal_with_fuel(digits_value, 2);
    } else {
        lemma_decimal_digits(n / 10);
        let d = decimal(n / 10);
        assert(decimal(n).drop_last() =~= d);
    }
}

/// The hexadecimal digits of a number are ASCII bytes, one at least.
pub proof fn lemma_hexadecimal_ascii(n: nat)
    ensures
        hexadecimal(n).len() >= 1,
        forall|i: int| 0 <= i < hexadecimal(n).len() ==> hexadecimal(n)[i] < 0x80,
    decreases n,
{
    if n >= 16 {
        lemma_hexadecimal_ascii(n / 16);
    }
}

/// Whether a byte is whitespace.
pub fn byte_is_space(b: u8) -> (r: bool)
    ensures
        r == is_space(b),
{
    b == SPACE || b == TAB || b == RETURN || b == LINE_FEED
}

/// Whether a byte is a decimal digit.
pub fn byte_is_digit(b: u8) -> (r: bool)
    ensures
        r == is_digit(b),
{
    0x30 <= b && b <= 0x39
}

/// Whether a byte makes a number a float.
pub fn byte_is_float_mark(b: u8) -> (r: bool)
    ensures
        r == is_float_mark(b),
{
    b == POINT || b == LOWER_E || b == UPPER_E
}

/// Whether a byte is a plus or a minus sign.
pub fn byte_is_sign(b: u8) -> (r: bool)
    ensures
        r == is_sign(b),
{
    b == PLUS || b == MINUS
}

/// Whether a number may be written with a byte.
pub fn byte_is_number(b: u8) -> (r: bool)
    ensures
        r == is_number_byte(b),
{
    byte_is_digit(b) || byte_is_sign(b) || byte_is_float_mark(b)
}

/// The value of a hexadecimal digit.
pub fn byte_hex_value(b: u8) -> (r: Option<u8>)
    ensures
        r is Some <==> hex_value(b) is Some,
        r is Some ==> r.unwrap() == hex_value(b).unwrap() && r.unwrap() < 16,
{
    if 0x30 <= b && b <= 0x39 {
        Some(b - 0x30)
    } else if 0x61 <= b && b <= 0x66 {
        Some(b - 0x61 + 10)
    } else if 0x41 <= b && b <= 0x46 {
        Some(b - 0x41 + 10)
    } else {
        None
    }
}

/// Appends the decimal digits of `n` to `out`.
pub fn push_decimal(out: &mut Vec<u8>, n: u128)
    ensures
        final(out)@ == old(out)@ + decimal(n as nat),
{
    let mut rev: Vec<u8> = Vec::new();
    let mut m: u128 = n;
    rev.push(0x30 + (m % 10) as u8);
    m = m / 10;
    while m > 0
        invariant
            rev.len() >= 1,
            decimal(n as nat) == if m > 0 {
                decimal(m as nat) + rev@.reverse()
            } else {
                rev@.reverse()
            },
        decreases m,
    {
        let ghost before = rev@;
        rev.push(0x30 + (m % 10) as u8);
        proof {
            let d = (0x30 + m % 10) as u8;
            assert(rev@.reverse() =~= seq![d] + before.reverse());
            if m >= 10 {
                assert(decimal(m as nat) =~= decimal((m / 10) as nat).push(d));
                assert(decimal((m / 10) as nat).push(d) + before.reverse() =~= decimal(
                    (m / 10) as nat,
                ) + (seq![d] + before.reverse()));
            } else {
                assert(decimal(m as nat) =~= seq![d]);
            }
        }
        m = m / 10;
    }
    let ghost start = out@;
    let mut i: usize = rev.len();
    while i > 0
        invariant
            i <= rev.len(),
            out@ == start + rev@.reverse().subrange(0, rev.len() - i),
        decreases i,
    {
        i = i - 1;
        out.push(rev[i]);
        proof {
            let r = rev@.reverse();
            let k = rev.len() - i - 1;
            assert(r[k] == rev@[i as int]);
            assert(r.subrange(0, k + 1) =~= r.subrange(0, k).push(r[k]));
            assert(start + r.subrange(0, k).push(r[k]) =~= (start + r.subrange(0, k)).push(r[k]));
        }
    }
    proof {
        let r = rev@.reverse();
        assert(r.subrange(0, rev.len() as int) =~= r);
    }
}

/// The lower-case hexadecimal digit for a value below sixteen.
pub fn hex_digit_of(v: u8) -> (r: u8)
    requires
        v < 16,
    ensures
        r == hex_digit(v as int),
{
    if v < 10 {
        0x30 + v
    } else {
        0x61 + v - 10
    }
}

/// Appends the hexadecimal digits of `n` to `out`.
pub fn push_hexadecimal(out: &mut Vec<u8>, n: u128)
    ensures
        final(out)@ == old(out)@ + hexadecimal(n as nat),
{
    let mut rev: Vec<u8> = Vec::new();
    let mut m: u128 = n;
    rev.push(hex_digit_of((m % 16) as u8));
    m = m / 16;
    while m > 0
        invariant
            rev.len() >= 1,
            hexadecimal(n as nat) == if m > 0 {
                hexadecimal(m as nat) + rev@.reverse()
            } else {
                rev@.reverse()
            },
        decreases m,
    {
        let ghost before = rev@;
        rev.push(hex_digit_of((m % 16) as u8));
        proof {
            let d = hex_digit((m % 16) as int);
            assert(rev@.reverse() =~= seq![d] + before.reverse());
            if m >= 16 {
                assert(hexadecimal(m as nat) =~= hexadecimal((m / 16) as nat).push(d));
                assert(hexadecimal((m / 16) as nat).push(d) + before.reverse() =~= hexadecimal(
                    (m / 16) as nat,
                ) + (seq![d] + before.reverse()));
            } else {
                assert(hexadecimal(m as nat) =~= seq![d]);
            }
        }
        m = m / 16;
    }
    let ghost start = out@;
    let mut i: usize = rev.len();
    while i > 0
        invariant
            i <= rev.len(),
            out@ == start + rev@.reverse().subrange(0, rev.len() - i),
        decreases i,
    {
        i = i - 1;
        out.push(rev[i]);
        proof {
            let r = rev@.reverse();
            let k = rev.len() - i - 1;
            assert(r[k] == rev@[i as int]);
            assert(r.subrange(0, k + 1) =~= r.subrange(0, k).push(r[k]));
            assert(start + r.subrange(0, k).push(r[k]) =~= (start + r.subrange(0, k)).push(r[k]));
        }
    }
    proof {
        let r = rev@.reverse();
        assert(r.subrange(0, rev.len() as int) =~= r);
    }
}

/// Appends the decimal notation of a signed integer to `out`.
pub fn push_signed_decimal(out: &mut Vec<u8>, v: i128)
    ensures
        final(out)@ == old(out)@ + signed_decimal(v as int),
{
    if v < 0 {
        out.push(MINUS);
        let magnitude: u128 = ((-(v + 1)) as u128) + 1;
        let ghost mid = out@;
        push_decimal(out, magnitude);
        assert(mid + decimal(magnitude as nat) =~= old(out)@ + (seq![MINUS] + decimal(
            (-v) as nat,
        )));
    } else {
        push_decimal(out, v as u128);
    }
}

} // verus!
