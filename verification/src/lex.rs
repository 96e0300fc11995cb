//! The position tracker: a byte offset with the row and column it falls on.

use vstd::prelude::*;
use vstd::string::*;
use crate::ascii::{
    hexadecimal, lemma_decimal_digits, lemma_hexadecimal_ascii, push_hexadecimal,
    push_signed_decimal, signed_decimal,
};
use crate::utf8::{ascii_chars, ascii_string, bytes_of};

verus! {

/// Where the parser stands in its text: a byte offset, a row and a column.
/// Rows and columns are counted from one by convention; a line feed starts a
/// new row at column zero.
#[derive(Debug, Clone, Copy, PartialEq, Eq)]
pub struct Lex {
    pub off: usize,
    pub row: usize,
    pub col: usize,
}

/// A position as unbounded numbers.
pub ghost struct Pos {
    pub off: int,
    pub row: int,
    pub col: int,
}

impl Pos {
    /// The position `n` bytes further on the same row.
    pub open spec fn advance(self, n: int) -> Pos {
        Pos { off: self.off + n, row: self.row, col: self.col + n }
    }

    /// The position after one whitespace byte `b`.
    pub open spec fn after_space(self, b: u8) -> Pos {
        if b == 0x0a {
            Pos { off: self.off + 1, row: self.row + 1, col: 0 }
        } else {
            Pos { off: self.off + 1, row: self.row, col: self.col + 1 }
        }
    }

    /// The position fits a tracker that may still move over `room` bytes.
    pub open spec fn fits(self, room: int) -> bool {
        &&& 0 <= self.off
        &&& 0 <= self.row
        &&& 0 <= self.col
        &&& self.off + room <= usize::MAX
        &&& self.row + room <= usize::MAX
        &&& self.col + room <= usize::MAX
    }
}

/// Where the parse of a whole text starts: offset zero, row one, column one.
pub open spec fn start() -> Pos {
    Pos { off: 0, row: 1, col: 1 }
}

impl View for Lex {
    type V = Pos;

    open spec fn view(&self) -> Pos {
        Pos { off: self.off as int, row: self.row as int, col: self.col as int }
    }
}

/// A number in decimal, as characters.
#[verifier::opaque]
pub open spec fn decimal_text(n: int) -> Seq<char> {
    ascii_chars(signed_decimal(n))
}

/// A number in hexadecimal, lower case, as characters.
#[verifier::opaque]
pub open spec fn hex_text(n: int) -> Seq<char> {
    ascii_chars(hexadecimal(n as nat))
}

/// A character as `Debug` of the standard library writes it: between single
/// quotes, with an escape where it is not printable.
pub uninterp spec fn debug_form(c: char) -> Seq<char>;

/// A message followed by the position it is about.
#[verifier::opaque]
pub open spec fn annotate(msg: Seq<char>, pos: Pos) -> Seq<char> {
    msg + " at offset:"@ + decimal_text(pos.off) + " line:"@ + decimal_text(pos.row) + " col:"@
        + decimal_text(pos.col)
}

/// The decimal notation of `n` as a string.
pub fn decimal_string(n: i128) -> (r: String)
    ensures
        r@ == decimal_text(n as int),
        bytes_of(r@) == signed_decimal(n as int),
{
    reveal(decimal_text);
    let mut out: Vec<u8> = Vec::new();
    push_signed_decimal(&mut out, n);
    proof {
        assert(out@ =~= signed_decimal(n as int));
        if n < 0 {
            lemma_decimal_digits((-n) as nat);
        } else {
            lemma_decimal_digits(n as nat);
        }
    }
    ascii_string(out)
}

/// The hexadecimal notation of `n` as a string.
pub fn hex_string(n: u32) -> (r: String)
    ensures
        r@ == hex_text(n as int),
{
    reveal(hex_text);
    let mut out: Vec<u8> = Vec::new();
    push_hexadecimal(&mut out, n as u128);
    proof {
        assert(out@ =~= hexadecimal(n as nat));
        lemma_hexadecimal_ascii(n as nat);
    }
    ascii_string(out)
}

/// `Debug` for `char`: the character as the standard library writes it for
/// a reader, which depends on the character alone.
#[verifier::external_body]
pub(crate) fn char_debug(c: char) -> (r: String)
    ensures
        r@ == debug_form(c),
{
    format!("{:?}", c)
}

impl Lex {
    /// A tracker at the given position.
    pub fn new(off: usize, row: usize, col: usize) -> (r: Lex)
        ensures
            r == (Lex { off, row, col }),
    {
        Lex { off, row, col }
    }

    /// Moves the tracker to the given position.
    pub fn set(&mut self, off: usize, row: usize, col: usize)
        ensures
            *final(self) == (Lex { off, row, col }),
    {
        self.off = off;
        self.row = row;
        self.col = col;
    }

    /// Moves over `n` bytes that hold no line feed.
    pub fn incr_col(&mut self, n: usize)
        requires
            old(self).off + n <= usize::MAX,
            old(self).col + n <= usize::MAX,
        ensures
            final(self)@ == old(self)@.advance(n as int),
    {
        self.off = self.off + n;
        self.col = self.col + n;
    }

    /// Renders `msg` with this position behind it.
    pub fn format(&self, msg: &str) -> (r: String)
        ensures
            r@ == annotate(msg@, self@),
    {
        reveal(annotate);
        let mut out: String = msg.to_owned();
        out.append(" at offset:");
        out.append(decimal_string(self.off as i128).as_str());
        out.append(" line:");
        out.append(decimal_string(self.row as i128).as_str());
        out.append(" col:");
        out.append(decimal_string(self.col as i128).as_str());
        out
    }
}

} // verus!
