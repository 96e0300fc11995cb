//! What can go wrong: the failures of parsing and of looking things up.

use vstd::prelude::*;
use vstd::string::*;
use crate::lex::{decimal_string, decimal_text};

verus! {

/// Why a run of digits and signs is not a 128-bit integer.
#[derive(Debug, Clone, Copy, PartialEq, Eq, Structural)]
pub enum IntFault {
    /// Nothing is there to read.
    Empty,
    /// A byte is no digit, or a sign stands alone.
    InvalidDigit,
    /// The number is above the largest 128-bit integer.
    PosOverflow,
    /// The number is below the smallest 128-bit integer.
    NegOverflow,
}

/// A failure of the engine.
#[derive(Debug, PartialEq, Eq)]
pub enum Error {
    /// The text is not a document; the message names the place.
    Parse(String),
    /// A number written as a float is not in the grammar of floats.
    ParseFloat(String),
    /// A number written as an integer is malformed or out of range.
    ParseInt(IntFault, String),
    /// A value was asked for as a native type that it is not.
    NotMyType(String),
    /// No member has the key; the number is where the key would go.
    KeyMissing(usize, String),
    /// A range lies outside the value it was taken from.
    IndexUnbound(isize, isize),
}

/// An error with its messages as runs of characters.
pub ghost enum Failure {
    Parse(Seq<char>),
    ParseFloat(Seq<char>),
    ParseInt(IntFault, Seq<char>),
    NotMyType(Seq<char>),
    KeyMissing(int, Seq<char>),
    IndexUnbound(int, int),
}

impl View for Error {
    type V = Failure;

    open spec fn view(&self) -> Failure {
        match self {
            Error::Parse(m) => Failure::Parse(m@),
            Error::ParseFloat(m) => Failure::ParseFloat(m@),
            Error::ParseInt(fault, m) => Failure::ParseInt(*fault, m@),
            Error::NotMyType(m) => Failure::NotMyType(m@),
            Error::KeyMissing(at, key) => Failure::KeyMissing(*at as int, key@),
            Error::IndexUnbound(from, to) => Failure::IndexUnbound(*from as int, *to as int),
        }
    }
}

impl Clone for Error {
    fn clone(&self) -> (r: Error)
        ensures
            r@ == self@,
    {
        match self {
            Error::Parse(m) => Error::Parse(m.clone()),
            Error::ParseFloat(m) => Error::ParseFloat(m.clone()),
            Error::ParseInt(fault, m) => Error::ParseInt(*fault, m.clone()),
            Error::NotMyType(m) => Error::NotMyType(m.clone()),
            Error::KeyMissing(at, key) => Error::KeyMissing(*at, key.clone()),
            Error::IndexUnbound(from, to) => Error::IndexUnbound(*from, *to),
        }
    }
}

impl IntFault {
    /// The fault in words.
    pub open spec fn text(self) -> Seq<char> {
        match self {
            IntFault::Empty => "cannot parse integer from empty string"@,
            IntFault::InvalidDigit => "invalid digit found in string"@,
            IntFault::PosOverflow => "number too large to fit in target type"@,
            IntFault::NegOverflow => "number too small to fit in target type"@,
        }
    }

    /// The fault in words.
    pub fn describe(&self) -> (r: String)
        ensures
            r@ == self.text(),
    {
        match self {
            IntFault::Empty => "cannot parse integer from empty string".to_owned(),
            IntFault::InvalidDigit => "invalid digit found in string".to_owned(),
            IntFault::PosOverflow => "number too large to fit in target type".to_owned(),
            IntFault::NegOverflow => "number too small to fit in target type".to_owned(),
        }
    }
}

impl Failure {
    /// The failure in words.
    pub open spec fn text(self) -> Seq<char> {
        match self {
            Failure::Parse(m) => m,
            Failure::ParseFloat(m) => "invalid float literal, "@ + m,
            Failure::ParseInt(fault, m) => fault.text() + ", "@ + m,
            Failure::NotMyType(m) => m,
            Failure::KeyMissing(_, key) => "missing key "@ + key,
            Failure::IndexUnbound(from, to) => "index out of bound "@ + decimal_text(from) + ".."@
                + decimal_text(to),
        }
    }

    /// The failure of the numeric conversion underneath, in words, if there is one.
    pub open spec fn cause(self) -> Option<Seq<char>> {
        match self {
            Failure::ParseFloat(_) => Some("invalid float literal"@),
            Failure::ParseInt(fault, _) => Some(fault.text()),
            _ => None,
        }
    }
}

impl Error {
    /// Where the missing key would go.
    pub fn key_missing_at(&self) -> (at: usize)
        requires
            self is KeyMissing,
        ensures
            at == self->KeyMissing_0,
    {
        match self {
            Error::KeyMissing(at, _) => *at,
            _ => 0,
        }
    }

    /// The error in words.
    pub fn to_string(&self) -> (r: String)
        ensures
            r@ == self@.text(),
    {
        match self {
            Error::Parse(m) => m.clone(),
            Error::ParseFloat(m) => {
                let mut out: String = "invalid float literal, ".to_owned();
                out.append(m.as_str());
                out
            },
            Error::ParseInt(fault, m) => {
                let mut out: String = fault.describe();
                out.append(", ");
                out.append(m.as_str());
                out
            },
            Error::NotMyType(m) => m.clone(),
            Error::KeyMissing(_, key) => {
                let mut out: String = "missing key ".to_owned();
                out.append(key.as_str());
                out
            },
            Error::IndexUnbound(from, to) => {
                let mut out: String = "index out of bound ".to_owned();
                out.append(decimal_string(*from as i128).as_str());
                out.append("..");
                out.append(decimal_string(*to as i128).as_str());
                out
            },
        }
    }

    /// The failure of the numeric conversion underneath, in words, if there is one.
    pub fn cause(&self) -> (r: Option<String>)
        ensures
            r is Some <==> self@.cause() is Some,
            r is Some ==> r.unwrap()@ == self@.cause().unwrap(),
    {
        match self {
            Error::ParseFloat(_) => Some("invalid float literal".to_owned()),
            Error::ParseInt(fault, _) => Some(fault.describe()),
            _ => None,
        }
    }
}

} // verus!
