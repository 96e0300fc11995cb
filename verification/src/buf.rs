//! A buffer of text that arrives in pieces, parsed one value at a time.

use vstd::prelude::*;
use crate::error::{Error, Failure};
use crate::grammar::value_spec;
use crate::json::Json;
use crate::lex::{start, Lex};
use crate::parse::parse_value;
use crate::render::push_all;
use crate::scan::agrees;
use crate::utf8::bytes_of;

verus! {

/// Text that is still to be parsed. Each parse starts at the front of the
/// text and, when it succeeds, drops what it has read.
pub struct JsonBuf {
    inner: Vec<u8>,
    lex: Lex,
}

impl View for JsonBuf {
    type V = Seq<u8>;

    closed spec fn view(&self) -> Seq<u8> {
        self.inner@
    }
}

impl From<String> for JsonBuf {
    /// A buffer that holds `inner`.
    fn from(inner: String) -> (r: JsonBuf)
        ensures
            r@ == bytes_of(inner@),
    {
        JsonBuf::from_text(inner.as_str())
    }
}

impl vstd::std_specs::convert::FromSpecImpl<String> for JsonBuf {
    open spec fn obeys_from_spec() -> bool {
        false
    }

    open spec fn from_spec(inner: String) -> JsonBuf {
        arbitrary()
    }
}

impl JsonBuf {
    /// An empty buffer.
    pub fn new() -> (r: JsonBuf)
        ensures
            r@ == Seq::<u8>::empty(),
    {
        JsonBuf { inner: Vec::new(), lex: Lex::new(0, 1, 1) }
    }

    /// An empty buffer with room for `cap` bytes.
    pub fn with_capacity(cap: usize) -> (r: JsonBuf)
        ensures
            r@ == Seq::<u8>::empty(),
    {
        JsonBuf { inner: Vec::with_capacity(cap), lex: Lex::new(0, 1, 1) }
    }

    /// A buffer that holds `text`.
    pub fn from_text(text: &str) -> (r: JsonBuf)
        ensures
            r@ == bytes_of(text@),
    {
        let mut buf = JsonBuf::new();
        buf.append(text);
        buf
    }

    /// Puts `text` in place of what the buffer holds.
    pub fn set(&mut self, text: &str)
        ensures
            final(self)@ == bytes_of(text@),
    {
        self.inner.clear();
        self.lex.set(0, 1, 1);
        push_all(&mut self.inner, text.as_bytes());
        assert(self.inner@ =~= bytes_of(text@));
    }

    /// Puts `text` behind what the buffer holds.
    pub fn append(&mut self, text: &str)
        ensures
            final(self)@ == old(self)@ + bytes_of(text@),
    {
        push_all(&mut self.inner, text.as_bytes());
    }

    /// Puts bytes behind what the buffer holds.
    pub fn append_bytes(&mut self, bytes: &[u8])
        ensures
            final(self)@ == old(self)@ + bytes@,
    {
        push_all(&mut self.inner, bytes);
    }

    /// How many bytes the buffer holds.
    pub fn len(&self) -> (n: usize)
        ensures
            n == self@.len(),
    {
        self.inner.len()
    }

    /// Parses the first value of the text and drops it from the buffer
    /// together with what stands before it. A text that does not parse, be it
    /// malformed or not yet complete, stays as it is.
    pub fn parse(&mut self) -> (r: Result<Json, Error>)
        ensures
            old(self)@.len() < usize::MAX ==> agrees(r, value_spec(old(self)@, start()).result),
            old(self)@.len() >= usize::MAX ==> r is Err && r->Err_0@ == Failure::Parse(
                "input too large"@,
            ),
            r is Ok ==> final(self)@ == old(self)@.subrange(
                value_spec(old(self)@, start()).pos.off,
                old(self)@.len() as int,
            ),
            r is Err ==> final(self)@ == old(self)@,
            r is Ok ==> r->Ok_0@.wf(),
    {
        if self.inner.len() >= usize::MAX {
            return Err(Error::Parse("input too large".to_owned()));
        }
        self.lex.set(0, 1, 1);
        match parse_value(self.inner.as_slice(), &mut self.lex) {
            Ok(val) => {
                let rest = self.inner.split_off(self.lex.off);
                self.inner = rest;
                Ok(val)
            },
            Err(e) => Err(e),
        }
    }
}

} // verus!
