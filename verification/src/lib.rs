//! A JSON text engine: a position-tracked parser, a compact serializer and a
//! document algebra over one value tree, with every operation specified against
//! a mathematical model of the document.
//!
//! The model is in `model`, the tree in `json`. `grammar` says what each text
//! parses to and `render` what each document is written as; `scan` and `parse`
//! read, `render` writes. `store` keeps the members of objects sorted,
//! `algebra` and `ops` compute with values, `buf` holds text that arrives in
//! pieces. `laws` states what holds of all of them together.

pub mod algebra;
pub mod ascii;
pub mod buf;
pub mod convert;
pub mod error;
pub mod grammar;
pub mod json;
pub mod laws;
pub mod lex;
pub mod model;
pub mod op;
pub mod ops;
pub mod order;
pub mod parse;
pub mod parsed;
pub mod prefix;
pub mod render;
pub mod roundtrip;
pub mod scan;
pub mod store;
pub mod unicode;
pub mod utf8;
pub mod valid;

pub use buf::JsonBuf;
pub use error::Error;
pub use json::{Doctype, Json, Property};
pub use lex::Lex;
pub use op::Op;
