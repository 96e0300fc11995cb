//! Values made from native ones.

use vstd::prelude::*;
use vstd::std_specs::convert::FromSpecImpl;
use crate::error::{Error, Failure};
use crate::json::{members, Json, Property};
use crate::model::{sorted, upsert_all, Doc};
use crate::parse::parse_spec;
use crate::scan::agrees;
use crate::utf8::bytes_of;

verus! {

impl Default for Json {
    fn default() -> (r: Json)
        ensures
            r@ == Doc::Null,
    {
        Json::Null
    }
}

impl From<bool> for Json {
    fn from(val: bool) -> (r: Json) {
        Json::Bool(val)
    }
}

impl FromSpecImpl<bool> for Json {
    open spec fn obeys_from_spec() -> bool {
        true
    }

    open spec fn from_spec(val: bool) -> Json {
        Json::Bool(val)
    }
}

impl From<i128> for Json {
    fn from(val: i128) -> (r: Json) {
        Json::Integer(val)
    }
}

impl FromSpecImpl<i128> for Json {
    open spec fn obeys_from_spec() -> bool {
        true
    }

    open spec fn from_spec(val: i128) -> Json {
        Json::Integer(val)
    }
}

impl From<String> for Json {
    fn from(val: String) -> (r: Json) {
        Json::String(val)
    }
}

impl FromSpecImpl<String> for Json {
    open spec fn obeys_from_spec() -> bool {
        true
    }

    open spec fn from_spec(val: String) -> Json {
        Json::String(val)
    }
}

impl From<Vec<Json>> for Json {
    fn from(val: Vec<Json>) -> (r: Json) {
        Json::Array(val)
    }
}

impl FromSpecImpl<Vec<Json>> for Json {
    open spec fn obeys_from_spec() -> bool {
        true
    }

    open spec fn from_spec(val: Vec<Json>) -> Json {
        Json::Array(val)
    }
}

impl From<Vec<Property>> for Json {
    /// An object with the given members, sorted by key, a later member
    /// replacing an earlier one with the same key.
    fn from(vals: Vec<Property>) -> (r: Json)
        ensures
            r@ == Doc::Object(upsert_all(Seq::empty(), members(vals@))),
            sorted(r@->Object_0),
    {
        Json::from_members(vals)
    }
}

impl FromSpecImpl<Vec<Property>> for Json {
    open spec fn obeys_from_spec() -> bool {
        false
    }

    open spec fn from_spec(vals: Vec<Property>) -> Json {
        Json::Object(vals)
    }
}

impl std::str::FromStr for Json {
    type Err = Error;

    /// Parses the first value of a text, read from its start. What follows
    /// that value is not looked at.
    fn from_str(text: &str) -> (r: Result<Json, Error>)
        ensures
            bytes_of(text@).len() < usize::MAX ==> agrees(r, parse_spec(bytes_of(text@))),
            bytes_of(text@).len() >= usize::MAX ==> r is Err && r->Err_0@ == Failure::Parse(
                "input too large"@,
            ),
            r is Ok ==> r->Ok_0@.wf(),
    {
        Json::from_str(text)
    }
}

impl From<Json> for bool {
    fn from(val: Json) -> (r: bool) {
        val.truth()
    }
}

impl FromSpecImpl<Json> for bool {
    open spec fn obeys_from_spec() -> bool {
        true
    }

    open spec fn from_spec(val: Json) -> bool {
        val@.holds()
    }
}

} // verus!
