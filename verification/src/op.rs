//! The record that a chain of transformations carries along: an object with
//! the errors met so far under `errors` and the place in an iteration under
//! `iterpos`.

use vstd::prelude::*;
use crate::algebra::lookup;
use crate::json::{docs, members, Json, Property};
use crate::model::{
    has_key, lemma_slot_bounds, lemma_slot_splits, lemma_upsert_sorted, slot, sorted, upsert,
    upsert_all, Doc, Member,
};
use crate::store::{find, insert};
use crate::utf8::bytes_of;

verus! {

/// The record of a chain of transformations.
pub struct Op {
    doc: Json,
}

/// The key under which a record keeps its errors.
pub open spec fn errors_key() -> Seq<u8> {
    bytes_of("errors"@)
}

/// The key under which a record keeps its place in an iteration.
pub open spec fn iterpos_key() -> Seq<u8> {
    bytes_of("iterpos"@)
}

/// A document can be such a record: it is an object, sorted, with a member
/// under each of the two keys.
pub open spec fn accepts(d: Doc) -> bool {
    &&& d is Object
    &&& sorted(d->Object_0)
    &&& has_key(d->Object_0, errors_key())
    &&& has_key(d->Object_0, iterpos_key())
}

/// A value can be put behind another: both are strings, both arrays, or both
/// objects of which the first is sorted.
pub open spec fn can_append(to: Doc, value: Doc) -> bool {
    ||| to is Text && value is Text
    ||| to is Array && value is Array
    ||| to is Object && value is Object && sorted(to->Object_0)
}

/// One value behind another of its kind: text behind text, items behind
/// items, members put into the members.
pub open spec fn appended(to: Doc, value: Doc) -> Doc {
    match (to, value) {
        (Doc::Text(a), Doc::Text(b)) => Doc::Text(a + b),
        (Doc::Array(a), Doc::Array(b)) => Doc::Array(a + b),
        (Doc::Object(a), Doc::Object(b)) => Doc::Object(upsert_all(a, b)),
        _ => to,
    }
}

/// A store with the value under a key that it holds replaced.
pub open spec fn replaced(members: Seq<Member>, key: Seq<u8>, value: Doc) -> Seq<Member> {
    members.update(slot(members, key), Member { key, value })
}

/// A sorted store that holds a member with some key holds that key.
pub proof fn lemma_holds_key(members: Seq<Member>, at: int)
    requires
        sorted(members),
        0 <= at < members.len(),
    ensures
        has_key(members, members[at].key),
        slot(members, members[at].key) == at,
{
    lemma_slot_splits(members, members[at].key);
}

/// A key that a sorted store holds is still held after a member is put in.
pub proof fn lemma_upsert_keeps(members: Seq<Member>, key: Seq<u8>, value: Doc, other: Seq<u8>)
    requires
        sorted(members),
        has_key(members, other),
    ensures
        has_key(upsert(members, key, value), other),
{
    lemma_upsert_sorted(members, key, value);
    lemma_slot_bounds(members, key);
    lemma_slot_bounds(members, other);
    let at = slot(members, key);
    let j = slot(members, other);
    let after = upsert(members, key, value);
    if has_key(members, key) {
        if j == at {
            assert(after[at].key == other);
        } else {
            assert(after[j] == members[j]);
        }
        lemma_holds_key(after, j);
    } else if j < at {
        assert(after[j] == members[j]);
        lemma_holds_key(after, j);
    } else {
        assert(after[j + 1] == members[j]);
        lemma_holds_key(after, j + 1);
    }
}

/// Replacing the value under a key leaves the keys of a sorted store as they are.
pub proof fn lemma_replaced_keeps(members: Seq<Member>, key: Seq<u8>, value: Doc, other: Seq<u8>)
    requires
        sorted(members),
        has_key(members, key),
        has_key(members, other),
    ensures
        sorted(replaced(members, key, value)),
        has_key(replaced(members, key, value), other),
{
    let after = replaced(members, key, value);
    let at = slot(members, key);
    lemma_slot_bounds(members, key);
    lemma_slot_bounds(members, other);
    assert forall|i: int, j: int| 0 <= i < j < after.len() implies crate::order::bytes_lt(
        (#[trigger] after[i]).key,
        (#[trigger] after[j]).key,
    ) by {
        assert(after[i].key == members[i].key);
        assert(after[j].key == members[j].key);
    }
    let j = slot(members, other);
    assert(after[j].key == other);
    lemma_holds_key(after, j);
}

impl View for Op {
    type V = Doc;

    closed spec fn view(&self) -> Doc {
        self.doc@
    }
}

impl Op {
    /// The record is an object with its two keys.
    pub open spec fn wf(&self) -> bool {
        accepts(self@)
    }

    /// Whether a value can be such a record.
    pub fn accepts(doc: &Json) -> (r: bool)
        ensures
            r == accepts(doc@),
    {
        match doc {
            Json::Object(props) => {
                crate::valid::is_sorted(props) && find(props, "errors").is_ok() && find(
                    props,
                    "iterpos",
                ).is_ok()
            },
            _ => false,
        }
    }

    /// A fresh record: no errors, and the given place in the iteration.
    pub fn new(iterpos: i128) -> (r: Op)
        ensures
            r.wf(),
            r@ == Doc::Object(
                upsert(
                    upsert(Seq::empty(), errors_key(), Doc::Array(Seq::empty())),
                    iterpos_key(),
                    Doc::Integer(iterpos as int),
                ),
            ),
    {
        let mut props: Vec<Property> = Vec::new();
        assert(members(props@) =~= Seq::<Member>::empty());
        let errors: Vec<Json> = Vec::new();
        assert(docs(errors@) =~= Seq::<Doc>::empty());
        insert(&mut props, Property::new("errors".to_owned(), Json::Array(errors)));
        proof {
            lemma_upsert_sorted(Seq::empty(), errors_key(), Doc::Array(Seq::empty()));
            let one = members(props@);
            lemma_upsert_keeps(one, iterpos_key(), Doc::Integer(iterpos as int), errors_key());
            lemma_upsert_sorted(one, iterpos_key(), Doc::Integer(iterpos as int));
        }
        insert(&mut props, Property::new("iterpos".to_owned(), Json::Integer(iterpos)));
        Op { doc: Json::Object(props) }
    }

    /// The record that a value is.
    pub fn with(op: Json) -> (r: Op)
        requires
            accepts(op@),
        ensures
            r.wf(),
            r@ == op@,
    {
        Op { doc: op }
    }

    /// Puts a value under a key of the record.
    pub fn set(&mut self, key: &str, value: Json)
        requires
            old(self).wf(),
        ensures
            final(self).wf(),
            final(self)@ == Doc::Object(upsert(old(self)@->Object_0, bytes_of(key@), value@)),
    {
        proof {
            let m = self.doc@->Object_0;
            lemma_upsert_keeps(m, bytes_of(key@), value@, errors_key());
            lemma_upsert_keeps(m, bytes_of(key@), value@, iterpos_key());
        }
        self.doc.set(key, value);
    }

    /// Puts a value behind the value under a key, which must be of its kind.
    pub fn append(&mut self, key: &str, value: Json)
        requires
            old(self).wf(),
            has_key(old(self)@->Object_0, bytes_of(key@)),
            can_append(lookup(old(self)@->Object_0, bytes_of(key@)).unwrap(), value@),
        ensures
            final(self).wf(),
            final(self)@ == Doc::Object(
                replaced(
                    old(self)@->Object_0,
                    bytes_of(key@),
                    appended(lookup(old(self)@->Object_0, bytes_of(key@)).unwrap(), value@),
                ),
            ),
    {
        let ghost m = self.doc@->Object_0;
        let ghost k = bytes_of(key@);
        let ghost was = lookup(m, k).unwrap();
        proof {
            lemma_replaced_keeps(m, k, appended(was, value@), errors_key());
            lemma_replaced_keeps(m, k, appended(was, value@), iterpos_key());
        }
        match &mut self.doc {
            Json::Object(props) => {
                match find(props, key) {
                    Ok(at) => {
                        let ghost before = members(props@);
                        let mut target = props[at].value.clone();
                        match value {
                            Json::String(s) => {
                                target.append_string(s);
                            },
                            Json::Array(items) => {
                                target.append_items(items);
                            },
                            Json::Object(more) => {
                                target.append_members(more);
                            },
                            _ => {},
                        }
                        let name = props[at].key.clone();
                        props[at] = Property::new(name, target);
                        assert(members(props@) =~= replaced(before, k, appended(was, value@)));
                    },
                    Err(_) => {},
                }
            },
            _ => {},
        }
    }

    /// Puts the errors of another record behind the errors of this one.
    pub fn merge(&mut self, op: Op)
        requires
            old(self).wf(),
            op.wf(),
            can_append(
                lookup(old(self)@->Object_0, errors_key()).unwrap(),
                lookup(op@->Object_0, errors_key()).unwrap(),
            ),
        ensures
            final(self).wf(),
            final(self)@ == Doc::Object(
                replaced(
                    old(self)@->Object_0,
                    errors_key(),
                    appended(
                        lookup(old(self)@->Object_0, errors_key()).unwrap(),
                        lookup(op@->Object_0, errors_key()).unwrap(),
                    ),
                ),
            ),
    {
        match op.doc.get("errors") {
            Some(errors) => {
                self.append("errors", errors);
            },
            None => {},
        }
    }

    /// The value under a key of the record.
    pub fn get_ref(&self, key: &str) -> (r: Option<&Json>)
        requires
            self.wf(),
        ensures
            r is Some <==> self@.field(bytes_of(key@)) is Some,
            r is Some ==> r.unwrap()@ == self@.field(bytes_of(key@)).unwrap(),
    {
        self.doc.get_ref(key)
    }

    /// The record as a value.
    pub fn into(self) -> (r: Json)
        ensures
            r@ == self@,
    {
        self.doc
    }
}

} // verus!
