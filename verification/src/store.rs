//! The sorted member store: the members of an object, kept in the order of
//! their keys and found by binary search.

use vstd::prelude::*;
use crate::error::{Error, Failure};
use crate::json::{members, Json, Property};
use crate::model::{
    has_key, lemma_slot_is, lemma_slot_splits, lemma_upsert_sorted, slot, sorted, upsert,
    upsert_all, Doc, Member,
};
use crate::order::{bytes_lt, compare, lemma_lt_total, lemma_lt_transitive, Side};
use crate::utf8::bytes_of;

verus! {

/// Finds `key` by binary search: in a sorted store, the index of the member
/// that has it, or the index at which it would go. In a store that is not
/// sorted the search may miss a key that is there, but an index it finds
/// holds the key.
pub fn find(props: &Vec<Property>, key: &str) -> (r: Result<usize, usize>)
    ensures
        sorted(members(props@)) ==> (r is Ok <==> has_key(members(props@), bytes_of(key@))),
        sorted(members(props@)) ==> match r {
            Ok(at) => at == slot(members(props@), bytes_of(key@)),
            Err(at) => at == slot(members(props@), bytes_of(key@)),
        },
        match r {
            Ok(at) => at < props.len() && members(props@)[at as int].key == bytes_of(key@),
            Err(at) => at <= props.len(),
        },
{
    let ghost m = members(props@);
    let ghost k = bytes_of(key@);
    let mut lo: usize = 0;
    let mut hi: usize = props.len();
    while lo < hi
        invariant
            0 <= lo <= hi <= props.len(),
            m == members(props@),
            k == bytes_of(key@),
            sorted(m) ==> forall|i: int| 0 <= i < lo ==> bytes_lt((#[trigger] m[i]).key, k),
            sorted(m) ==> forall|i: int| hi <= i < m.len() ==> bytes_lt(k, (#[trigger] m[i]).key),
        decreases hi - lo,
    {
        let mid: usize = lo + (hi - lo) / 2;
        let side = compare(props[mid].key.as_str().as_bytes(), key.as_bytes());
        assert(m[mid as int].key == bytes_of(props[mid as int].key@));
        match side {
            Side::Same => {
                proof {
                    if sorted(m) {
                        lemma_slot_splits(m, k);
                    }
                }
                return Ok(mid);
            },
            Side::Before => {
                proof {
                    if sorted(m) {
                        assert forall|i: int| 0 <= i < mid + 1 implies bytes_lt(
                            (#[trigger] m[i]).key,
                            k,
                        ) by {
                            if i < mid {
                                lemma_lt_transitive(m[i].key, m[mid as int].key, k);
                            }
                        }
                    }
                }
                lo = mid + 1;
            },
            Side::After => {
                proof {
                    if sorted(m) {
                        assert forall|i: int| mid <= i < m.len() implies bytes_lt(
                            k,
                            (#[trigger] m[i]).key,
                        ) by {
                            if i > mid {
                                lemma_lt_transitive(k, m[mid as int].key, m[i].key);
                            }
                        }
                    }
                }
                hi = mid;
            },
        }
    }
    proof {
        if sorted(m) {
            if lo < m.len() {
                lemma_lt_total(k, m[lo as int].key);
            }
            lemma_slot_is(m, k, lo as int);
            lemma_lt_total(k, k);
        }
    }
    Err(lo)
}

/// Finds `key` by binary search, or says where it is missing: in a sorted
/// store it is found just when it is there, and the index is its place.
pub fn search_by_key(props: &Vec<Property>, key: &str) -> (r: Result<usize, Error>)
    ensures
        sorted(members(props@)) ==> (r is Ok <==> has_key(members(props@), bytes_of(key@))),
        sorted(members(props@)) && r is Ok ==> r.unwrap() == slot(
            members(props@),
            bytes_of(key@),
        ),
        sorted(members(props@)) && r is Err ==> r.unwrap_err()@ == Failure::KeyMissing(
            slot(members(props@), bytes_of(key@)),
            key@,
        ),
        r matches Ok(at) ==> at < props.len() && members(props@)[at as int].key == bytes_of(
            key@,
        ),
        r matches Err(e) ==> e is KeyMissing && e->KeyMissing_0 <= props.len()
            && e->KeyMissing_1@ == key@,
{
    match find(props, key) {
        Ok(at) => Ok(at),
        Err(at) => Err(Error::KeyMissing(at, key.to_owned())),
    }
}

/// Puts a member into a sorted store: in place of the member with its key, or
/// else at its key's place in the order.
pub fn insert(props: &mut Vec<Property>, prop: Property)
    requires
        sorted(members(old(props)@)),
    ensures
        members(final(props)@) == upsert(members(old(props)@), prop@.key, prop@.value),
        sorted(members(final(props)@)),
{
    let ghost before = members(props@);
    proof {
        lemma_upsert_sorted(before, prop@.key, prop@.value);
    }
    match find(props, prop.key.as_str()) {
        Ok(at) => {
            props[at] = prop;
            assert(members(props@) =~= before.update(at as int, prop@));
        },
        Err(at) => {
            props.insert(at, prop);
            assert(members(props@) =~= before.insert(at as int, prop@));
        },
    }
}

/// Puts each of `more` into a sorted store, first to last.
pub fn insert_all(props: &mut Vec<Property>, more: Vec<Property>)
    requires
        sorted(members(old(props)@)),
    ensures
        members(final(props)@) == upsert_all(members(old(props)@), members(more@)),
        sorted(members(final(props)@)),
{
    let ghost start = members(props@);
    let ghost all = members(more@);
    let ghost given = more@;
    assert(all.subrange(0, 0) =~= Seq::<Member>::empty());
    for prop in it: more
        invariant
            it.seq() == given,
            all == members(given),
            sorted(members(props@)),
            members(props@) == upsert_all(start, all.subrange(0, it.index())),
    {
        proof {
            let done = it.index();
            assert(all.subrange(0, done + 1).drop_last() =~= all.subrange(0, done));
            assert(all.subrange(0, done + 1).last() == prop@);
        }
        insert(props, prop);
    }
    assert(all.subrange(0, all.len() as int) =~= all);
}

impl Json {
    /// Puts a member into a sorted store.
    pub fn insert(props: &mut Vec<Property>, prop: Property)
        requires
            sorted(members(old(props)@)),
        ensures
            members(final(props)@) == upsert(members(old(props)@), prop@.key, prop@.value),
            sorted(members(final(props)@)),
    {
        insert(props, prop)
    }

    /// Puts `value` under `key` in an object.
    pub fn set(&mut self, key: &str, value: Json)
        requires
            old(self)@ is Object,
            sorted(old(self)@->Object_0),
        ensures
            final(self)@ == Doc::Object(upsert(old(self)@->Object_0, bytes_of(key@), value@)),
            sorted(final(self)@->Object_0),
    {
        match self {
            Json::Object(obj) => {
                insert(obj, Property::new(key.to_owned(), value));
            },
            _ => {},
        }
    }

    /// An object with the given members, a later one replacing an earlier one
    /// with the same key.
    pub fn from_members(props: Vec<Property>) -> (r: Json)
        ensures
            r@ == Doc::Object(upsert_all(Seq::empty(), members(props@))),
            sorted(r@->Object_0),
    {
        let mut out: Vec<Property> = Vec::new();
        assert(members(out@) =~= Seq::empty());
        insert_all(&mut out, props);
        Json::Object(out)
    }
}

} // verus!
