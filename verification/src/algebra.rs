//! The document algebra: reaching into values by index, key and range,
//! flattening, appending and merging.

use vstd::prelude::*;
use vstd::slice::{slice_subrange, slice_to_vec};
use vstd::string::*;
use vstd::utf8::{decode_utf8, encode_utf8_decode_utf8, valid_utf8};
use crate::json::{docs, members, Json, Property};
use crate::model::{
    all_ordered, all_wf, has_key, lemma_slot_bounds, lemma_upsert_sorted, slot, sorted, upsert,
    upsert_all, Doc, Member,
};
use crate::order::bytes_lt;
use crate::store::{find, insert, insert_all};
use crate::utf8::{bytes_of, string_from_utf8};

verus! {

/// The index that a signed offset means in a run of `len` items: a negative
/// offset counts from the end. Offsets outside the run mean nothing.
pub open spec fn normal_index(off: int, len: int) -> Option<int> {
    let at = if off < 0 { off + len } else { off };
    if 0 <= at < len {
        Some(at)
    } else {
        None
    }
}

/// One end of a range in a run of `len` items: a negative end counts from the
/// end of the run, and an end outside the run is the nearest end of the run.
pub open spec fn clamp_end(end: int, len: int) -> int {
    if end < 0 {
        if end + len < 0 { 0 } else { end + len }
    } else if end > len {
        len
    } else {
        end
    }
}

/// The half-open range that two signed ends mean in a run of `len` items,
/// unless it is empty.
pub open spec fn slice_range(start: int, end: int, len: int) -> Option<(int, int)> {
    let a = clamp_end(start, len);
    let z = clamp_end(end, len);
    if a < z {
        Some((a, z))
    } else {
        None
    }
}

/// The value under a key in a sorted store.
pub open spec fn lookup(members: Seq<Member>, key: Seq<u8>) -> Option<Doc> {
    if has_key(members, key) {
        Some(members[slot(members, key)].value)
    } else {
        None
    }
}

impl Doc {
    /// The item of an array at a signed offset.
    pub open spec fn item(self, off: int) -> Option<Doc> {
        match self {
            Doc::Array(items) => match normal_index(off, items.len() as int) {
                Some(at) => Some(items[at]),
                None => None,
            },
            _ => None,
        }
    }

    /// The value under a key of an object.
    pub open spec fn field(self, key: Seq<u8>) -> Option<Doc> {
        match self {
            Doc::Object(members) => lookup(members, key),
            _ => None,
        }
    }

    /// The part of an array or a string between two signed ends. A part of a
    /// string must itself be UTF-8.
    pub open spec fn part(self, start: int, end: int) -> Option<Doc> {
        match self {
            Doc::Array(items) => match slice_range(start, end, items.len() as int) {
                Some((a, z)) => Some(Doc::Array(items.subrange(a, z))),
                None => None,
            },
            Doc::Text(t) => match slice_range(start, end, t.len() as int) {
                Some((a, z)) => if valid_utf8(t.subrange(a, z)) {
                    Some(Doc::Text(t.subrange(a, z)))
                } else {
                    None
                },
                None => None,
            },
            _ => None,
        }
    }

    /// The document and all that it holds, depth first, each container before
    /// what is in it; of an object only the values.
    pub open spec fn flatten(self) -> Seq<Doc>
        decreases self, 1int,
    {
        match self {
            Doc::Array(items) => seq![self] + flatten_all(items),
            Doc::Object(members) => seq![self] + flatten_values(members),
            _ => seq![self],
        }
    }

    /// What a value yields when it is walked through: the scalars of the
    /// characters of a string, the items of an array.
    pub open spec fn walk(self) -> Option<Seq<Doc>> {
        match self {
            Doc::Text(t) => Some(decode_utf8(t).map_values(|c: char| Doc::Integer(c as int))),
            Doc::Array(items) => Some(items),
            _ => None,
        }
    }
}

/// The documents of a run, each flattened, one after the other.
pub open spec fn flatten_all(items: Seq<Doc>) -> Seq<Doc>
    decreases items, 0int,
{
    if items.len() == 0 {
        Seq::empty()
    } else {
        flatten_all(items.drop_last()) + items.last().flatten()
    }
}

/// The values of the members of a store, each flattened, one after the other.
pub open spec fn flatten_values(members: Seq<Member>) -> Seq<Doc>
    decreases members, 0int,
{
    if members.len() == 0 {
        Seq::empty()
    } else {
        flatten_values(members.drop_last()) + members.last().value.flatten()
    }
}

/// A store after one member is merged into it: the member goes to its key's
/// place if the key is new; where the store has the key, two objects are
/// merged in turn, and anything else is replaced by the member's value.
pub open spec fn mixin_one(this: Seq<Member>, other: Member) -> Seq<Member>
    decreases other, 0int,
{
    let at = slot(this, other.key);
    if !has_key(this, other.key) {
        this.insert(at, other)
    } else {
        match (this[at].value, other.value) {
            (Doc::Object(mine), Doc::Object(theirs)) => this.update(
                at,
                Member { key: other.key, value: Doc::Object(mixin(mine, theirs)) },
            ),
            _ => this.update(at, other),
        }
    }
}

/// A store after each member of another is merged into it, first to last.
pub open spec fn mixin(this: Seq<Member>, other: Seq<Member>) -> Seq<Member>
    decreases other, 1int,
{
    if other.len() == 0 {
        this
    } else {
        mixin_one(mixin(this, other.drop_last()), other.last())
    }
}

/// Two runs of well-formed documents, one behind the other, are a run of
/// well-formed documents.
pub proof fn lemma_joined_wf(a: Seq<Doc>, b: Seq<Doc>)
    ensures
        Doc::Array(a).wf() && Doc::Array(b).wf() ==> Doc::Array(a + b).wf(),
{
    if Doc::Array(a).wf() && Doc::Array(b).wf() {
        assert forall|i: int| 0 <= i < (a + b).len() implies (#[trigger] (a + b)[i]).wf() by {
            if i < a.len() {
                assert(Doc::Array(a)->Array_0[i].wf());
            } else {
                assert(Doc::Array(b)->Array_0[i - a.len()].wf());
            }
        }
    }
}

/// A sorted store of well-formed members stays one when well-formed members
/// are put into it.
pub proof fn lemma_upsert_all_wf(members: Seq<Member>, more: Seq<Member>)
    requires
        sorted(members),
        all_wf(members),
        all_wf(more),
    ensures
        sorted(upsert_all(members, more)),
        all_wf(upsert_all(members, more)),
    decreases more.len(),
{
    if more.len() > 0 {
        let front = more.drop_last();
        assert forall|i: int| 0 <= i < front.len() implies valid_utf8((#[trigger] front[i]).key)
            && front[i].value.wf() by {
            assert(front[i] == more[i]);
        }
        lemma_upsert_all_wf(members, front);
        crate::parsed::lemma_upsert_wf(
            upsert_all(members, front),
            more.last().key,
            more.last().value,
        );
    }
}

/// All that a well-formed document holds is well-formed.
pub proof fn lemma_flatten_wf(d: Doc)
    requires
        d.wf(),
    ensures
        Doc::Array(d.flatten()).wf(),
    decreases d, 1int,
{
    match d {
        Doc::Array(items) => {
            lemma_flatten_all_wf(items);
            lemma_joined_wf(seq![d], flatten_all(items));
        },
        Doc::Object(members) => {
            lemma_flatten_values_wf(members);
            lemma_joined_wf(seq![d], flatten_values(members));
        },
        _ => {},
    }
}

/// All that a run of well-formed documents holds is well-formed.
pub proof fn lemma_flatten_all_wf(items: Seq<Doc>)
    requires
        forall|i: int| 0 <= i < items.len() ==> (#[trigger] items[i]).wf(),
    ensures
        Doc::Array(flatten_all(items)).wf(),
    decreases items, 0int,
{
    if items.len() > 0 {
        let front = items.drop_last();
        assert forall|i: int| 0 <= i < front.len() implies (#[trigger] front[i]).wf() by {
            assert(front[i] == items[i]);
        }
        lemma_flatten_all_wf(front);
        lemma_flatten_wf(items.last());
        lemma_joined_wf(flatten_all(front), items.last().flatten());
    }
}

/// All that the values of well-formed members hold is well-formed.
pub proof fn lemma_flatten_values_wf(members: Seq<Member>)
    requires
        all_wf(members),
    ensures
        Doc::Array(flatten_values(members)).wf(),
    decreases members, 0int,
{
    if members.len() > 0 {
        let front = members.drop_last();
        assert forall|i: int| 0 <= i < front.len() implies valid_utf8((#[trigger] front[i]).key)
            && front[i].value.wf() by {
            assert(front[i] == members[i]);
        }
        lemma_flatten_values_wf(front);
        lemma_flatten_wf(members.last().value);
        lemma_joined_wf(flatten_values(front), members.last().value.flatten());
    }
}

/// The index that a signed offset means in a run of `len` items.
pub fn normalized_offset(off: isize, len: usize) -> (r: Option<usize>)
    ensures
        r is Some <==> normal_index(off as int, len as int) is Some,
        r is Some ==> r.unwrap() == normal_index(off as int, len as int).unwrap(),
{
    let at: i128 = if off < 0 { off as i128 + len as i128 } else { off as i128 };
    if 0 <= at && at < len as i128 {
        Some(at as usize)
    } else {
        None
    }
}

fn clamped(end: isize, len: usize) -> (r: usize)
    ensures
        r == clamp_end(end as int, len as int),
{
    let at: i128 = if end < 0 { end as i128 + len as i128 } else { end as i128 };
    if at < 0 {
        0
    } else if at > len as i128 {
        len
    } else {
        at as usize
    }
}

/// The half-open range that two signed ends mean in a run of `len` items,
/// unless it is empty.
pub fn slice_range_check(start: isize, end: isize, len: usize) -> (r: Option<(usize, usize)>)
    ensures
        match slice_range(start as int, end as int, len as int) {
            Some((a, z)) => r == Some((a as usize, z as usize)) && 0 <= a < z <= len,
            None => r is None,
        },
{
    let a: usize = clamped(start, len);
    let z: usize = clamped(end, len);
    if a < z {
        Some((a, z))
    } else {
        None
    }
}

/// The number of a character.
pub fn scalar_of(c: char) -> (n: u32)
    ensures
        n == c as int,
{
    c as u32
}

/// A copy of a run of values.
pub fn copy_items(items: &Vec<Json>) -> (r: Vec<Json>)
    ensures
        docs(r@) == docs(items@),
{
    let mut out: Vec<Json> = Vec::new();
    let mut i: usize = 0;
    while i < items.len()
        invariant
            i <= items.len(),
            out.len() == i,
            forall|k: int| 0 <= k < i ==> out[k]@ == items[k]@,
        decreases items.len() - i,
    {
        out.push(items[i].clone());
        i = i + 1;
    }
    assert(docs(out@) =~= docs(items@));
    out
}

/// A copy of a run of members.
pub fn copy_members(props: &Vec<Property>) -> (r: Vec<Property>)
    ensures
        members(r@) == members(props@),
{
    let mut out: Vec<Property> = Vec::new();
    let mut i: usize = 0;
    while i < props.len()
        invariant
            i <= props.len(),
            out.len() == i,
            forall|k: int| 0 <= k < i ==> out[k]@ == props[k]@,
        decreases props.len() - i,
    {
        out.push(props[i].clone());
        i = i + 1;
    }
    assert(members(out@) =~= members(props@));
    out
}

impl Json {
    /// The item of an array at a signed offset, a negative one counted from
    /// the end. Nothing for an offset outside the array or a value that is no array.
    pub fn index(self, off: isize) -> (r: Option<Json>)
        ensures
            r is Some <==> self@.item(off as int) is Some,
            r is Some ==> r.unwrap()@ == self@.item(off as int).unwrap(),
            r is Some && self@.wf() ==> r.unwrap()@.wf(),
    {
        match self {
            Json::Array(a) => match normalized_offset(off, a.len()) {
                Some(at) => Some(a[at].clone()),
                None => None,
            },
            _ => None,
        }
    }

    /// The item of an array at a signed offset, by reference.
    pub fn index_ref(&self, off: isize) -> (r: Option<&Json>)
        ensures
            r is Some <==> self@.item(off as int) is Some,
            r is Some ==> self is Array && *r.unwrap() == self->Array_0[normal_index(
                off as int,
                self->Array_0.len() as int,
            ).unwrap()],
            r is Some ==> r.unwrap()@ == self@.item(off as int).unwrap(),
    {
        match self {
            Json::Array(a) => match normalized_offset(off, a.len()) {
                Some(at) => Some(&a[at]),
                None => None,
            },
            _ => None,
        }
    }

    /// The item of an array at a signed offset, to be changed in place.
    pub fn index_mut(&mut self, off: isize) -> (r: Option<&mut Json>)
        ensures
            r is Some <==> old(self)@.item(off as int) is Some,
            match r {
                Some(item) => {
                    let at = normal_index(off as int, (*old(self))->Array_0.len() as int).unwrap();
                    &&& *item == (*old(self))->Array_0[at]
                    &&& *final(self) is Array
                    &&& (*final(self))->Array_0@ == (*old(self))->Array_0@.update(at, *final(item))
                },
                None => *final(self) == *old(self),
            },
    {
        match self {
            Json::Array(a) => match normalized_offset(off, a.len()) {
                Some(at) => Some(&mut a[at]),
                None => None,
            },
            _ => None,
        }
    }

    /// The value under a key of an object, taken out of it. Nothing for a key
    /// that the object lacks or a value that is no object.
    pub fn get(self, key: &str) -> (r: Option<Json>)
        requires
            self@ is Object ==> sorted(self@->Object_0),
        ensures
            r is Some <==> self@.field(bytes_of(key@)) is Some,
            r is Some ==> r.unwrap()@ == self@.field(bytes_of(key@)).unwrap(),
            r is Some && self@.wf() ==> r.unwrap()@.wf(),
    {
        proof {
            if self@ is Object {
                lemma_slot_bounds(self@->Object_0, bytes_of(key@));
            }
        }
        match self {
            Json::Object(mut obj) => match find(&obj, key) {
                Ok(at) => Some(obj.remove(at).value()),
                Err(_) => None,
            },
            _ => None,
        }
    }

    /// The value under a key of an object, by reference.
    pub fn get_ref(&self, key: &str) -> (r: Option<&Json>)
        requires
            self@ is Object ==> sorted(self@->Object_0),
        ensures
            r is Some <==> self@.field(bytes_of(key@)) is Some,
            r is Some ==> self is Object && *r.unwrap() == self->Object_0[slot(
                self@->Object_0,
                bytes_of(key@),
            )].value,
            r is Some ==> r.unwrap()@ == self@.field(bytes_of(key@)).unwrap(),
    {
        match self {
            Json::Object(obj) => match find(obj, key) {
                Ok(at) => Some(&obj[at].value),
                Err(_) => None,
            },
            _ => None,
        }
    }

    /// The value under a key of an object, to be changed in place.
    pub fn get_mut(&mut self, key: &str) -> (r: Option<&mut Json>)
        requires
            old(self)@ is Object ==> sorted(old(self)@->Object_0),
        ensures
            r is Some <==> old(self)@.field(bytes_of(key@)) is Some,
            match r {
                Some(item) => {
                    let at = slot(old(self)@->Object_0, bytes_of(key@));
                    let was = (*old(self))->Object_0[at];
                    &&& *item == was.value
                    &&& *final(self) is Object
                    &&& (*final(self))->Object_0@ == (*old(self))->Object_0@.update(
                        at,
                        Property { key: was.key, value: *final(item) },
                    )
                },
                None => *final(self) == *old(self),
            },
    {
        match self {
            Json::Object(obj) => match find(obj, key) {
                Ok(at) => Some(obj[at].value_mut()),
                Err(_) => None,
            },
            _ => None,
        }
    }

    /// The items of an array, by reference.
    pub fn iter(&self) -> (r: Option<&Vec<Json>>)
        ensures
            r == (if let Json::Array(a) = self { Some(a) } else { None::<&Vec<Json>> }),
    {
        match self {
            Json::Array(a) => Some(a),
            _ => None,
        }
    }

    /// What the value yields when it is walked through: an integer for each
    /// character of a string, the items of an array, nothing of any other kind.
    pub fn into_iter(self) -> (r: Option<Vec<Json>>)
        ensures
            r is Some <==> self@.walk() is Some,
            r is Some ==> docs(r.unwrap()@) == self@.walk().unwrap(),
    {
        match self {
            Json::String(s) => {
                let mut out: Vec<Json> = Vec::new();
                let text = s.as_str();
                for c in it: text.chars()
                    invariant
                        out.len() == it.index(),
                        it.seq() == text@,
                        forall|i: int|
                            0 <= i < out.len() ==> out[i]@ == Doc::Integer(text@[i] as int),
                {
                    out.push(Json::Integer(scalar_of(c) as i128));
                }
                proof {
                    encode_utf8_decode_utf8(s@);
                    assert(docs(out@) =~= self@.walk().unwrap());
                }
                Some(out)
            },
            Json::Array(a) => Some(a),
            _ => None,
        }
    }

    /// The part of an array or a string between two signed ends, negative
    /// ones counted from the end and both kept inside the value. Nothing for
    /// an empty part, for a part of a string that cuts a character, or for a
    /// value of another kind.
    pub fn slice(self, start: isize, end: isize) -> (r: Option<Json>)
        ensures
            r is Some <==> self@.part(start as int, end as int) is Some,
            r is Some ==> r.unwrap()@ == self@.part(start as int, end as int).unwrap(),
            r is Some && self@.wf() ==> r.unwrap()@.wf(),
    {
        match self {
            Json::Array(arr) => match slice_range_check(start, end, arr.len()) {
                Some((a, z)) => {
                    let mut out: Vec<Json> = Vec::new();
                    let mut i: usize = a;
                    while i < z
                        invariant
                            a <= i <= z <= arr.len(),
                            out.len() == i - a,
                            forall|k: int| 0 <= k < i - a ==> out[k]@ == arr[a + k]@,
                        decreases z - i,
                    {
                        out.push(arr[i].clone());
                        i = i + 1;
                    }
                    assert(docs(out@) =~= docs(arr@).subrange(a as int, z as int));
                    proof {
                        if self@.wf() {
                            assert forall|k: int| 0 <= k < out.len() implies (#[trigger] docs(
                                out@,
                            )[k]).wf() by {
                                assert(docs(out@)[k] == docs(arr@)[a + k]);
                            }
                        }
                    }
                    Some(Json::Array(out))
                },
                None => None,
            },
            Json::String(s) => {
                let bytes = s.as_str().as_bytes();
                match slice_range_check(start, end, bytes.len()) {
                    Some((a, z)) => {
                        let sub: Vec<u8> = slice_to_vec(slice_subrange(bytes, a, z));
                        match string_from_utf8(sub) {
                            Some(t) => Some(Json::String(t)),
                            None => None,
                        }
                    },
                    None => None,
                }
            },
            _ => None,
        }
    }

    /// Puts text behind the text of a string.
    pub fn append_string(&mut self, value: String)
        requires
            old(self)@ is Text,
        ensures
            final(self)@ == Doc::Text(old(self)@->Text_0 + bytes_of(value@)),
            final(self)@.wf(),
    {
        proof {
            vstd::utf8::encode_utf8_valid_utf8(old(self)->String_0@ + value@);
        }
        match self {
            Json::String(s) => {
                proof {
                    crate::utf8::lemma_bytes_add(s@, value@);
                }
                s.append(value.as_str());
            },
            _ => {},
        }
    }

    /// Puts values behind the items of an array.
    pub fn append_items(&mut self, values: Vec<Json>)
        requires
            old(self)@ is Array,
        ensures
            final(self)@ == Doc::Array(old(self)@->Array_0 + docs(values@)),
            old(self)@.wf() && Doc::Array(docs(values@)).wf() ==> final(self)@.wf(),
    {
        proof {
            lemma_joined_wf(old(self)@->Array_0, docs(values@));
        }
        match self {
            Json::Array(arr) => {
                let ghost before = docs(arr@);
                let ghost more = docs(values@);
                let mut values = values;
                arr.append(&mut values);
                assert(docs(arr@) =~= before + more);
            },
            _ => {},
        }
    }

    /// Puts members into an object, each in place of the member with its key
    /// or else at its key's place.
    pub fn append_members(&mut self, properties: Vec<Property>)
        requires
            old(self)@ is Object,
            sorted(old(self)@->Object_0),
        ensures
            final(self)@ == Doc::Object(upsert_all(old(self)@->Object_0, members(properties@))),
            sorted(final(self)@->Object_0),
            old(self)@.wf() && all_wf(members(properties@)) ==> final(self)@.wf(),
    {
        proof {
            if old(self)@.wf() && all_wf(members(properties@)) {
                lemma_upsert_all_wf(old(self)@->Object_0, members(properties@));
            }
        }
        match self {
            Json::Object(props) => {
                insert_all(props, properties);
            },
            _ => {},
        }
    }

    /// The value and all that it holds, depth first, each container before
    /// what is in it.
    pub fn recurse(self) -> (r: Vec<Json>)
        ensures
            docs(r@) == self@.flatten(),
            self@.wf() ==> Doc::Array(docs(r@)).wf(),
    {
        proof {
            if self@.wf() {
                lemma_flatten_wf(self@);
            }
        }
        let mut list: Vec<Json> = Vec::new();
        assert(docs(list@) =~= Seq::<Doc>::empty());
        do_recurse(self, &mut list);
        assert(docs(list@) =~= self@.flatten());
        list
    }
}

/// Puts a value and all that it holds behind a list, depth first.
fn walk(value: &Json, list: &mut Vec<Json>)
    ensures
        docs(final(list)@) == docs(old(list)@) + value@.flatten(),
    decreases value,
{
    let ghost start = docs(list@);
    list.push(value.clone());
    assert(docs(list@) =~= start + seq![value@]);
    match value {
        Json::Array(values) => {
            let ghost all = docs(values@);
            let ghost head = docs(list@);
            let mut i: usize = 0;
            assert(all.subrange(0, 0) =~= Seq::<Doc>::empty());
            assert(head + flatten_all(all.subrange(0, 0)) =~= head);
            while i < values.len()
                invariant
                    i <= values.len(),
                    value is Array,
                    value->Array_0 == *values,
                    all == docs(values@),
                    docs(list@) == head + flatten_all(all.subrange(0, i as int)),
                decreases values.len() - i,
            {
                assert(decreases_to!(*values => values[i as int]));
                let ghost mid = docs(list@);
                walk(&values[i], list);
                proof {
                    let now = all.subrange(0, i + 1);
                    assert(now.drop_last() =~= all.subrange(0, i as int));
                    assert(now.last() == values[i as int]@);
                    assert(docs(list@) =~= head + flatten_all(now));
                }
                i = i + 1;
            }
            assert(all.subrange(0, values.len() as int) =~= all);
            assert(docs(list@) =~= start + value@.flatten());
        },
        Json::Object(props) => {
            let ghost all = members(props@);
            let ghost head = docs(list@);
            let mut i: usize = 0;
            assert(all.subrange(0, 0) =~= Seq::<Member>::empty());
            assert(head + flatten_values(all.subrange(0, 0)) =~= head);
            while i < props.len()
                invariant
                    i <= props.len(),
                    value is Object,
                    value->Object_0 == *props,
                    all == members(props@),
                    docs(list@) == head + flatten_values(all.subrange(0, i as int)),
                decreases props.len() - i,
            {
                assert(decreases_to!(*props => props[i as int]));
                walk(&props[i].value, list);
                proof {
                    let now = all.subrange(0, i + 1);
                    assert(now.drop_last() =~= all.subrange(0, i as int));
                    assert(now.last() == props[i as int]@);
                    assert(docs(list@) =~= head + flatten_values(now));
                }
                i = i + 1;
            }
            assert(all.subrange(0, props.len() as int) =~= all);
            assert(docs(list@) =~= start + value@.flatten());
        },
        _ => {},
    }
}

/// Puts a value and all that it holds behind a list, depth first, each
/// container before what is in it.
pub fn do_recurse(value: Json, list: &mut Vec<Json>)
    ensures
        docs(final(list)@) == docs(old(list)@) + value@.flatten(),
{
    walk(&value, list)
}

/// A sorted store whose objects are sorted stays one when a member whose
/// objects are sorted is merged into it.
pub proof fn lemma_mixin_one_ordered(this: Seq<Member>, other: Member)
    requires
        sorted(this),
        all_ordered(this),
        other.value.ordered(),
    ensures
        sorted(mixin_one(this, other)),
        all_ordered(mixin_one(this, other)),
    decreases other, 0int,
{
    let at = slot(this, other.key);
    let after = mixin_one(this, other);
    lemma_slot_bounds(this, other.key);
    if !has_key(this, other.key) {
        lemma_upsert_sorted(this, other.key, other.value);
        assert(after == upsert(this, other.key, other.value));
        assert forall|i: int| 0 <= i < after.len() implies (
        #[trigger] after[i]).value.ordered() by {
            if i < at {
                assert(after[i] == this[i]);
            } else if i > at {
                assert(after[i] == this[i - 1]);
            }
        }
    } else {
        match (this[at].value, other.value) {
            (Doc::Object(mine), Doc::Object(theirs)) => {
                assert(this[at].value.ordered());
                lemma_mixin_ordered(mine, theirs);
            },
            _ => {},
        }
        assert forall|i: int| 0 <= i < after.len() implies (
        #[trigger] after[i]).value.ordered() by {
            if i != at {
                assert(after[i] == this[i]);
            }
        }
        assert forall|i: int, j: int| 0 <= i < j < after.len() implies bytes_lt(
            (#[trigger] after[i]).key,
            (#[trigger] after[j]).key,
        ) by {
            assert(after[i].key == this[i].key);
            assert(after[j].key == this[j].key);
        }
    }
}

/// A sorted store whose objects are sorted stays one when members whose
/// objects are sorted are merged into it.
pub proof fn lemma_mixin_ordered(this: Seq<Member>, other: Seq<Member>)
    requires
        sorted(this),
        all_ordered(this),
        all_ordered(other),
    ensures
        sorted(mixin(this, other)),
        all_ordered(mixin(this, other)),
    decreases other, 1int,
{
    if other.len() > 0 {
        let front = other.drop_last();
        assert forall|i: int| 0 <= i < front.len() implies (
        #[trigger] front[i]).value.ordered() by {
            assert(front[i] == other[i]);
        }
        lemma_mixin_ordered(this, front);
        lemma_mixin_one_ordered(mixin(this, front), other.last());
    }
}

/// A sorted store of well-formed members stays one when a well-formed member
/// is merged into it.
pub proof fn lemma_mixin_one_wf(this: Seq<Member>, other: Member)
    requires
        sorted(this),
        all_wf(this),
        valid_utf8(other.key),
        other.value.wf(),
    ensures
        sorted(mixin_one(this, other)),
        all_wf(mixin_one(this, other)),
    decreases other, 0int,
{
    let at = slot(this, other.key);
    let after = mixin_one(this, other);
    lemma_slot_bounds(this, other.key);
    if !has_key(this, other.key) {
        lemma_upsert_sorted(this, other.key, other.value);
        assert(after == upsert(this, other.key, other.value));
        assert forall|i: int| 0 <= i < after.len() implies valid_utf8((#[trigger] after[i]).key)
            && after[i].value.wf() by {
            if i < at {
                assert(after[i] == this[i]);
            } else if i > at {
                assert(after[i] == this[i - 1]);
            }
        }
    } else {
        match (this[at].value, other.value) {
            (Doc::Object(mine), Doc::Object(theirs)) => {
                assert(this[at].value.wf());
                lemma_mixin_wf(mine, theirs);
            },
            _ => {},
        }
        assert forall|i: int| 0 <= i < after.len() implies valid_utf8((#[trigger] after[i]).key)
            && after[i].value.wf() by {
            if i != at {
                assert(after[i] == this[i]);
            }
        }
        assert forall|i: int, j: int| 0 <= i < j < after.len() implies bytes_lt(
            (#[trigger] after[i]).key,
            (#[trigger] after[j]).key,
        ) by {
            assert(after[i].key == this[i].key);
            assert(after[j].key == this[j].key);
        }
    }
}

/// A sorted store of well-formed members stays one when well-formed members
/// are merged into it.
pub proof fn lemma_mixin_wf(this: Seq<Member>, other: Seq<Member>)
    requires
        sorted(this),
        all_wf(this),
        all_wf(other),
    ensures
        sorted(mixin(this, other)),
        all_wf(mixin(this, other)),
    decreases other, 1int,
{
    if other.len() > 0 {
        let front = other.drop_last();
        assert forall|i: int| 0 <= i < front.len() implies valid_utf8((#[trigger] front[i]).key)
            && front[i].value.wf() by {
            assert(front[i] == other[i]);
        }
        lemma_mixin_wf(this, front);
        lemma_mixin_one_wf(mixin(this, front), other.last());
    }
}

/// Merges the members of `other` into the sorted store `this`, one after the
/// other: a member with a new key goes to its key's place; where both hold
/// an object under one key the two are merged in turn; anything else that
/// `this` holds under the key is replaced.
pub fn mixin_into(this: &mut Vec<Property>, other: &Vec<Property>)
    requires
        sorted(members(old(this)@)),
        all_ordered(members(old(this)@)),
        all_ordered(members(other@)),
    ensures
        members(final(this)@) == mixin(members(old(this)@), members(other@)),
        sorted(members(final(this)@)),
        all_ordered(members(final(this)@)),
        all_wf(members(old(this)@)) && all_wf(members(other@)) ==> all_wf(
            members(final(this)@),
        ),
    decreases other,
{
    let ghost start = members(this@);
    let ghost all = members(other@);
    proof {
        if all_wf(start) && all_wf(all) {
            lemma_mixin_wf(start, all);
        }
    }
    let mut i: usize = 0;
    assert(all.subrange(0, 0) =~= Seq::<Member>::empty());
    while i < other.len()
        invariant
            i <= other.len(),
            all == members(other@),
            all_ordered(all),
            sorted(start),
            all_ordered(start),
            members(this@) == mixin(start, all.subrange(0, i as int)),
            sorted(members(this@)),
            all_ordered(members(this@)),
        decreases other.len() - i,
    {
        let ghost before = members(this@);
        let ghost now = all.subrange(0, i + 1);
        proof {
            assert(now.drop_last() =~= all.subrange(0, i as int));
            assert(now.last() == other[i as int]@);
            assert(all[i as int] == other[i as int]@);
            lemma_mixin_one_ordered(before, other[i as int]@);
            lemma_slot_bounds(before, other[i as int]@.key);
        }
        let o = &other[i];
        assert(decreases_to!(*other => other[i as int]));
        match find(this, o.key.as_str()) {
            Err(at) => {
                this.insert(at, o.clone());
                assert(members(this@) =~= before.insert(at as int, o@));
            },
            Ok(at) => {
                assert(before[at as int] == this[at as int]@);
                let merged: Option<Vec<Property>> = match (&this[at].value, &o.value) {
                    (Json::Object(mine), Json::Object(theirs)) => {
                        let mut inner: Vec<Property> = copy_members(mine);
                        mixin_into(&mut inner, theirs);
                        Some(inner)
                    },
                    _ => None,
                };
                match merged {
                    Some(inner) => {
                        let key = o.key.clone();
                        this[at] = Property::new(key, Json::Object(inner));
                    },
                    None => {
                        this[at] = o.clone();
                    },
                }
                assert(members(this@) =~= mixin_one(before, o@));
            },
        }
        i = i + 1;
    }
    assert(all.subrange(0, other.len() as int) =~= all);
}

/// The sorted store `this` with the members of `other` merged into it.
pub fn mixin_object(this: Vec<Property>, other: Vec<Property>) -> (r: Vec<Property>)
    requires
        sorted(members(this@)),
        all_ordered(members(this@)),
        all_ordered(members(other@)),
    ensures
        members(r@) == mixin(members(this@), members(other@)),
        sorted(members(r@)),
        all_ordered(members(r@)),
        all_wf(members(this@)) && all_wf(members(other@)) ==> all_wf(members(r@)),
{
    let mut this = this;
    mixin_into(&mut this, &other);
    this
}

} // verus!
