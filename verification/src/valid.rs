//! Telling whether a value tree is well-formed.

use vstd::prelude::*;
use vstd::utf8::encode_utf8_valid_utf8;
use crate::ascii::{byte_is_float_mark, is_float_mark};
use crate::json::{docs, members, Json, Property};
use crate::model::{is_float_lexeme, sorted, Doc, Member};
use crate::order::{bytes_lt, compare, lemma_lt_transitive, Side};
use crate::scan::float_syntax;
use crate::utf8::bytes_of;

verus! {

/// Keys of which each comes before the next are sorted.
pub proof fn lemma_neighbours_sorted(members: Seq<Member>)
    requires
        forall|i: int|
            0 <= i < members.len() - 1 ==> bytes_lt(
                (#[trigger] members[i]).key,
                members[i + 1].key,
            ),
    ensures
        sorted(members),
{
    assert forall|i: int, j: int| 0 <= i < j < members.len() implies bytes_lt(
        (#[trigger] members[i]).key,
        (#[trigger] members[j]).key,
    ) by {
        lemma_neighbours_reach(members, i, j);
    }
}

proof fn lemma_neighbours_reach(members: Seq<Member>, i: int, j: int)
    requires
        0 <= i < j < members.len(),
        forall|i: int|
            0 <= i < members.len() - 1 ==> bytes_lt(
                (#[trigger] members[i]).key,
                members[i + 1].key,
            ),
    ensures
        bytes_lt(members[i].key, members[j].key),
    decreases j - i,
{
    if j > i + 1 {
        lemma_neighbours_reach(members, i, j - 1);
        assert(bytes_lt(members[j - 1].key, members[j - 1 + 1].key));
        lemma_lt_transitive(members[i].key, members[j - 1].key, members[j].key);
    }
}

/// Whether the text is what a float is held as.
pub fn float_lexeme(t: &str) -> (r: bool)
    ensures
        r == is_float_lexeme(bytes_of(t@)),
{
    let bytes = t.as_bytes();
    let mut marked: bool = false;
    let mut i: usize = 0;
    while i < bytes.len()
        invariant
            i <= bytes.len(),
            marked == exists|k: int| 0 <= k < i && is_float_mark(#[trigger] bytes@[k]),
        decreases bytes.len() - i,
    {
        if byte_is_float_mark(bytes[i]) {
            marked = true;
        }
        i = i + 1;
    }
    marked && float_syntax(bytes)
}

/// Whether the members of a store stand in the order of their keys.
pub fn is_sorted(props: &Vec<Property>) -> (r: bool)
    ensures
        r == sorted(members(props@)),
{
    let ghost m = members(props@);
    let mut i: usize = 1;
    while i < props.len()
        invariant
            1 <= i,
            m == members(props@),
            forall|k: int| 0 <= k < i - 1 && k < m.len() - 1 ==> bytes_lt(
                (#[trigger] m[k]).key,
                m[k + 1].key,
            ),
        decreases props.len() - i,
    {
        let side = compare(
            props[i - 1].key.as_str().as_bytes(),
            props[i].key.as_str().as_bytes(),
        );
        assert(m[i - 1].key == bytes_of(props[i - 1].key@));
        assert(m[i as int].key == bytes_of(props[i as int].key@));
        if side != Side::Before {
            return false;
        }
        i = i + 1;
    }
    proof {
        lemma_neighbours_sorted(m);
    }
    true
}

impl Json {
    /// Whether the members of every object in the value are sorted by key.
    pub fn is_ordered(&self) -> (r: bool)
        ensures
            r == self@.ordered(),
        decreases self,
    {
        match self {
            Json::Array(items) => {
                let mut i: usize = 0;
                while i < items.len()
                    invariant
                        i <= items.len(),
                        self is Array,
                        self->Array_0 == *items,
                        forall|k: int| 0 <= k < i ==> (#[trigger] docs(items@)[k]).ordered(),
                    decreases items.len() - i,
                {
                    assert(decreases_to!(*items => items[i as int]));
                    if !items[i].is_ordered() {
                        assert(!Doc::Array(docs(items@)).ordered()) by {
                            let d = docs(items@);
                            assert(!d[i as int].ordered());
                            if Doc::Array(d).ordered() {
                                assert(Doc::Array(d)->Array_0[i as int].ordered());
                            }
                        }
                        return false;
                    }
                    i = i + 1;
                }
                assert(Doc::Array(docs(items@)).ordered());
                true
            },
            Json::Object(props) => {
                if !is_sorted(props) {
                    assert(!Doc::Object(members(props@)).ordered());
                    return false;
                }
                let mut i: usize = 0;
                while i < props.len()
                    invariant
                        i <= props.len(),
                        self is Object,
                        self->Object_0 == *props,
                        sorted(members(props@)),
                        forall|k: int|
                            0 <= k < i ==> (#[trigger] members(props@)[k]).value.ordered(),
                    decreases props.len() - i,
                {
                    assert(decreases_to!(*props => props[i as int]));
                    if !props[i].value.is_ordered() {
                        assert(!members(props@)[i as int].value.ordered());
                        assert(!Doc::Object(members(props@)).ordered());
                        return false;
                    }
                    i = i + 1;
                }
                assert(Doc::Object(members(props@)).ordered());
                true
            },
            _ => true,
        }
    }

    /// Whether the value is well-formed: every float in it is held as the
    /// text of a float, and the members of every object in it are sorted.
    pub fn is_valid(&self) -> (r: bool)
        ensures
            r == self@.wf(),
        decreases self,
    {
        match self {
            Json::Float(t) => {
                assert(self@.wf() == is_float_lexeme(bytes_of(t@)));
                float_lexeme(t.as_str())
            },
            Json::String(t) => {
                proof {
                    encode_utf8_valid_utf8(t@);
                }
                true
            },
            Json::Array(items) => {
                let mut i: usize = 0;
                while i < items.len()
                    invariant
                        i <= items.len(),
                        self is Array,
                        self->Array_0 == *items,
                        forall|k: int| 0 <= k < i ==> (#[trigger] docs(items@)[k]).wf(),
                    decreases items.len() - i,
                {
                    assert(decreases_to!(*items => items[i as int]));
                    if !items[i].is_valid() {
                        assert(!Doc::Array(docs(items@)).wf()) by {
                            let d = docs(items@);
                            assert(!d[i as int].wf());
                            if Doc::Array(d).wf() {
                                assert(Doc::Array(d)->Array_0[i as int].wf());
                            }
                        }
                        return false;
                    }
                    i = i + 1;
                }
                assert(Doc::Array(docs(items@)).wf());
                true
            },
            Json::Object(props) => {
                if !is_sorted(props) {
                    assert(!Doc::Object(members(props@)).wf());
                    return false;
                }
                let mut i: usize = 0;
                while i < props.len()
                    invariant
                        i <= props.len(),
                        self is Object,
                        self->Object_0 == *props,
                        sorted(members(props@)),
                        forall|k: int| 0 <= k < i ==> (#[trigger] members(props@)[k]).value.wf(),
                    decreases props.len() - i,
                {
                    assert(decreases_to!(*props => props[i as int]));
                    if !props[i].value.is_valid() {
                        assert(!members(props@)[i as int].value.wf());
                        assert(!Doc::Object(members(props@)).wf());
                        return false;
                    }
                    i = i + 1;
                }
                proof {
                    assert forall|k: int| 0 <= k < props.len() implies vstd::utf8::valid_utf8(
                        (#[trigger] members(props@)[k]).key,
                    ) by {
                        encode_utf8_valid_utf8(props[k].key@);
                    }
                    assert(Doc::Object(members(props@)).wf());
                }
                true
            },
            _ => true,
        }
    }
}

} // verus!
