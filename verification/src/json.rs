//! The value tree: the seven kinds of JSON value, and what each stands for.

use vstd::prelude::*;
use crate::model::{Doc, Member};
use crate::utf8::{bytes_of, lemma_bytes_tell_chars};

verus! {

/// A JSON value. A float is held as the text it is written with, so that no
/// digit is lost between reading and writing; an object holds its members
/// sorted by key.
#[derive(Debug)]
pub enum Json {
    Null,
    Bool(bool),
    Integer(i128),
    Float(String),
    String(String),
    Array(Vec<Json>),
    Object(Vec<Property>),
}

/// One member of an object.
#[derive(Debug)]
pub struct Property {
    pub key: String,
    pub value: Json,
}

/// The kind of a value.
#[derive(Debug, Clone, Copy, PartialEq, Eq, Structural)]
pub enum Doctype {
    Null,
    Bool,
    Integer,
    Float,
    String,
    Array,
    Object,
}

/// What each of a run of values stands for.
pub open spec fn docs(items: Seq<Json>) -> Seq<Doc>
    decreases items,
{
    Seq::new(
        items.len(),
        |i: int|
            if 0 <= i < items.len() {
                items[i]@
            } else {
                Doc::Null
            },
    )
}

/// What each of a run of members stands for.
pub open spec fn members(props: Seq<Property>) -> Seq<Member>
    decreases props,
{
    Seq::new(
        props.len(),
        |i: int|
            if 0 <= i < props.len() {
                Member { key: bytes_of(props[i].key@), value: props[i].value@ }
            } else {
                Member { key: Seq::empty(), value: Doc::Null }
            },
    )
}

impl View for Json {
    type V = Doc;

    open spec fn view(&self) -> Doc
        decreases self,
    {
        match self {
            Json::Null => Doc::Null,
            Json::Bool(b) => Doc::Bool(*b),
            Json::Integer(n) => Doc::Integer(*n as int),
            Json::Float(t) => Doc::Float(bytes_of(t@)),
            Json::String(t) => Doc::Text(bytes_of(t@)),
            Json::Array(items) => Doc::Array(docs(items@)),
            Json::Object(props) => Doc::Object(members(props@)),
        }
    }
}

impl View for Property {
    type V = Member;

    open spec fn view(&self) -> Member {
        Member { key: bytes_of(self.key@), value: self.value@ }
    }
}

/// Whether two strings hold the same text.
pub fn same_text(a: &String, b: &String) -> (r: bool)
    ensures
        r == (bytes_of(a@) == bytes_of(b@)),
{
    proof {
        if bytes_of(a@) == bytes_of(b@) {
            lemma_bytes_tell_chars(a@, b@);
        }
    }
    *a == *b
}

impl Json {
    /// Whether two values stand for the same document.
    pub fn same(&self, other: &Json) -> (r: bool)
        ensures
            r == (self@ == other@),
        decreases self,
    {
        match (self, other) {
            (Json::Null, Json::Null) => true,
            (Json::Bool(a), Json::Bool(b)) => *a == *b,
            (Json::Integer(a), Json::Integer(b)) => *a == *b,
            (Json::Float(a), Json::Float(b)) => same_text(a, b),
            (Json::String(a), Json::String(b)) => same_text(a, b),
            (Json::Array(a), Json::Array(b)) => {
                if a.len() != b.len() {
                    assert(docs(a@).len() != docs(b@).len());
                    return false;
                }
                let mut i: usize = 0;
                while i < a.len()
                    invariant
                        i <= a.len(),
                        a.len() == b.len(),
                        self is Array,
                        self->Array_0 == *a,
                        other is Array,
                        other->Array_0 == *b,
                        forall|k: int| 0 <= k < i ==> a[k]@ == b[k]@,
                    decreases a.len() - i,
                {
                    assert(decreases_to!(*a => a[i as int]));
                    if !a[i].same(&b[i]) {
                        assert(docs(a@)[i as int] != docs(b@)[i as int]);
                        return false;
                    }
                    i = i + 1;
                }
                assert(docs(a@) =~= docs(b@));
                true
            },
            (Json::Object(a), Json::Object(b)) => {
                if a.len() != b.len() {
                    assert(members(a@).len() != members(b@).len());
                    return false;
                }
                let mut i: usize = 0;
                while i < a.len()
                    invariant
                        i <= a.len(),
                        a.len() == b.len(),
                        self is Object,
                        self->Object_0 == *a,
                        other is Object,
                        other->Object_0 == *b,
                        forall|k: int| 0 <= k < i ==> a[k]@ == b[k]@,
                    decreases a.len() - i,
                {
                    assert(decreases_to!(*a => a[i as int]));
                    if !same_text(&a[i].key, &b[i].key) || !a[i].value.same(&b[i].value) {
                        assert(members(a@)[i as int] != members(b@)[i as int]);
                        return false;
                    }
                    i = i + 1;
                }
                assert(members(a@) =~= members(b@));
                true
            },
            _ => false,
        }
    }

    /// The kind of the value.
    pub fn doctype(&self) -> (r: Doctype)
        ensures
            r == self@.kind(),
    {
        match self {
            Json::Null => Doctype::Null,
            Json::Bool(_) => Doctype::Bool,
            Json::Integer(_) => Doctype::Integer,
            Json::Float(_) => Doctype::Float,
            Json::String(_) => Doctype::String,
            Json::Array(_) => Doctype::Array,
            Json::Object(_) => Doctype::Object,
        }
    }

    /// The size of the value: the bytes of a string, the items of an array,
    /// the members of an object, nothing for null; the other kinds have none.
    pub fn len(&self) -> (r: Option<usize>)
        ensures
            r is Some <==> self@.size() is Some,
            r is Some ==> r.unwrap() == self@.size().unwrap(),
    {
        match self {
            Json::String(s) => Some(s.as_str().as_bytes().len()),
            Json::Array(a) => Some(a.len()),
            Json::Object(o) => Some(o.len()),
            Json::Null => Some(0),
            _ => None,
        }
    }

    /// How the value counts as a condition: null and `false` do not hold,
    /// every other value does.
    pub fn truth(&self) -> (r: bool)
        ensures
            r == self@.holds(),
    {
        match self {
            Json::Null => false,
            Json::Bool(false) => false,
            _ => true,
        }
    }

    /// The null value.
    pub fn null() -> (r: Json)
        ensures
            r@ == Doc::Null,
    {
        Json::Null
    }

    /// The boolean of a value that is one.
    pub fn boolean(self) -> (r: Option<bool>)
        ensures
            r == (if let Json::Bool(b) = self { Some(b) } else { None::<bool> }),
    {
        match self {
            Json::Bool(b) => Some(b),
            _ => None,
        }
    }

    /// The text of a string, by reference.
    pub fn string_ref(&self) -> (r: Option<&String>)
        ensures
            r == (if let Json::String(s) = self { Some(s) } else { None::<&String> }),
    {
        match self {
            Json::String(s) => Some(s),
            _ => None,
        }
    }

    /// The text of a string.
    pub fn string(self) -> (r: Option<String>)
        ensures
            r == (if let Json::String(s) = self { Some(s) } else { None::<String> }),
    {
        match self {
            Json::String(s) => Some(s),
            _ => None,
        }
    }

    /// The integer of a value that is one.
    pub fn integer(self) -> (r: Option<i128>)
        ensures
            r == (if let Json::Integer(n) = self { Some(n) } else { None::<i128> }),
    {
        match self {
            Json::Integer(n) => Some(n),
            _ => None,
        }
    }

    /// The text of a float.
    pub fn float(self) -> (r: Option<String>)
        ensures
            r == (if let Json::Float(t) = self { Some(t) } else { None::<String> }),
    {
        match self {
            Json::Float(t) => Some(t),
            _ => None,
        }
    }

    /// The items of an array, by reference.
    pub fn array_ref(&self) -> (r: Option<&Vec<Json>>)
        ensures
            r == (if let Json::Array(a) = self { Some(a) } else { None::<&Vec<Json>> }),
    {
        match self {
            Json::Array(a) => Some(a),
            _ => None,
        }
    }

    /// The items of an array.
    pub fn array(self) -> (r: Option<Vec<Json>>)
        ensures
            r == (if let Json::Array(a) = self { Some(a) } else { None::<Vec<Json>> }),
    {
        match self {
            Json::Array(a) => Some(a),
            _ => None,
        }
    }

    /// The members of an object, by reference.
    pub fn object_ref(&self) -> (r: Option<&Vec<Property>>)
        ensures
            r == (if let Json::Object(o) = self { Some(o) } else { None::<&Vec<Property>> }),
    {
        match self {
            Json::Object(o) => Some(o),
            _ => None,
        }
    }

    /// The members of an object.
    pub fn object(self) -> (r: Option<Vec<Property>>)
        ensures
            r == (if let Json::Object(o) = self { Some(o) } else { None::<Vec<Property>> }),
    {
        match self {
            Json::Object(o) => Some(o),
            _ => None,
        }
    }
}

impl Doc {
    /// The kind of the document.
    pub open spec fn kind(self) -> Doctype {
        match self {
            Doc::Null => Doctype::Null,
            Doc::Bool(_) => Doctype::Bool,
            Doc::Integer(_) => Doctype::Integer,
            Doc::Float(_) => Doctype::Float,
            Doc::Text(_) => Doctype::String,
            Doc::Array(_) => Doctype::Array,
            Doc::Object(_) => Doctype::Object,
        }
    }

    /// The size of the document: the bytes of a text, the items of an array,
    /// the members of an object, nothing for null; the other kinds have none.
    pub open spec fn size(self) -> Option<int> {
        match self {
            Doc::Text(t) => Some(t.len() as int),
            Doc::Array(items) => Some(items.len() as int),
            Doc::Object(members) => Some(members.len() as int),
            Doc::Null => Some(0),
            _ => None,
        }
    }

    /// How the document counts as a condition: all but null and `false` hold.
    pub open spec fn holds(self) -> bool {
        !(self == Doc::Null || self == Doc::Bool(false))
    }
}

impl Clone for Json {
    fn clone(&self) -> (r: Json)
        ensures
            r@ == self@,
        decreases self,
    {
        match self {
            Json::Null => Json::Null,
            Json::Bool(b) => Json::Bool(*b),
            Json::Integer(n) => Json::Integer(*n),
            Json::Float(t) => Json::Float(t.clone()),
            Json::String(t) => Json::String(t.clone()),
            Json::Array(items) => {
                let mut out: Vec<Json> = Vec::new();
                let mut i: usize = 0;
                while i < items.len()
                    invariant
                        i <= items.len(),
                        out.len() == i,
                        self is Array,
                        self->Array_0 == *items,
                        forall|k: int| 0 <= k < i ==> out[k]@ == items[k]@,
                    decreases items.len() - i,
                {
                    assert(decreases_to!(*items => items[i as int]));
                    out.push(items[i].clone());
                    i = i + 1;
                }
                assert(docs(out@) =~= docs(items@));
                Json::Array(out)
            },
            Json::Object(props) => {
                let mut out: Vec<Property> = Vec::new();
                let mut i: usize = 0;
                while i < props.len()
                    invariant
                        i <= props.len(),
                        out.len() == i,
                        self is Object,
                        self->Object_0 == *props,
                        forall|k: int| 0 <= k < i ==> out[k]@ == props[k]@,
                    decreases props.len() - i,
                {
                    assert(decreases_to!(*props => props[i as int]));
                    out.push(Property { key: props[i].key.clone(), value: props[i].value.clone() });
                    i = i + 1;
                }
                assert(members(out@) =~= members(props@));
                Json::Object(out)
            },
        }
    }
}

impl PartialEq for Json {
    fn eq(&self, other: &Json) -> (r: bool) {
        self.same(other)
    }
}

impl vstd::std_specs::cmp::PartialEqSpecImpl for Json {
    open spec fn obeys_eq_spec() -> bool {
        true
    }

    open spec fn eq_spec(&self, other: &Json) -> bool {
        self@ == other@
    }
}

impl PartialEq for Property {
    fn eq(&self, other: &Property) -> (r: bool) {
        same_text(&self.key, &other.key) && self.value.same(&other.value)
    }
}

impl vstd::std_specs::cmp::PartialEqSpecImpl for Property {
    open spec fn obeys_eq_spec() -> bool {
        true
    }

    open spec fn eq_spec(&self, other: &Property) -> bool {
        self@ == other@
    }
}

impl Clone for Property {
    fn clone(&self) -> (r: Property)
        ensures
            r@ == self@,
    {
        Property { key: self.key.clone(), value: self.value.clone() }
    }
}

impl Property {
    /// A member with the given key and value.
    pub fn new(key: String, value: Json) -> (r: Property)
        ensures
            r == (Property { key, value }),
    {
        Property { key, value }
    }

    /// The key, by reference.
    pub fn key_ref(&self) -> (r: &String)
        ensures
            *r == self.key,
    {
        &self.key
    }

    /// The key.
    pub fn key(self) -> (r: String)
        ensures
            r == self.key,
    {
        self.key
    }

    /// The value, by reference.
    pub fn value_ref(&self) -> (r: &Json)
        ensures
            *r == self.value,
    {
        &self.value
    }

    /// The value.
    pub fn value(self) -> (r: Json)
        ensures
            r == self.value,
    {
        self.value
    }

    /// The value, to be changed in place.
    pub fn value_mut(&mut self) -> (r: &mut Json)
        ensures
            *r == old(self).value,
            *final(self) == (Property { key: old(self).key, value: *final(r) }),
    {
        &mut self.value
    }

    /// Puts another value in place of the value.
    pub fn set_value(&mut self, value: Json)
        ensures
            *final(self) == (Property { key: old(self).key, value }),
    {
        self.value = value;
    }
}

} // verus!
