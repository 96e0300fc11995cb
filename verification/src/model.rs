//! The mathematical model of a document: what a value tree stands for in
//! contracts, and when it is well-formed.

use vstd::prelude::*;
use vstd::utf8::valid_utf8;
use crate::ascii::{is_digit, is_float_mark, is_number_byte, is_sign, LOWER_E, POINT, UPPER_E};
use crate::order::{bytes_lt, lemma_lt_irreflexive, lemma_lt_total, lemma_lt_transitive};

verus! {

/// A document. Text is held as its UTF-8 bytes, a float as the bytes it is
/// written with, and the members of an object in the order of the store.
pub ghost enum Doc {
    Null,
    Bool(bool),
    Integer(int),
    Float(Seq<u8>),
    Text(Seq<u8>),
    Array(Seq<Doc>),
    Object(Seq<Member>),
}

/// One member of an object: a key and the value under it.
pub ghost struct Member {
    pub key: Seq<u8>,
    pub value: Doc,
}

/// The first index at or after `i` that holds no digit.
pub open spec fn digits_end(s: Seq<u8>, i: int) -> int
    decreases s.len() - i,
{
    if 0 <= i < s.len() && is_digit(s[i]) {
        digits_end(s, i + 1)
    } else {
        i
    }
}

/// The grammar of a float: an optional sign; digits with at most one point
/// among, before or behind them, one digit at least; and optionally an
/// exponent, `e` or `E`, an optional sign and one digit at least.
pub open spec fn is_float_syntax(s: Seq<u8>) -> bool {
    let a: int = if s.len() > 0 && is_sign(s[0]) { 1 } else { 0 };
    let b = digits_end(s, a);
    let pointed = b < s.len() && s[b] == POINT;
    let d = if pointed { digits_end(s, b + 1) } else { b };
    let digits = if pointed { d - a - 1 } else { d - a };
    let scaled = d < s.len() && (s[d] == LOWER_E || s[d] == UPPER_E);
    if digits < 1 {
        false
    } else if !scaled {
        d == s.len()
    } else {
        let f = if d + 1 < s.len() && is_sign(s[d + 1]) { d + 2 } else { d + 1 };
        let g = digits_end(s, f);
        g > f && g == s.len()
    }
}

/// The run holds a point or the letter of an exponent.
pub open spec fn has_float_mark(s: Seq<u8>) -> bool {
    exists|i: int| 0 <= i < s.len() && is_float_mark(#[trigger] s[i])
}

/// A number may be written with every byte of the run.
pub open spec fn all_number_bytes(s: Seq<u8>) -> bool {
    forall|i: int| 0 <= i < s.len() ==> is_number_byte(#[trigger] s[i])
}

/// What a float is held as: bytes in the grammar of a float that hold a point
/// or an exponent.
pub open spec fn is_float_lexeme(s: Seq<u8>) -> bool {
    is_float_syntax(s) && has_float_mark(s)
}

/// The keys stand in strictly increasing order, so none occurs twice.
pub open spec fn sorted(members: Seq<Member>) -> bool {
    forall|i: int, j: int|
        0 <= i < j < members.len() ==> bytes_lt(
            (#[trigger] members[i]).key,
            (#[trigger] members[j]).key,
        )
}

/// The place of `key` in a sorted store: the number of members whose key comes before it.
pub open spec fn slot(members: Seq<Member>, key: Seq<u8>) -> int
    decreases members.len(),
{
    if members.len() == 0 || !bytes_lt(members[0].key, key) {
        0
    } else {
        1 + slot(members.drop_first(), key)
    }
}

/// The store holds `key`.
pub open spec fn has_key(members: Seq<Member>, key: Seq<u8>) -> bool {
    let at = slot(members, key);
    at < members.len() && members[at].key == key
}

/// The store after `value` is put under `key`: in place of the member with
/// that key, or else at the key's place in the order.
pub open spec fn upsert(members: Seq<Member>, key: Seq<u8>, value: Doc) -> Seq<Member> {
    let at = slot(members, key);
    if has_key(members, key) {
        members.update(at, Member { key, value })
    } else {
        members.insert(at, Member { key, value })
    }
}

/// The store after each of `more` is put into it, first to last.
pub open spec fn upsert_all(members: Seq<Member>, more: Seq<Member>) -> Seq<Member>
    decreases more.len(),
{
    if more.len() == 0 {
        members
    } else {
        upsert(upsert_all(members, more.drop_last()), more.last().key, more.last().value)
    }
}

impl Doc {
    /// Whatever the document holds as text is UTF-8.
    pub open spec fn is_text(self) -> bool
        decreases self,
    {
        match self {
            Doc::Float(t) => valid_utf8(t),
            Doc::Text(t) => valid_utf8(t),
            Doc::Array(items) => forall|i: int|
                0 <= i < items.len() ==> (#[trigger] items[i]).is_text(),
            Doc::Object(members) => forall|i: int|
                0 <= i < members.len() ==> valid_utf8((#[trigger] members[i]).key)
                    && members[i].value.is_text(),
            _ => true,
        }
    }

    /// The members of every object in the document are sorted by key.
    pub open spec fn ordered(self) -> bool
        decreases self,
    {
        match self {
            Doc::Array(items) => forall|i: int|
                0 <= i < items.len() ==> (#[trigger] items[i]).ordered(),
            Doc::Object(members) => sorted(members) && forall|i: int|
                0 <= i < members.len() ==> (#[trigger] members[i]).value.ordered(),
            _ => true,
        }
    }

    /// Integers fit 128 bits, text is UTF-8, floats are float lexemes and the
    /// members of every object are sorted by key.
    pub open spec fn wf(self) -> bool
        decreases self,
    {
        match self {
            Doc::Integer(n) => i128::MIN <= n <= i128::MAX,
            Doc::Float(t) => is_float_lexeme(t),
            Doc::Text(t) => valid_utf8(t),
            Doc::Array(items) => forall|i: int| 0 <= i < items.len() ==> (#[trigger] items[i]).wf(),
            Doc::Object(members) => sorted(members) && forall|i: int|
                0 <= i < members.len() ==> valid_utf8((#[trigger] members[i]).key)
                    && members[i].value.wf(),
            _ => true,
        }
    }
}

/// Every member of a store has a UTF-8 key and a well-formed value.
pub open spec fn all_wf(members: Seq<Member>) -> bool {
    forall|i: int|
        0 <= i < members.len() ==> valid_utf8((#[trigger] members[i]).key) && members[i].value.wf()
}

/// In the value of every member of a store the members of every object are
/// sorted by key.
pub open spec fn all_ordered(members: Seq<Member>) -> bool {
    forall|i: int| 0 <= i < members.len() ==> (#[trigger] members[i]).value.ordered()
}

/// In a well-formed document the members of every object are sorted.
pub proof fn lemma_wf_ordered(d: Doc)
    requires
        d.wf(),
    ensures
        d.ordered(),
    decreases d,
{
    match d {
        Doc::Array(items) => {
            assert forall|i: int| 0 <= i < items.len() implies (#[trigger] items[i]).ordered() by {
                lemma_wf_ordered(items[i]);
            }
        },
        Doc::Object(members) => {
            assert forall|i: int| 0 <= i < members.len() implies (
            #[trigger] members[i]).value.ordered() by {
                lemma_wf_ordered(members[i].value);
            }
        },
        _ => {},
    }
}

/// A run of digits ends inside the text, behind digits only and before a
/// byte that is no digit.
pub proof fn lemma_digits_end(s: Seq<u8>, i: int)
    requires
        0 <= i <= s.len(),
    ensures
        i <= digits_end(s, i) <= s.len(),
        forall|k: int| i <= k < digits_end(s, i) ==> is_digit(#[trigger] s[k]),
        digits_end(s, i) < s.len() ==> !is_digit(s[digits_end(s, i)]),
    decreases s.len() - i,
{
    if i < s.len() && is_digit(s[i]) {
        lemma_digits_end(s, i + 1);
    }
}

/// A float is written with number bytes only.
pub proof fn lemma_float_syntax_bytes(s: Seq<u8>)
    requires
        is_float_syntax(s),
    ensures
        all_number_bytes(s),
        s.len() >= 1,
{
    let a: int = if s.len() > 0 && is_sign(s[0]) { 1 } else { 0 };
    lemma_digits_end(s, a);
    let b = digits_end(s, a);
    let pointed = b < s.len() && s[b] == POINT;
    if pointed {
        lemma_digits_end(s, b + 1);
    }
    let d = if pointed { digits_end(s, b + 1) } else { b };
    let scaled = d < s.len() && (s[d] == LOWER_E || s[d] == UPPER_E);
    if scaled {
        let f = if d + 1 < s.len() && is_sign(s[d + 1]) { d + 2 } else { d + 1 };
        lemma_digits_end(s, f);
    }
    assert forall|i: int| 0 <= i < s.len() implies is_number_byte(#[trigger] s[i]) by {
        if i < a {
        } else if i < b {
        } else if i < d {
        } else {
        }
    }
}

/// The place of a key is an index of the store or its length.
pub proof fn lemma_slot_bounds(members: Seq<Member>, key: Seq<u8>)
    ensures
        0 <= slot(members, key) <= members.len(),
    decreases members.len(),
{
    if members.len() == 0 || !bytes_lt(members[0].key, key) {
    } else {
        lemma_slot_bounds(members.drop_first(), key);
    }
}

/// In a sorted store the place of a key is the one index with only smaller
/// keys before it and no smaller key at or after it.
pub proof fn lemma_slot_is(members: Seq<Member>, key: Seq<u8>, at: int)
    requires
        0 <= at <= members.len(),
        forall|i: int| 0 <= i < at ==> bytes_lt((#[trigger] members[i]).key, key),
        at < members.len() ==> !bytes_lt(members[at].key, key),
    ensures
        slot(members, key) == at,
    decreases members.len(),
{
    if at == 0 {
    } else {
        assert(bytes_lt(members[0].key, key));
        let rest = members.drop_first();
        assert forall|i: int| 0 <= i < at - 1 implies bytes_lt((#[trigger] rest[i]).key, key) by {
            assert(rest[i] == members[i + 1]);
        }
        lemma_slot_is(rest, key, at - 1);
    }
}

/// What the place of a key says about a sorted store.
pub proof fn lemma_slot_splits(members: Seq<Member>, key: Seq<u8>)
    requires
        sorted(members),
    ensures
        0 <= slot(members, key) <= members.len(),
        forall|i: int| 0 <= i < slot(members, key) ==> bytes_lt((#[trigger] members[i]).key, key),
        forall|i: int|
            slot(members, key) <= i < members.len() ==> !bytes_lt(
                (#[trigger] members[i]).key,
                key,
            ),
        forall|i: int|
            0 <= i < members.len() && (#[trigger] members[i]).key == key ==> i == slot(
                members,
                key,
            ),
    decreases members.len(),
{
    if members.len() == 0 {
    } else if !bytes_lt(members[0].key, key) {
        assert forall|i: int| 0 <= i < members.len() implies !bytes_lt(
            (#[trigger] members[i]).key,
            key,
        ) by {
            if i > 0 && bytes_lt(members[i].key, key) {
                lemma_lt_transitive(members[0].key, members[i].key, key);
            }
        }
        assert forall|i: int| 0 <= i < members.len() && (#[trigger] members[i]).key == key implies i
            == 0 by {
            if i > 0 {
                assert(bytes_lt(members[0].key, members[i].key));
            }
        }
    } else {
        let rest = members.drop_first();
        assert(sorted(rest)) by {
            assert forall|i: int, j: int| 0 <= i < j < rest.len() implies bytes_lt(
                (#[trigger] rest[i]).key,
                (#[trigger] rest[j]).key,
            ) by {
                assert(rest[i] == members[i + 1]);
                assert(rest[j] == members[j + 1]);
            }
        }
        lemma_slot_splits(rest, key);
        let at = slot(members, key);
        assert forall|i: int| 0 <= i < at implies bytes_lt((#[trigger] members[i]).key, key) by {
            if i > 0 {
                assert(members[i] == rest[i - 1]);
            }
        }
        assert forall|i: int| at <= i < members.len() implies !bytes_lt(
            (#[trigger] members[i]).key,
            key,
        ) by {
            assert(members[i] == rest[i - 1]);
        }
        assert forall|i: int| 0 <= i < members.len() && (#[trigger] members[i]).key == key implies i
            == at by {
            if i == 0 {
                lemma_lt_irreflexive(key);
            } else {
                assert(members[i] == rest[i - 1]);
            }
        }
    }
}

/// Putting a member into a sorted store leaves it sorted.
pub proof fn lemma_upsert_sorted(members: Seq<Member>, key: Seq<u8>, value: Doc)
    requires
        sorted(members),
    ensures
        sorted(upsert(members, key, value)),
        has_key(upsert(members, key, value), key),
        upsert(members, key, value)[slot(members, key)] == (Member { key, value }),
        slot(upsert(members, key, value), key) == slot(members, key),
        upsert(members, key, value).len() == members.len() + if has_key(members, key) {
            0int
        } else {
            1int
        },
{
    lemma_slot_splits(members, key);
    let at = slot(members, key);
    let after = upsert(members, key, value);
    assert forall|i: int, j: int| 0 <= i < j < after.len() implies bytes_lt(
        (#[trigger] after[i]).key,
        (#[trigger] after[j]).key,
    ) by {
        if has_key(members, key) {
            assert(after[i].key == members[i].key);
            assert(after[j].key == members[j].key);
        } else {
            let oi = if i < at { i } else { i - 1 };
            let oj = if j < at { j } else { j - 1 };
            if i == at {
                assert(after[j] == members[oj]);
                lemma_lt_total(members[oj].key, key);
            } else if j == at {
                assert(after[i] == members[oi]);
            } else {
                assert(after[i] == members[oi]);
                assert(after[j] == members[oj]);
            }
        }
    }
    lemma_lt_irreflexive(key);
    assert forall|i: int| 0 <= i < at implies bytes_lt((#[trigger] after[i]).key, key) by {
        assert(after[i].key == members[i].key);
    }
    lemma_slot_is(after, key, at);
}

/// Every member of a store after a put is the new member or was there before.
pub proof fn lemma_upsert_values(members: Seq<Member>, key: Seq<u8>, value: Doc)
    ensures
        forall|i: int|
            0 <= i < upsert(members, key, value).len() ==> (#[trigger] upsert(
                members,
                key,
                value,
            )[i]) == (Member { key, value }) || exists|j: int|
                0 <= j < members.len() && members[j] == upsert(members, key, value)[i],
{
    lemma_slot_bounds(members, key);
    let at = slot(members, key);
    let after = upsert(members, key, value);
    assert forall|i: int| 0 <= i < after.len() implies (#[trigger] after[i]) == (Member {
        key,
        value,
    }) || exists|j: int| 0 <= j < members.len() && members[j] == after[i] by {
        if i != at {
            if has_key(members, key) {
                assert(members[i] == after[i]);
            } else if i < at {
                assert(members[i] == after[i]);
            } else {
                assert(members[i - 1] == after[i]);
            }
        }
    }
}

} // verus!
