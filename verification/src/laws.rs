//! What holds of the whole engine: laws that relate its operations, proved
//! from their specifications.

use vstd::prelude::*;
use vstd::utf8::{is_char_boundary_iff_not_is_continuation_byte, valid_utf8};
use crate::algebra::lookup;
use crate::ascii::QUOTE;
use crate::error::Failure;
use crate::grammar::{string_body, value_spec, Scan};
use crate::lex::start;
use crate::model::{
    has_key, lemma_slot_splits, lemma_upsert_sorted, slot, sorted, upsert, upsert_all, Doc, Member,
};
use crate::order::{bytes_lt, lemma_lt_irreflexive};
use crate::parse::parse_spec;
use crate::parsed::lemma_value_wf;
use crate::prefix::{lemma_value_grows, starts_with};
use crate::render::render;
use crate::roundtrip::{has_at, lemma_parse_render};
use crate::unicode::{lemma_boundary_ascii, lemma_scan_valid};

verus! {

/// The sorted-store invariant: however many members are put into a sorted
/// store, one after the other, its keys stay in strictly increasing order,
/// so that no key occurs twice.
pub proof fn law_store_stays_sorted(members: Seq<Member>, more: Seq<Member>)
    requires
        sorted(members),
    ensures
        sorted(upsert_all(members, more)),
        forall|i: int, j: int|
            0 <= i < j < upsert_all(members, more).len() ==> upsert_all(members, more)[i].key
                != upsert_all(members, more)[j].key,
    decreases more.len(),
{
    if more.len() > 0 {
        law_store_stays_sorted(members, more.drop_last());
        lemma_upsert_sorted(
            upsert_all(members, more.drop_last()),
            more.last().key,
            more.last().value,
        );
    }
    let after = upsert_all(members, more);
    assert forall|i: int, j: int| 0 <= i < j < after.len() implies after[i].key
        != after[j].key by {
        assert(bytes_lt(after[i].key, after[j].key));
        lemma_lt_irreflexive(after[i].key);
    }
}

/// A store that is filled from nothing is sorted.
pub proof fn law_store_from_nothing(more: Seq<Member>)
    ensures
        sorted(upsert_all(Seq::empty(), more)),
{
    law_store_stays_sorted(Seq::empty(), more);
}

/// A sorted store holds a key just when one of its members has the key, and
/// the value under the key is the value of that member.
pub proof fn law_lookup_finds(members: Seq<Member>, key: Seq<u8>)
    requires
        sorted(members),
    ensures
        has_key(members, key) <==> exists|i: int|
            0 <= i < members.len() && (#[trigger] members[i]).key == key,
        forall|i: int|
            0 <= i < members.len() && (#[trigger] members[i]).key == key ==> lookup(members, key)
                == Some(members[i].value),
{
    lemma_slot_splits(members, key);
    if has_key(members, key) {
        assert(members[slot(members, key)].key == key);
    }
}

/// What is put under a key is found under it, and what was under another
/// key is still there.
pub proof fn law_put_then_get(members: Seq<Member>, key: Seq<u8>, value: Doc, other: Seq<u8>)
    requires
        sorted(members),
    ensures
        lookup(upsert(members, key, value), key) == Some(value),
        other != key ==> lookup(upsert(members, key, value), other) == lookup(members, other),
{
    lemma_upsert_sorted(members, key, value);
    let after = upsert(members, key, value);
    let at = slot(members, key);
    lemma_slot_splits(members, key);
    lemma_slot_splits(members, other);
    lemma_slot_splits(after, other);
    if other != key {
        let j = slot(members, other);
        let k = slot(after, other);
        if has_key(members, other) {
            let to = if has_key(members, key) || j < at { j } else { j + 1 };
            assert(after[to] == members[j]);
        }
        if has_key(after, other) {
            let from = if has_key(members, key) || k < at { k } else { k - 1 };
            assert(after[k] == members[from]);
        }
    }
}

/// Offsets from the end: in an array, `-1` means the last item, and neither
/// the length nor the offset one before `-length` means any item.
pub proof fn law_negative_index(array: Doc)
    requires
        array is Array,
    ensures
        array.item(-1) == array.item(array->Array_0.len() - 1),
        array.item(array->Array_0.len() as int) is None,
        array.item(-(array->Array_0.len() as int) - 1) is None,
{
}

/// Writing and reading back: the text of a well-formed document parses to
/// that document.
pub proof fn law_text_parses_back(d: Doc)
    requires
        d.wf(),
    ensures
        parse_spec(render(d)) == Ok::<Doc, Failure>(d),
{
    let text = render(d);
    assert(has_at(text, 0, text));
    lemma_parse_render(text, start(), d);
}

/// Two well-formed documents with one text are one document.
pub proof fn law_text_tells_value(a: Doc, b: Doc)
    requires
        a.wf(),
        b.wf(),
        render(a) == render(b),
    ensures
        a == b,
{
    law_text_parses_back(a);
    law_text_parses_back(b);
}

/// Round trip: where a text parses, the text that its value is written as
/// is a text of the same value. Only the members of objects may have changed
/// their order, and whitespace is gone.
pub proof fn law_round_trip(text: Seq<u8>)
    requires
        parse_spec(text) is Ok,
    ensures
        parse_spec(render(parse_spec(text)->Ok_0)) == parse_spec(text),
{
    lemma_value_wf(text, start());
    law_text_parses_back(parse_spec(text)->Ok_0);
}

/// Idempotence: parsing, writing and parsing again gives what parsing gave,
/// and writing that again gives the same text.
pub proof fn law_idempotent(text: Seq<u8>)
    requires
        parse_spec(text) is Ok,
    ensures
        ({
            let again = parse_spec(render(parse_spec(text)->Ok_0));
            &&& again == parse_spec(text)
            &&& render(again->Ok_0) == render(parse_spec(text)->Ok_0)
        }),
{
    law_round_trip(text);
}

/// No value is split: a value that is parsed from a text is the value that
/// is parsed once more text has arrived behind it, and it ends at the same
/// place. Only a number that ends where the text ends may still grow.
pub proof fn law_value_survives_growth(text: Seq<u8>, more: Seq<u8>)
    requires
        parse_spec(text) is Ok,
        value_spec(text, start()).pos.off < text.len() || !parse_spec(text)->Ok_0.is_number(),
    ensures
        value_spec(text + more, start()) == value_spec(text, start()),
{
    assert(starts_with(text + more, text));
    lemma_value_grows(text, text + more, start());
}

/// Text stays text: in a text that is UTF-8, what the scan of a string
/// literal decodes is UTF-8 too, so that no string of such a text is refused
/// for what it holds.
pub proof fn law_literals_stay_text(text: Seq<u8>, at: int)
    requires
        valid_utf8(text),
        0 <= at < text.len(),
        text[at] == QUOTE,
    ensures
        string_body(text, at, at + 1, Seq::empty()) matches Scan::Done(bytes, _) ==> valid_utf8(
            bytes,
        ),
{
    is_char_boundary_iff_not_is_continuation_byte(text, at);
    lemma_boundary_ascii(text, at);
    lemma_scan_valid(text, at, at + 1, Seq::empty());
}

} // verus!
