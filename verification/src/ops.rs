//! The operators: arithmetic and logic over values of any two kinds.
//!
//! Numbers of which one is a float call for floating-point arithmetic, which
//! this crate does not do: for such operands an operator gives `None`, and
//! its caller computes the float.

use vstd::prelude::*;
use vstd::string::*;
use vstd::utf8::*;
use crate::algebra::{
    copy_items, lemma_joined_wf, lemma_mixin_wf, lemma_upsert_all_wf, mixin, mixin_into,
};
use crate::ascii::{is_digit, is_float_mark, is_sign, LOWER_E, MINUS, PLUS, POINT, UPPER_E, ZERO};
use crate::json::{docs, members, Json, Property};
use crate::model::{
    all_ordered, digits_end, is_float_lexeme, is_float_syntax, lemma_digits_end,
    lemma_float_syntax_bytes, upsert_all, Doc, Member,
};
use crate::store::insert_all;
use crate::utf8::{bytes_of, lemma_bytes_add, string_from_utf8};
use crate::valid::float_lexeme;

verus! {

impl Doc {
    /// The document is an integer or a float.
    pub open spec fn is_number(self) -> bool {
        self is Integer || self is Float
    }
}

/// Two numbers of which one at least is a float.
pub open spec fn calls_for_floats(l: Doc, r: Doc) -> bool {
    l.is_number() && r.is_number() && (l is Float || r is Float)
}

/// The number fits 128 bits.
pub open spec fn fits(n: int) -> bool {
    i128::MIN <= n <= i128::MAX
}

/// The first index of the text of a float that holds the letter of an
/// exponent, or the length of the text.
pub open spec fn mantissa_end(t: Seq<u8>, i: int) -> int
    decreases t.len() - i,
{
    if 0 <= i < t.len() && t[i] != LOWER_E && t[i] != UPPER_E {
        mantissa_end(t, i + 1)
    } else {
        i
    }
}

/// Every digit of the text before the letter of an exponent is `0`.
pub open spec fn zero_digits(t: Seq<u8>) -> bool {
    forall|i: int| 0 <= i < mantissa_end(t, 0) && is_digit(#[trigger] t[i]) ==> t[i] == ZERO
}

/// The text is that of a float that is written as zero: it is what a float
/// is held as, and every digit before its exponent is `0`.
pub open spec fn is_zero_text(t: Seq<u8>) -> bool {
    is_float_lexeme(t) && zero_digits(t)
}

/// A divisor that is zero as it is written.
pub open spec fn is_zero(d: Doc) -> bool {
    match d {
        Doc::Integer(n) => n == 0,
        Doc::Float(t) => is_zero_text(t),
        _ => false,
    }
}

/// The text of a float with its sign turned.
pub open spec fn negated_text(t: Seq<u8>) -> Seq<u8> {
    if t.len() > 0 && t[0] == MINUS {
        t.drop_first()
    } else if t.len() > 0 && t[0] == PLUS {
        seq![MINUS] + t.drop_first()
    } else {
        seq![MINUS] + t
    }
}

/// `n` copies of a text, one behind the other.
pub open spec fn repeated(s: Seq<u8>, n: int) -> Seq<u8>
    decreases n,
{
    if n <= 0 {
        Seq::empty()
    } else {
        repeated(s, n - 1) + s
    }
}

/// The remainder of a division that rounds towards zero: it has the sign of
/// the dividend.
pub open spec fn remainder(a: int, b: int) -> int
    recommends
        b != 0,
{
    let m = if b < 0 { -b } else { b };
    if a >= 0 {
        a % m
    } else {
        -((-a) % m)
    }
}

/// The first index at which a run holds a document, if it holds it.
pub open spec fn position(items: Seq<Doc>, x: Doc) -> Option<int>
    decreases items.len(),
{
    if items.len() == 0 {
        None
    } else if items[0] == x {
        Some(0)
    } else {
        match position(items.drop_first(), x) {
            Some(i) => Some(i + 1),
            None => None,
        }
    }
}

/// A run without the first of its items that is the document `x`.
pub open spec fn without(items: Seq<Doc>, x: Doc) -> Seq<Doc> {
    match position(items, x) {
        Some(i) => items.remove(i),
        None => items,
    }
}

/// A run after, for each document of `xs` in turn, the first item that is
/// that document is taken out.
pub open spec fn without_each(items: Seq<Doc>, xs: Seq<Doc>) -> Seq<Doc>
    decreases xs.len(),
{
    if xs.len() == 0 {
        items
    } else {
        without(without_each(items, xs.drop_last()), xs.last())
    }
}

/// The pieces of a text between the matches of a pattern, as `str::split` of
/// the standard library gives them.
pub uninterp spec fn split_by(text: Seq<char>, pattern: Seq<char>) -> Seq<Seq<char>>;

/// The texts of a run of strings.
pub open spec fn texts(pieces: Seq<String>) -> Seq<Seq<char>> {
    Seq::new(pieces.len(), |i: int| pieces[i]@)
}

/// An array of strings for a run of texts.
pub open spec fn text_array(pieces: Seq<Seq<char>>) -> Doc {
    Doc::Array(Seq::new(pieces.len(), |i: int| Doc::Text(bytes_of(pieces[i]))))
}

/// What negation gives.
pub open spec fn neg_spec(d: Doc) -> Doc {
    match d {
        Doc::Integer(n) => Doc::Integer(-n),
        Doc::Float(t) => Doc::Float(negated_text(t)),
        _ => Doc::Null,
    }
}

/// What `*` gives: the product of two integers; a string repeated as often as
/// an integer says, on either side, and null for no time; two objects merged
/// deeply; null for any other pair, but for the pairs that call for floats.
pub open spec fn mul_spec(l: Doc, r: Doc) -> Option<Doc> {
    match (l, r) {
        (Doc::Integer(a), Doc::Integer(b)) => Some(Doc::Integer(a * b)),
        (Doc::Text(s), Doc::Integer(n)) => Some(
            if n == 0 {
                Doc::Null
            } else {
                Doc::Text(repeated(s, n))
            },
        ),
        (Doc::Integer(n), Doc::Text(s)) => Some(
            if n == 0 {
                Doc::Null
            } else {
                Doc::Text(repeated(s, n))
            },
        ),
        (Doc::Object(a), Doc::Object(b)) => Some(Doc::Object(mixin(mixin(Seq::empty(), a), b))),
        _ => if calls_for_floats(l, r) {
            None
        } else {
            Some(Doc::Null)
        },
    }
}

/// What `/` gives: null for a number over zero; a string split by a pattern;
/// null for any other pair, but for the pairs of numbers, which all call for
/// floats.
pub open spec fn div_spec(l: Doc, r: Doc) -> Option<Doc> {
    if l.is_number() && r.is_number() {
        if is_zero(r) {
            Some(Doc::Null)
        } else {
            None
        }
    } else {
        match (l, r) {
            (Doc::Text(s), Doc::Text(p)) => Some(
                text_array(split_by(decode_utf8(s), decode_utf8(p))),
            ),
            _ => Some(Doc::Null),
        }
    }
}

/// What `%` gives: null for a number over zero; the remainder of two
/// integers; null for any other pair, but for the pairs that call for floats.
pub open spec fn rem_spec(l: Doc, r: Doc) -> Option<Doc> {
    if l.is_number() && r.is_number() {
        if is_zero(r) {
            Some(Doc::Null)
        } else {
            match (l, r) {
                (Doc::Integer(a), Doc::Integer(b)) => Some(Doc::Integer(remainder(a, b))),
                _ => None,
            }
        }
    } else {
        Some(Doc::Null)
    }
}

/// What `+` gives: the sum of two integers; two strings or two arrays one
/// behind the other; two objects in one, the members of the right one put in
/// last; null for any other pair, but for the pairs that call for floats.
pub open spec fn add_spec(l: Doc, r: Doc) -> Option<Doc> {
    match (l, r) {
        (Doc::Integer(a), Doc::Integer(b)) => Some(Doc::Integer(a + b)),
        (Doc::Text(a), Doc::Text(b)) => Some(Doc::Text(a + b)),
        (Doc::Array(a), Doc::Array(b)) => Some(Doc::Array(a + b)),
        (Doc::Object(a), Doc::Object(b)) => Some(
            Doc::Object(upsert_all(upsert_all(Seq::empty(), a), b)),
        ),
        _ => if calls_for_floats(l, r) {
            None
        } else {
            Some(Doc::Null)
        },
    }
}

/// What `-` gives: the difference of two integers; the left array after, for
/// each item of the right one, its first equal item is taken out; null for
/// any other pair, but for the pairs that call for floats.
pub open spec fn sub_spec(l: Doc, r: Doc) -> Option<Doc> {
    match (l, r) {
        (Doc::Integer(a), Doc::Integer(b)) => Some(Doc::Integer(a - b)),
        (Doc::Array(a), Doc::Array(b)) => Some(Doc::Array(without_each(a, b))),
        _ => if calls_for_floats(l, r) {
            None
        } else {
            Some(Doc::Null)
        },
    }
}

/// Two texts that agree from some index on, the one `k` bytes further than
/// the other, have their runs of digits end at the same places.
pub proof fn lemma_digits_end_shift(u: Seq<u8>, v: Seq<u8>, k: int, from: int, i: int)
    requires
        u.len() == v.len() + k,
        0 <= from <= i <= v.len(),
        0 <= from + k,
        forall|j: int| from <= j < v.len() ==> u[j + k] == v[j],
    ensures
        digits_end(u, i + k) == digits_end(v, i) + k,
    decreases v.len() - i,
{
    if i < v.len() {
        assert(u[i + k] == v[i]);
        if is_digit(v[i]) {
            lemma_digits_end_shift(u, v, k, from, i + 1);
        }
    }
}

/// Two texts that agree behind their signs are both floats or neither.
pub proof fn lemma_float_syntax_shift(u: Seq<u8>, v: Seq<u8>, k: int)
    requires
        is_float_syntax(v),
        u.len() == v.len() + k,
        ({
            let a: int = if v.len() > 0 && is_sign(v[0]) { 1 } else { 0 };
            &&& 0 <= a + k <= 1
            &&& a + k == (if u.len() > 0 && is_sign(u[0]) { 1int } else { 0int })
            &&& forall|j: int| a <= j < v.len() ==> u[j + k] == v[j]
        }),
    ensures
        is_float_syntax(u),
{
    let a: int = if v.len() > 0 && is_sign(v[0]) { 1 } else { 0 };
    lemma_digits_end(v, a);
    lemma_digits_end_shift(u, v, k, a, a);
    let b = digits_end(v, a);
    let pointed = b < v.len() && v[b] == POINT;
    if b < v.len() {
        assert(u[b + k] == v[b]);
    }
    if pointed {
        lemma_digits_end(v, b + 1);
        lemma_digits_end_shift(u, v, k, a, b + 1);
    }
    let d = if pointed { digits_end(v, b + 1) } else { b };
    if d < v.len() {
        assert(u[d + k] == v[d]);
        let scaled = v[d] == LOWER_E || v[d] == UPPER_E;
        if scaled {
            if d + 1 < v.len() {
                assert(u[d + 1 + k] == v[d + 1]);
            }
            let f = if d + 1 < v.len() && is_sign(v[d + 1]) { d + 2 } else { d + 1 };
            lemma_digits_end_shift(u, v, k, a, f);
        }
    }
}

/// The text of a float with its sign turned is the text of a float.
pub proof fn lemma_negated_lexeme(t: Seq<u8>)
    requires
        is_float_lexeme(t),
    ensures
        is_float_lexeme(negated_text(t)),
{
    let u = negated_text(t);
    let a: int = if t.len() > 0 && is_sign(t[0]) { 1 } else { 0 };
    lemma_float_syntax_bytes(t);
    lemma_digits_end(t, a);
    let k: int = if t[0] == MINUS { -1 } else if t[0] == PLUS { 0 } else { 1 };
    assert(a < t.len());
    assert(!is_sign(t[a])) by {
        let b = digits_end(t, a);
        if b == a {
            assert(t[a] == POINT);
        }
    }
    if t[0] == MINUS {
        assert(u[0] == t[1]);
    }
    lemma_float_syntax_shift(u, t, k);
    let i = choose|i: int| 0 <= i < t.len() && is_float_mark(t[i]);
    assert(i >= a);
    assert(is_float_mark(u[i + k]));
}

/// Copies of UTF-8 text, one behind the other, are UTF-8 text.
pub proof fn lemma_repeated_valid(s: Seq<u8>, n: int)
    requires
        valid_utf8(s),
    ensures
        valid_utf8(repeated(s, n)),
    decreases n,
{
    if n > 0 {
        lemma_repeated_valid(s, n - 1);
        valid_utf8_concat(repeated(s, n - 1), s);
    }
}

/// A run of well-formed documents stays one when items are taken out of it.
pub proof fn lemma_without_wf(items: Seq<Doc>, xs: Seq<Doc>)
    requires
        Doc::Array(items).wf(),
    ensures
        Doc::Array(without_each(items, xs)).wf(),
    decreases xs.len(),
{
    if xs.len() > 0 {
        lemma_without_wf(items, xs.drop_last());
        let before = without_each(items, xs.drop_last());
        let after = without(before, xs.last());
        lemma_position(before, xs.last());
        match position(before, xs.last()) {
            Some(at) => {
                assert forall|i: int| 0 <= i < after.len() implies (#[trigger] after[i]).wf() by {
                    if i < at {
                        assert(Doc::Array(before)->Array_0[i].wf());
                    } else {
                        assert(Doc::Array(before)->Array_0[i + 1].wf());
                    }
                }
            },
            None => {},
        }
    }
}

/// The first index at which a run holds a document is an index of the run
/// that holds it, and no index before it does.
pub proof fn lemma_position(items: Seq<Doc>, x: Doc)
    ensures
        match position(items, x) {
            Some(at) => 0 <= at < items.len() && items[at] == x && forall|i: int|
                0 <= i < at ==> items[i] != x,
            None => forall|i: int| 0 <= i < items.len() ==> items[i] != x,
        },
    decreases items.len(),
{
    if items.len() > 0 && items[0] != x {
        let tail = items.drop_first();
        lemma_position(tail, x);
        match position(tail, x) {
            Some(at) => {
                assert forall|i: int| 0 <= i < at + 1 implies items[i] != x by {
                    if i > 0 {
                        assert(tail[i - 1] == items[i]);
                    }
                }
            },
            None => {
                assert forall|i: int| 0 <= i < items.len() implies items[i] != x by {
                    if i > 0 {
                        assert(tail[i - 1] == items[i]);
                    }
                }
            },
        }
    }
}

/// `str::split` with a string as the pattern: the pieces of `text` between
/// the matches of `pattern`, in their order, each as a string of its own.
#[verifier::external_body]
fn split_text(text: &str, pattern: &str) -> (r: Vec<String>)
    ensures
        texts(r@) == split_by(text@, pattern@),
{
    let mut out: Vec<String> = Vec::new();
    for piece in text.split(pattern) {
        out.push(piece.to_owned());
    }
    out
}

/// An array that holds each of the strings.
pub fn strings_to_array(pieces: Vec<String>) -> (r: Json)
    ensures
        r@ == text_array(texts(pieces@)),
        r@.wf(),
{
    let ghost all = texts(pieces@);
    let mut pieces = pieces;
    let mut rev: Vec<Json> = Vec::new();
    while pieces.len() > 0
        invariant
            pieces.len() <= all.len(),
            texts(pieces@) =~= all.subrange(0, pieces.len() as int),
            rev.len() == all.len() - pieces.len(),
            forall|k: int|
                0 <= k < rev.len() ==> (#[trigger] rev[k])@ == Doc::Text(
                    bytes_of(all[all.len() - 1 - k]),
                ),
        decreases pieces.len(),
    {
        let ghost n = pieces.len() as int;
        assert(texts(pieces@)[n - 1] == all[n - 1]);
        let piece = pieces.pop().unwrap();
        rev.push(Json::String(piece));
    }
    let mut out: Vec<Json> = Vec::new();
    while rev.len() > 0
        invariant
            rev.len() <= all.len(),
            out.len() == all.len() - rev.len(),
            forall|k: int|
                0 <= k < rev.len() ==> (#[trigger] rev[k])@ == Doc::Text(
                    bytes_of(all[all.len() - 1 - k]),
                ),
            forall|k: int|
                0 <= k < out.len() ==> (#[trigger] out[k])@ == Doc::Text(bytes_of(all[k])),
        decreases rev.len(),
    {
        let item = rev.pop().unwrap();
        out.push(item);
    }
    proof {
        assert(docs(out@) =~= text_array(all)->Array_0);
        assert forall|k: int| 0 <= k < out.len() implies (#[trigger] docs(out@)[k]).wf() by {
            encode_utf8_valid_utf8(all[k]);
        }
    }
    Json::Array(out)
}

/// Whether the text is that of a float that is written as zero.
pub fn zero_text(t: &str) -> (r: bool)
    ensures
        r == is_zero_text(bytes_of(t@)),
{
    if !float_lexeme(t) {
        return false;
    }
    let bytes = t.as_bytes();
    let mut i: usize = 0;
    while i < bytes.len() && bytes[i] != LOWER_E && bytes[i] != UPPER_E
        invariant
            i <= bytes.len(),
            bytes@ == bytes_of(t@),
            mantissa_end(bytes@, 0) == mantissa_end(bytes@, i as int),
            forall|k: int| 0 <= k < i && is_digit(#[trigger] bytes@[k]) ==> bytes@[k] == ZERO,
        decreases bytes.len() - i,
    {
        if 0x30 < bytes[i] && bytes[i] <= 0x39 {
            assert(is_digit(bytes@[i as int]));
            proof {
                lemma_mantissa_end(bytes@, i as int);
            }
            return false;
        }
        i = i + 1;
    }
    true
}

/// The digits of a float end inside its text, before the letter of the
/// exponent if there is one.
pub proof fn lemma_mantissa_end(t: Seq<u8>, i: int)
    requires
        0 <= i <= t.len(),
    ensures
        i <= mantissa_end(t, i) <= t.len(),
        forall|k: int| i <= k < mantissa_end(t, i) ==> t[k] != LOWER_E && t[k] != UPPER_E,
        i < t.len() && t[i] != LOWER_E && t[i] != UPPER_E ==> i < mantissa_end(t, i),
    decreases t.len() - i,
{
    if i < t.len() && t[i] != LOWER_E && t[i] != UPPER_E {
        lemma_mantissa_end(t, i + 1);
    }
}

/// The text of a float with its sign turned.
pub fn negate_text(t: &str) -> (r: String)
    ensures
        bytes_of(r@) == negated_text(bytes_of(t@)),
{
    let bytes = t.as_bytes();
    let mut out: Vec<u8> = Vec::new();
    let signed: bool = bytes.len() > 0 && (bytes[0] == MINUS || bytes[0] == PLUS);
    let from: usize = if signed { 1 } else { 0 };
    if !(bytes.len() > 0 && bytes[0] == MINUS) {
        out.push(MINUS);
    }
    let ghost head = out@;
    let mut i: usize = from;
    while i < bytes.len()
        invariant
            from <= i <= bytes.len(),
            out@ == head + bytes@.subrange(from as int, i as int),
        decreases bytes.len() - i,
    {
        out.push(bytes[i]);
        assert(bytes@.subrange(from as int, i + 1) =~= bytes@.subrange(from as int, i as int).push(
            bytes@[i as int],
        ));
        assert(out@ =~= head + bytes@.subrange(from as int, i + 1));
        i = i + 1;
    }
    proof {
        let all = bytes@;
        let tail = all.subrange(from as int, all.len() as int);
        encode_utf8_valid_utf8(t@);
        assert(valid_utf8(tail)) by {
            if from == 1 {
                assert(tail =~= pop_first_scalar(all));
            } else {
                assert(tail =~= all);
            }
        }
        assert(out@ =~= negated_text(all)) by {
            if from == 1 {
                assert(tail =~= all.drop_first());
            } else {
                assert(tail =~= all);
            }
        }
        crate::utf8::lemma_ascii_text(seq![MINUS]);
        valid_utf8_concat(seq![MINUS], tail);
        assert(head =~= seq![MINUS] || head =~= Seq::<u8>::empty());
        assert(seq![MINUS] + tail =~= head + tail || tail =~= head + tail);
    }
    match string_from_utf8(out) {
        Some(s) => s,
        None => String::new(),
    }
}

/// `n` copies of a string, one behind the other.
pub fn repeat(s: &str, n: usize) -> (r: String)
    ensures
        bytes_of(r@) == repeated(bytes_of(s@), n as int),
{
    let mut out: String = String::new();
    if s.as_bytes().len() == 0 {
        proof {
            lemma_repeated_empty(bytes_of(s@), n as int);
            assert(bytes_of(out@) =~= Seq::<u8>::empty());
        }
        return out;
    }
    let mut i: usize = 0;
    assert(bytes_of(out@) =~= repeated(bytes_of(s@), 0));
    while i < n
        invariant
            i <= n,
            bytes_of(out@) == repeated(bytes_of(s@), i as int),
        decreases n - i,
    {
        proof {
            lemma_bytes_add(out@, s@);
        }
        out.append(s);
        i = i + 1;
    }
    out
}

/// Copies of nothing are nothing.
pub proof fn lemma_repeated_empty(s: Seq<u8>, n: int)
    requires
        s.len() == 0,
    ensures
        repeated(s, n) == Seq::<u8>::empty(),
    decreases n,
{
    if n > 0 {
        lemma_repeated_empty(s, n - 1);
        assert(repeated(s, n) =~= Seq::<u8>::empty());
    }
}

/// The remainder of a division that rounds towards zero.
pub fn remainder_of(a: i128, b: i128) -> (r: i128)
    requires
        b != 0,
    ensures
        r == remainder(a as int, b as int),
{
    if b > 0 {
        a % b
    } else if b == i128::MIN {
        if a == i128::MIN {
            0
        } else {
            proof {
                let m = -(b as int);
                if a >= 0 {
                    vstd::arithmetic::div_mod::lemma_small_mod(a as nat, m as nat);
                } else {
                    vstd::arithmetic::div_mod::lemma_small_mod((-a) as nat, m as nat);
                }
            }
            a
        }
    } else {
        a % (-b)
    }
}

/// The array `items` without the first of its items that equals `x`.
fn remove_item(items: &mut Vec<Json>, x: &Json)
    ensures
        docs(final(items)@) == without(docs(old(items)@), x@),
{
    let ghost all = docs(items@);
    let mut i: usize = 0;
    assert(all.skip(0) =~= all);
    while i < items.len()
        invariant
            i <= items.len(),
            all == docs(items@),
            *items == *old(items),
            position(all, x@) == match position(all.skip(i as int), x@) {
                Some(k) => Some(k + i),
                None => None,
            },
        decreases items.len() - i,
    {
        proof {
            assert(all.skip(i as int)[0] == items[i as int]@);
            assert(all.skip(i as int).drop_first() =~= all.skip(i + 1));
        }
        if items[i].same(x) {
            items.remove(i);
            assert(docs(items@) =~= all.remove(i as int));
            return ;
        }
        i = i + 1;
    }
    assert(all.skip(items.len() as int) =~= Seq::<Doc>::empty());
}

impl Json {
    /// The value with its sign turned; null for a value that is no number.
    pub fn neg(self) -> (r: Json)
        requires
            self@ != Doc::Integer(i128::MIN as int),
        ensures
            r@ == neg_spec(self@),
            self@.wf() ==> r@.wf(),
    {
        proof {
            if self@.wf() && self@ is Float {
                lemma_negated_lexeme(self@->Float_0);
            }
        }
        match self {
            Json::Integer(n) => Json::Integer(-n),
            Json::Float(t) => Json::Float(negate_text(t.as_str())),
            _ => Json::Null,
        }
    }

    /// Whether the value does not hold as a condition.
    pub fn not(self) -> (r: Json)
        ensures
            r@ == Doc::Bool(!self@.holds()),
    {
        Json::Bool(!self.truth())
    }

    /// Whether both values hold as conditions.
    pub fn and(self, other: Json) -> (r: Json)
        ensures
            r@ == Doc::Bool(self@.holds() && other@.holds()),
    {
        let lhs = self.truth();
        let rhs = other.truth();
        Json::Bool(lhs && rhs)
    }

    /// Whether one of the values holds as a condition.
    pub fn or(self, other: Json) -> (r: Json)
        ensures
            r@ == Doc::Bool(self@.holds() || other@.holds()),
    {
        let lhs = self.truth();
        let rhs = other.truth();
        Json::Bool(lhs || rhs)
    }

    /// The product of two values; `None` where it takes floats to compute.
    pub fn mul(self, rhs: Json) -> (r: Option<Json>)
        requires
            self@ is Integer && rhs@ is Integer ==> fits(self@->Integer_0 * rhs@->Integer_0),
            self@ is Text && rhs@ is Integer ==> 0 <= rhs@->Integer_0 <= usize::MAX,
            self@ is Integer && rhs@ is Text ==> 0 <= self@->Integer_0 <= usize::MAX,
            self@ is Object && rhs@ is Object ==> all_ordered(self@->Object_0) && all_ordered(
                rhs@->Object_0,
            ),
        ensures
            r is Some <==> mul_spec(self@, rhs@) is Some,
            r is Some ==> r.unwrap()@ == mul_spec(self@, rhs@).unwrap(),
            r is Some && self@.wf() && rhs@.wf() ==> r.unwrap()@.wf(),
    {
        proof {
            if self@.wf() && rhs@.wf() {
                if self@ is Text && rhs@ is Integer {
                    lemma_repeated_valid(self@->Text_0, rhs@->Integer_0);
                }
                if self@ is Integer && rhs@ is Text {
                    lemma_repeated_valid(rhs@->Text_0, self@->Integer_0);
                }
                if self@ is Object && rhs@ is Object {
                    lemma_mixin_wf(Seq::empty(), self@->Object_0);
                    lemma_mixin_wf(mixin(Seq::empty(), self@->Object_0), rhs@->Object_0);
                }
            }
        }
        match (self, rhs) {
            (Json::Integer(l), Json::Integer(r)) => Some(Json::Integer(l * r)),
            (Json::String(s), Json::Integer(n)) => Some(Json::times(s, n)),
            (Json::Integer(n), Json::String(s)) => Some(Json::times(s, n)),
            (Json::Object(this), Json::Object(other)) => {
                let mut obj: Vec<Property> = Vec::new();
                assert(members(obj@) =~= Seq::<Member>::empty());
                mixin_into(&mut obj, &this);
                mixin_into(&mut obj, &other);
                Some(Json::Object(obj))
            },
            (Json::Integer(_), Json::Float(_)) => None,
            (Json::Float(_), Json::Integer(_)) => None,
            (Json::Float(_), Json::Float(_)) => None,
            (_, _) => Some(Json::Null),
        }
    }

    /// A string repeated `n` times, or null for no time.
    fn times(s: String, n: i128) -> (r: Json)
        requires
            0 <= n <= usize::MAX,
        ensures
            r@ == (if n == 0 {
                Doc::Null
            } else {
                Doc::Text(repeated(bytes_of(s@), n as int))
            }),
    {
        if n == 0 {
            Json::Null
        } else {
            Json::String(repeat(s.as_str(), n as usize))
        }
    }

    /// Whether the value is a number that is written as zero.
    pub fn is_zero(&self) -> (r: bool)
        ensures
            r == is_zero(self@),
    {
        match self {
            Json::Integer(n) => *n == 0,
            Json::Float(t) => zero_text(t.as_str()),
            _ => false,
        }
    }

    /// Whether the value is an integer or a float.
    pub fn is_number(&self) -> (r: bool)
        ensures
            r == self@.is_number(),
    {
        match self {
            Json::Integer(_) => true,
            Json::Float(_) => true,
            _ => false,
        }
    }

    /// The quotient of two values: null for a number over zero and `None`
    /// for any other two numbers, whose quotient is a float; a string split
    /// by a pattern; null for any other pair.
    pub fn div(self, rhs: Json) -> (r: Option<Json>)
        ensures
            r is Some <==> div_spec(self@, rhs@) is Some,
            r is Some ==> r.unwrap()@ == div_spec(self@, rhs@).unwrap(),
            r is Some ==> r.unwrap()@.wf(),
    {
        if self.is_number() && rhs.is_number() {
            if rhs.is_zero() {
                Some(Json::Null)
            } else {
                None
            }
        } else {
            match (self, rhs) {
                (Json::String(s), Json::String(patt)) => {
                    proof {
                        encode_utf8_decode_utf8(s@);
                        encode_utf8_decode_utf8(patt@);
                    }
                    Some(strings_to_array(split_text(s.as_str(), patt.as_str())))
                },
                (_, _) => Some(Json::Null),
            }
        }
    }

    /// The remainder of two values: null for a number over zero; `None`
    /// where it takes floats to compute; null for any pair that is not two numbers.
    pub fn rem(self, rhs: Json) -> (r: Option<Json>)
        requires
            !(self@ == Doc::Integer(i128::MIN as int) && rhs@ == Doc::Integer(-1)),
        ensures
            r is Some <==> rem_spec(self@, rhs@) is Some,
            r is Some ==> r.unwrap()@ == rem_spec(self@, rhs@).unwrap(),
            r is Some ==> r.unwrap()@.wf(),
    {
        if self.is_number() && rhs.is_number() {
            if rhs.is_zero() {
                Some(Json::Null)
            } else {
                match (self, rhs) {
                    (Json::Integer(l), Json::Integer(r)) => Some(Json::Integer(remainder_of(l, r))),
                    (_, _) => None,
                }
            }
        } else {
            Some(Json::Null)
        }
    }

    /// The sum of two values; `None` where it takes floats to compute.
    pub fn add(self, rhs: Json) -> (r: Option<Json>)
        requires
            self@ is Integer && rhs@ is Integer ==> fits(self@->Integer_0 + rhs@->Integer_0),
        ensures
            r is Some <==> add_spec(self@, rhs@) is Some,
            r is Some ==> r.unwrap()@ == add_spec(self@, rhs@).unwrap(),
            r is Some && self@.wf() && rhs@.wf() ==> r.unwrap()@.wf(),
    {
        proof {
            if self@.wf() && rhs@.wf() {
                if self@ is Text && rhs@ is Text {
                    valid_utf8_concat(self@->Text_0, rhs@->Text_0);
                }
                if self@ is Array && rhs@ is Array {
                    lemma_joined_wf(self@->Array_0, rhs@->Array_0);
                }
                if self@ is Object && rhs@ is Object {
                    lemma_upsert_all_wf(Seq::empty(), self@->Object_0);
                    lemma_upsert_all_wf(upsert_all(Seq::empty(), self@->Object_0), rhs@->Object_0);
                }
            }
        }
        match (self, rhs) {
            (Json::Integer(l), Json::Integer(r)) => Some(Json::Integer(l + r)),
            (Json::String(l), Json::String(r)) => {
                proof {
                    lemma_bytes_add(l@, r@);
                }
                let mut s: String = String::new();
                s.append(l.as_str());
                s.append(r.as_str());
                assert(s@ =~= l@ + r@);
                Some(Json::String(s))
            },
            (Json::Array(l), Json::Array(r)) => {
                let mut a: Vec<Json> = copy_items(&l);
                let ghost left = docs(a@);
                let mut b: Vec<Json> = copy_items(&r);
                let ghost right = docs(b@);
                a.append(&mut b);
                assert(docs(a@) =~= left + right);
                Some(Json::Array(a))
            },
            (Json::Object(l), Json::Object(r)) => {
                let mut obj: Vec<Property> = Vec::new();
                assert(members(obj@) =~= Seq::<Member>::empty());
                insert_all(&mut obj, l);
                insert_all(&mut obj, r);
                Some(Json::Object(obj))
            },
            (Json::Integer(_), Json::Float(_)) => None,
            (Json::Float(_), Json::Integer(_)) => None,
            (Json::Float(_), Json::Float(_)) => None,
            (_, _) => Some(Json::Null),
        }
    }

    /// The difference of two values; `None` where it takes floats to compute.
    pub fn sub(self, rhs: Json) -> (r: Option<Json>)
        requires
            self@ is Integer && rhs@ is Integer ==> fits(self@->Integer_0 - rhs@->Integer_0),
        ensures
            r is Some <==> sub_spec(self@, rhs@) is Some,
            r is Some ==> r.unwrap()@ == sub_spec(self@, rhs@).unwrap(),
            r is Some && self@.wf() ==> r.unwrap()@.wf(),
    {
        proof {
            if self@.wf() && self@ is Array && rhs@ is Array {
                lemma_without_wf(self@->Array_0, rhs@->Array_0);
            }
        }
        match (self, rhs) {
            (Json::Integer(l), Json::Integer(r)) => Some(Json::Integer(l - r)),
            (Json::Array(lhs), Json::Array(rhs)) => {
                let mut lhs = lhs;
                let ghost start = docs(lhs@);
                let ghost all = docs(rhs@);
                let mut i: usize = 0;
                assert(all.subrange(0, 0) =~= Seq::<Doc>::empty());
                while i < rhs.len()
                    invariant
                        i <= rhs.len(),
                        all == docs(rhs@),
                        docs(lhs@) == without_each(start, all.subrange(0, i as int)),
                    decreases rhs.len() - i,
                {
                    proof {
                        let now = all.subrange(0, i + 1);
                        assert(now.drop_last() =~= all.subrange(0, i as int));
                        assert(now.last() == rhs[i as int]@);
                    }
                    remove_item(&mut lhs, &rhs[i]);
                    i = i + 1;
                }
                assert(all.subrange(0, rhs.len() as int) =~= all);
                Some(Json::Array(lhs))
            },
            (Json::Integer(_), Json::Float(_)) => None,
            (Json::Float(_), Json::Integer(_)) => None,
            (Json::Float(_), Json::Float(_)) => None,
            (_, _) => Some(Json::Null),
        }
    }

    /// The left integer shifted right by the right one; null for any other pair.
    pub fn shr(self, rhs: Json) -> (r: Json)
        requires
            self@ is Integer && rhs@ is Integer ==> 0 <= rhs@->Integer_0 < 128,
        ensures
            r@ == (match (self, rhs) {
                (Json::Integer(l), Json::Integer(r)) => Doc::Integer((l >> r) as int),
                _ => Doc::Null,
            }),
    {
        match (self, rhs) {
            (Json::Integer(l), Json::Integer(r)) => Json::Integer(l >> r),
            (_, _) => Json::Null,
        }
    }

    /// The left integer shifted left by the right one; null for any other pair.
    pub fn shl(self, rhs: Json) -> (r: Json)
        requires
            self@ is Integer && rhs@ is Integer ==> 0 <= rhs@->Integer_0 < 128,
        ensures
            r@ == (match (self, rhs) {
                (Json::Integer(l), Json::Integer(r)) => Doc::Integer((l << r) as int),
                _ => Doc::Null,
            }),
    {
        match (self, rhs) {
            (Json::Integer(l), Json::Integer(r)) => Json::Integer(l << r),
            (_, _) => Json::Null,
        }
    }

    /// The bits that two integers share; null for any other pair.
    pub fn bitand(self, rhs: Json) -> (r: Json)
        ensures
            r@ == (match (self, rhs) {
                (Json::Integer(l), Json::Integer(r)) => Doc::Integer((l & r) as int),
                _ => Doc::Null,
            }),
    {
        match (self, rhs) {
            (Json::Integer(l), Json::Integer(r)) => Json::Integer(l & r),
            (_, _) => Json::Null,
        }
    }

    /// The bits in which two integers differ; null for any other pair.
    pub fn bitxor(self, rhs: Json) -> (r: Json)
        ensures
            r@ == (match (self, rhs) {
                (Json::Integer(l), Json::Integer(r)) => Doc::Integer((l ^ r) as int),
                _ => Doc::Null,
            }),
    {
        match (self, rhs) {
            (Json::Integer(l), Json::Integer(r)) => Json::Integer(l ^ r),
            (_, _) => Json::Null,
        }
    }

    /// The bits that one of two integers has; null for any other pair.
    pub fn bitor(self, rhs: Json) -> (r: Json)
        ensures
            r@ == (match (self, rhs) {
                (Json::Integer(l), Json::Integer(r)) => Doc::Integer((l | r) as int),
                _ => Doc::Null,
            }),
    {
        match (self, rhs) {
            (Json::Integer(l), Json::Integer(r)) => Json::Integer(l | r),
            (_, _) => Json::Null,
        }
    }
}

} // verus!
