//! The byte format of a snapshot.
//!
//! A snapshot holds the bytes of the index and then the table of groups. A
//! length or a count is eight bytes, least significant first. A byte string is
//! its length and its bytes; a text is its UTF-8 form as a byte string; a list
//! is its count and its items. A missing tag is the byte 0, a tag the byte 1
//! and its text. An explanation is its body and the list of its complements;
//! an example is its sentence and the list of its complements; a field is its
//! tag, its explanation and the list of its examples.

use vstd::prelude::*;
use vstd::bytes::{
    lemma_auto_spec_u64_to_from_le_bytes, spec_u64_from_le_bytes, spec_u64_to_le_bytes,
};
use vstd::utf8::{
    decode_utf8, encode_utf8, encode_utf8_decode_utf8, encode_utf8_valid_utf8, valid_utf8,
};
use crate::field::{ExampleView, ExplanationView, FieldView};

verus! {

/// A decoded value with the bytes behind it.
pub type Decoded<T> = Option<(T, Seq<u8>)>;

/// A length or a count: eight bytes, least significant first.
pub open spec fn enc_len(n: nat) -> Seq<u8> {
    spec_u64_to_le_bytes(n as u64)
}

/// The length or count at the start of `s`.
pub open spec fn dec_len(s: Seq<u8>) -> Decoded<nat> {
    if s.len() >= 8 {
        Some((spec_u64_from_le_bytes(s.take(8)) as nat, s.skip(8)))
    } else {
        None
    }
}

/// A byte string: its length, then its bytes.
pub open spec fn enc_bytes(b: Seq<u8>) -> Seq<u8> {
    enc_len(b.len()) + b
}

/// The byte string at the start of `s`.
pub open spec fn dec_bytes(s: Seq<u8>) -> Decoded<Seq<u8>> {
    match dec_len(s) {
        Some((n, rest)) => if n <= rest.len() {
            Some((rest.take(n as int), rest.skip(n as int)))
        } else {
            None
        },
        None => None,
    }
}

/// A text: its UTF-8 form as a byte string.
pub open spec fn enc_text(t: Seq<char>) -> Seq<u8> {
    enc_bytes(encode_utf8(t))
}

/// The text at the start of `s`.
pub open spec fn dec_text(s: Seq<u8>) -> Decoded<Seq<char>> {
    match dec_bytes(s) {
        Some((b, rest)) => if valid_utf8(b) {
            Some((decode_utf8(b), rest))
        } else {
            None
        },
        None => None,
    }
}

/// The items of a list, one after the other.
pub open spec fn enc_items<T>(v: Seq<T>, enc: spec_fn(T) -> Seq<u8>) -> Seq<u8>
    decreases v.len(),
{
    if v.len() == 0 {
        Seq::empty()
    } else {
        enc_items(v.drop_last(), enc) + enc(v.last())
    }
}

/// The next `count` items.
pub open spec fn dec_items<T>(s: Seq<u8>, count: nat, dec: spec_fn(Seq<u8>) -> Decoded<T>)
    -> Decoded<Seq<T>>
    decreases count,
{
    if count == 0 {
        Some((Seq::empty(), s))
    } else {
        match dec(s) {
            Some((first, rest)) => match dec_items(rest, (count - 1) as nat, dec) {
                Some((others, rest)) => Some((seq![first] + others, rest)),
                None => None,
            },
            None => None,
        }
    }
}

/// A list: its count, then its items.
pub open spec fn enc_list<T>(v: Seq<T>, enc: spec_fn(T) -> Seq<u8>) -> Seq<u8> {
    enc_len(v.len()) + enc_items(v, enc)
}

/// The list at the start of `s`.
pub open spec fn dec_list<T>(s: Seq<u8>, dec: spec_fn(Seq<u8>) -> Decoded<T>) -> Decoded<Seq<T>> {
    match dec_len(s) {
        Some((count, rest)) => dec_items(rest, count, dec),
        None => None,
    }
}

/// How a text is written, as a function.
pub open spec fn text_enc() -> spec_fn(Seq<char>) -> Seq<u8> {
    |t: Seq<char>| enc_text(t)
}

/// How a text is read, as a function.
pub open spec fn text_dec() -> spec_fn(Seq<u8>) -> Decoded<Seq<char>> {
    |s: Seq<u8>| dec_text(s)
}

/// An optional tag: the byte 0, or the byte 1 and the tag.
pub open spec fn enc_ident(ident: Option<Seq<char>>) -> Seq<u8> {
    match ident {
        None => seq![0u8],
        Some(t) => seq![1u8] + enc_text(t),
    }
}

/// The optional tag at the start of `s`.
pub open spec fn dec_ident(s: Seq<u8>) -> Decoded<Option<Seq<char>>> {
    if s.len() == 0 {
        None
    } else if s[0] == 0 {
        Some((None, s.skip(1)))
    } else if s[0] == 1 {
        match dec_text(s.skip(1)) {
            Some((t, rest)) => Some((Some(t), rest)),
            None => None,
        }
    } else {
        None
    }
}

/// An explanation: its body, then the list of its complements.
pub open spec fn enc_explanation(e: ExplanationView) -> Seq<u8> {
    enc_text(e.body) + enc_list(e.complements, text_enc())
}

/// The explanation at the start of `s`.
pub open spec fn dec_explanation(s: Seq<u8>) -> Decoded<ExplanationView> {
    match dec_text(s) {
        Some((body, rest)) => match dec_list(rest, text_dec()) {
            Some((complements, rest)) => Some((ExplanationView { body, complements }, rest)),
            None => None,
        },
        None => None,
    }
}

/// An example: its sentence, then the list of its complements.
pub open spec fn enc_example(e: ExampleView) -> Seq<u8> {
    enc_text(e.sentence) + enc_list(e.complements, text_enc())
}

/// The example at the start of `s`.
pub open spec fn dec_example(s: Seq<u8>) -> Decoded<ExampleView> {
    match dec_text(s) {
        Some((sentence, rest)) => match dec_list(rest, text_dec()) {
            Some((complements, rest)) => Some((ExampleView { sentence, complements }, rest)),
            None => None,
        },
        None => None,
    }
}

/// How an example is written, as a function.
pub open spec fn example_enc() -> spec_fn(ExampleView) -> Seq<u8> {
    |e: ExampleView| enc_example(e)
}

/// How an example is read, as a function.
pub open spec fn example_dec() -> spec_fn(Seq<u8>) -> Decoded<ExampleView> {
    |s: Seq<u8>| dec_example(s)
}

/// A field: its tag, its explanation, then the list of its examples.
pub open spec fn enc_field(f: FieldView) -> Seq<u8> {
    enc_ident(f.ident) + enc_explanation(f.explanation) + enc_list(f.examples, example_enc())
}

/// The field at the start of `s`.
pub open spec fn dec_field(s: Seq<u8>) -> Decoded<FieldView> {
    match dec_ident(s) {
        Some((ident, rest)) => match dec_explanation(rest) {
            Some((explanation, rest)) => match dec_list(rest, example_dec()) {
                Some((examples, rest)) => Some((FieldView { ident, explanation, examples }, rest)),
                None => None,
            },
            None => None,
        },
        None => None,
    }
}

/// How a field is written, as a function.
pub open spec fn field_enc() -> spec_fn(FieldView) -> Seq<u8> {
    |f: FieldView| enc_field(f)
}

/// How a field is read, as a function.
pub open spec fn field_dec() -> spec_fn(Seq<u8>) -> Decoded<FieldView> {
    |s: Seq<u8>| dec_field(s)
}

/// How a group is written, as a function: as the list of its fields.
pub open spec fn group_enc() -> spec_fn(Seq<FieldView>) -> Seq<u8> {
    |g: Seq<FieldView>| enc_list(g, field_enc())
}

/// How a group is read, as a function.
pub open spec fn group_dec() -> spec_fn(Seq<u8>) -> Decoded<Seq<FieldView>> {
    |s: Seq<u8>| dec_list(s, field_dec())
}

/// The bytes of a snapshot of an index stored as `blob` over `groups`.
pub open spec fn enc_snapshot(blob: Seq<u8>, groups: Seq<Seq<FieldView>>) -> Seq<u8> {
    enc_bytes(blob) + enc_list(groups, group_enc())
}

/// The index bytes and the groups at the start of `s`. What follows them is
/// not looked at.
pub open spec fn dec_snapshot(s: Seq<u8>) -> Option<(Seq<u8>, Seq<Seq<FieldView>>)> {
    match dec_bytes(s) {
        Some((blob, rest)) => match dec_list(rest, group_dec()) {
            Some((groups, _)) => Some((blob, groups)),
            None => None,
        },
        None => None,
    }
}

/// Every length in the text fits its eight bytes.
pub open spec fn text_fits(t: Seq<char>) -> bool {
    encode_utf8(t).len() <= u64::MAX
}

/// The count of the list and every length in its texts fit their eight bytes.
pub open spec fn texts_fit(v: Seq<Seq<char>>) -> bool {
    v.len() <= u64::MAX && forall|i: int| 0 <= i < v.len() ==> text_fits(#[trigger] v[i])
}

/// Every length and count in the example fits its eight bytes.
pub open spec fn example_fits(e: ExampleView) -> bool {
    text_fits(e.sentence) && texts_fit(e.complements)
}

/// Every length and count in the field fits its eight bytes.
pub open spec fn field_fits(f: FieldView) -> bool {
    &&& match f.ident {
        Some(t) => text_fits(t),
        None => true,
    }
    &&& text_fits(f.explanation.body)
    &&& texts_fit(f.explanation.complements)
    &&& f.examples.len() <= u64::MAX
    &&& forall|i: int| 0 <= i < f.examples.len() ==> example_fits(#[trigger] f.examples[i])
}

/// Every length and count in the group fits its eight bytes.
pub open spec fn group_fits(g: Seq<FieldView>) -> bool {
    g.len() <= u64::MAX && forall|i: int| 0 <= i < g.len() ==> field_fits(#[trigger] g[i])
}

/// Every length and count in the snapshot fits its eight bytes.
pub open spec fn snapshot_fits(blob: Seq<u8>, groups: Seq<Seq<FieldView>>) -> bool {
    &&& blob.len() <= u64::MAX
    &&& groups.len() <= u64::MAX
    &&& forall|i: int| 0 <= i < groups.len() ==> group_fits(#[trigger] groups[i])
}

/// A length that was written is read back.
pub proof fn lemma_len_round_trip(n: nat, rest: Seq<u8>)
    requires
        n <= u64::MAX,
    ensures
        dec_len(enc_len(n) + rest) == Some((n, rest)),
{
    lemma_auto_spec_u64_to_from_le_bytes();
    let s = enc_len(n) + rest;
    assert(s.take(8) =~= enc_len(n));
    assert(s.skip(8) =~= rest);
}

/// A byte string that was written is read back.
pub proof fn lemma_bytes_round_trip(b: Seq<u8>, rest: Seq<u8>)
    requires
        b.len() <= u64::MAX,
    ensures
        dec_bytes(enc_bytes(b) + rest) == Some((b, rest)),
{
    lemma_len_round_trip(b.len(), b + rest);
    assert(enc_bytes(b) + rest =~= enc_len(b.len()) + (b + rest));
    assert((b + rest).take(b.len() as int) =~= b);
    assert((b + rest).skip(b.len() as int) =~= rest);
}

/// A text that was written is read back.
pub proof fn lemma_text_round_trip(t: Seq<char>, rest: Seq<u8>)
    requires
        text_fits(t),
    ensures
        dec_text(enc_text(t) + rest) == Some((t, rest)),
{
    lemma_bytes_round_trip(encode_utf8(t), rest);
    encode_utf8_valid_utf8(t);
    encode_utf8_decode_utf8(t);
}

/// The items of a list, first item first.
pub proof fn lemma_items_front<T>(v: Seq<T>, enc: spec_fn(T) -> Seq<u8>)
    requires
        v.len() > 0,
    ensures
        enc_items(v, enc) == enc(v[0]) + enc_items(v.drop_first(), enc),
    decreases v.len(),
{
    if v.len() == 1 {
        assert(v.drop_last() =~= Seq::empty());
        assert(v.drop_first() =~= Seq::empty());
        assert(enc_items(v, enc) =~= enc(v[0]) + enc_items(v.drop_first(), enc));
    } else {
        lemma_items_front(v.drop_last(), enc);
        assert(v.drop_last().drop_first() =~= v.drop_first().drop_last());
        assert(v.drop_first().last() == v.last());
        assert(enc_items(v, enc) =~= enc(v[0]) + enc_items(v.drop_first(), enc));
    }
}

/// A list of items is read back where each item is.
pub proof fn lemma_items_round_trip<T>(
    v: Seq<T>,
    enc: spec_fn(T) -> Seq<u8>,
    dec: spec_fn(Seq<u8>) -> Decoded<T>,
    rest: Seq<u8>,
)
    requires
        forall|i: int, r: Seq<u8>|
            0 <= i < v.len() ==> dec(#[trigger] (enc(v[i]) + r)) == Some((v[i], r)),
    ensures
        dec_items(enc_items(v, enc) + rest, v.len(), dec) == Some((v, rest)),
    decreases v.len(),
{
    if v.len() == 0 {
        assert(enc_items(v, enc) + rest =~= rest);
        assert(v =~= Seq::empty());
    } else {
        let tail = v.drop_first();
        lemma_items_front(v, enc);
        assert forall|i: int, r: Seq<u8>| 0 <= i < tail.len() implies dec(
            #[trigger] (enc(tail[i]) + r),
        ) == Some((tail[i], r)) by {
            assert(tail[i] == v[i + 1]);
        }
        lemma_items_round_trip(tail, enc, dec, rest);
        let after = enc_items(tail, enc) + rest;
        assert(enc_items(v, enc) + rest =~= enc(v[0]) + after);
        assert(dec(enc(v[0]) + after) == Some((v[0], after)));
        assert(seq![v[0]] + tail =~= v);
    }
}

/// A list that was written is read back where each of its items is.
pub proof fn lemma_list_round_trip<T>(
    v: Seq<T>,
    enc: spec_fn(T) -> Seq<u8>,
    dec: spec_fn(Seq<u8>) -> Decoded<T>,
    rest: Seq<u8>,
)
    requires
        v.len() <= u64::MAX,
        forall|i: int, r: Seq<u8>|
            0 <= i < v.len() ==> dec(#[trigger] (enc(v[i]) + r)) == Some((v[i], r)),
    ensures
        dec_list(enc_list(v, enc) + rest, dec) == Some((v, rest)),
{
    lemma_items_round_trip(v, enc, dec, rest);
    lemma_len_round_trip(v.len(), enc_items(v, enc) + rest);
    assert(enc_list(v, enc) + rest =~= enc_len(v.len()) + (enc_items(v, enc) + rest));
}

/// A list of texts that was written is read back.
pub proof fn lemma_texts_round_trip(v: Seq<Seq<char>>, rest: Seq<u8>)
    requires
        texts_fit(v),
    ensures
        dec_list(enc_list(v, text_enc()) + rest, text_dec()) == Some((v, rest)),
{
    assert forall|i: int, r: Seq<u8>| 0 <= i < v.len() implies text_dec()(
        #[trigger] (text_enc()(v[i]) + r),
    ) == Some((v[i], r)) by {
        lemma_text_round_trip(v[i], r);
    }
    lemma_list_round_trip(v, text_enc(), text_dec(), rest);
}

/// An example that was written is read back.
pub proof fn lemma_example_round_trip(e: ExampleView, rest: Seq<u8>)
    requires
        example_fits(e),
    ensures
        dec_example(enc_example(e) + rest) == Some((e, rest)),
{
    let tail = enc_list(e.complements, text_enc()) + rest;
    lemma_text_round_trip(e.sentence, tail);
    lemma_texts_round_trip(e.complements, rest);
    assert(enc_example(e) + rest =~= enc_text(e.sentence) + tail);
}

/// An explanation that was written is read back.
pub proof fn lemma_explanation_round_trip(e: ExplanationView, rest: Seq<u8>)
    requires
        text_fits(e.body),
        texts_fit(e.complements),
    ensures
        dec_explanation(enc_explanation(e) + rest) == Some((e, rest)),
{
    let tail = enc_list(e.complements, text_enc()) + rest;
    lemma_text_round_trip(e.body, tail);
    lemma_texts_round_trip(e.complements, rest);
    assert(enc_explanation(e) + rest =~= enc_text(e.body) + tail);
}

/// An optional tag that was written is read back.
pub proof fn lemma_ident_round_trip(ident: Option<Seq<char>>, rest: Seq<u8>)
    requires
        match ident {
            Some(t) => text_fits(t),
            None => true,
        },
    ensures
        dec_ident(enc_ident(ident) + rest) == Some((ident, rest)),
{
    let s = enc_ident(ident) + rest;
    match ident {
        None => {
            assert(s.skip(1) =~= rest);
        },
        Some(t) => {
            lemma_text_round_trip(t, rest);
            assert(s.skip(1) =~= enc_text(t) + rest);
        },
    }
}

/// A field that was written is read back.
pub proof fn lemma_field_round_trip(f: FieldView, rest: Seq<u8>)
    requires
        field_fits(f),
    ensures
        dec_field(enc_field(f) + rest) == Some((f, rest)),
{
    let examples = enc_list(f.examples, example_enc()) + rest;
    let explanation = enc_explanation(f.explanation) + examples;
    lemma_ident_round_trip(f.ident, explanation);
    lemma_explanation_round_trip(f.explanation, examples);
    assert forall|i: int, r: Seq<u8>| 0 <= i < f.examples.len() implies example_dec()(
        #[trigger] (example_enc()(f.examples[i]) + r),
    ) == Some((f.examples[i], r)) by {
        lemma_example_round_trip(f.examples[i], r);
    }
    lemma_list_round_trip(f.examples, example_enc(), example_dec(), rest);
    assert(enc_field(f) + rest =~= enc_ident(f.ident) + explanation);
}

/// A group that was written is read back.
pub proof fn lemma_group_round_trip(g: Seq<FieldView>, rest: Seq<u8>)
    requires
        group_fits(g),
    ensures
        dec_list(enc_list(g, field_enc()) + rest, field_dec()) == Some((g, rest)),
{
    assert forall|i: int, r: Seq<u8>| 0 <= i < g.len() implies field_dec()(
        #[trigger] (field_enc()(g[i]) + r),
    ) == Some((g[i], r)) by {
        lemma_field_round_trip(g[i], r);
    }
    lemma_list_round_trip(g, field_enc(), field_dec(), rest);
}

/// What was written as a snapshot is read back as it was, whatever bytes
/// follow it.
pub proof fn lemma_snapshot_round_trip(
    blob: Seq<u8>,
    groups: Seq<Seq<FieldView>>,
    rest: Seq<u8>,
)
    requires
        snapshot_fits(blob, groups),
    ensures
        dec_snapshot(enc_snapshot(blob, groups) + rest) == Some((blob, groups)),
{
    let table = enc_list(groups, group_enc()) + rest;
    lemma_bytes_round_trip(blob, table);
    assert forall|i: int, r: Seq<u8>| 0 <= i < groups.len() implies group_dec()(
        #[trigger] (group_enc()(groups[i]) + r),
    ) == Some((groups[i], r)) by {
        lemma_group_round_trip(groups[i], r);
    }
    lemma_list_round_trip(groups, group_enc(), group_dec(), rest);
    assert(enc_snapshot(blob, groups) + rest =~= enc_bytes(blob) + table);
}

} // verus!
