//! Writing a dictionary to bytes and reading it back.

use vstd::prelude::*;
use vstd::bytes::{u64_from_le_bytes, u64_to_le_bytes};
use vstd::slice::{slice_subrange, slice_to_vec};
use vstd::string::*;

use crate::dict::Dict;
use crate::error::DictError;
use crate::field::{
    complements_view, examples_view, fields_view, ident_view, Complement, Example, Explanation,
    Field, FieldView,
};
use crate::format::{
    dec_bytes, dec_example, dec_field, dec_ident, dec_items, dec_len, dec_list, dec_snapshot,
    dec_text, enc_bytes, enc_example, enc_explanation, enc_field, enc_ident, enc_items, enc_len,
    enc_list, enc_snapshot, enc_text, example_dec, example_enc, example_fits, field_dec,
    field_enc, field_fits, group_dec, group_enc, group_fits, snapshot_fits, text_dec, text_enc,
    text_fits, texts_fit, Decoded,
};
use crate::group::groups_view;

use crate::index::{
    blob_checks, blob_opens, index_bytes, number_at, open_index, sizes_fit, verify_index,
};
use crate::text::string_from_utf8;

verus! {

/// Appends `bytes` to `out`.
fn put_raw(out: &mut Vec<u8>, bytes: &[u8])
    ensures
        final(out)@ == old(out)@ + bytes@,
{
    let mut i: usize = 0;
    while i < bytes.len()
        invariant
            i <= bytes.len(),
            out@ == old(out)@ + bytes@.take(i as int),
        decreases bytes.len() - i,
    {
        out.push(bytes[i]);
        assert(out@ =~= old(out)@ + bytes@.take(i + 1));
        i += 1;
    }
    assert(bytes@.take(i as int) =~= bytes@);
}

/// Appends a length or a count.
fn put_len(out: &mut Vec<u8>, n: usize)
    ensures
        final(out)@ == old(out)@ + enc_len(n as nat),
{
    let bytes = u64_to_le_bytes(n as u64);
    put_raw(out, bytes.as_slice());
}

/// Appends a byte string.
fn put_bytes(out: &mut Vec<u8>, bytes: &[u8])
    ensures
        final(out)@ == old(out)@ + enc_bytes(bytes@),
        bytes@.len() <= u64::MAX,
{
    put_len(out, bytes.len());
    put_raw(out, bytes);
    assert(out@ =~= old(out)@ + enc_bytes(bytes@));
}

/// Appends a text.
fn put_text(out: &mut Vec<u8>, text: &str)
    ensures
        final(out)@ == old(out)@ + enc_text(text@),
        text_fits(text@),
{
    put_bytes(out, text.as_bytes());
}

/// Appends a list of complements.
fn put_complements(out: &mut Vec<u8>, list: &Vec<Complement>)
    ensures
        final(out)@ == old(out)@ + enc_list(complements_view(list@), text_enc()),
        texts_fit(complements_view(list@)),
{
    let ghost v = complements_view(list@);
    put_len(out, list.len());
    let ghost head = out@;
    let mut i: usize = 0;
    assert(v.take(0) =~= Seq::empty());
    while i < list.len()
        invariant
            i <= list.len(),
            v == complements_view(list@),
            out@ == head + enc_items(v.take(i as int), text_enc()),
            forall|k: int| 0 <= k < i ==> text_fits(#[trigger] v[k]),
        decreases list.len() - i,
    {
        put_text(out, list[i].body.as_str());
        proof {
            assert(v.take(i + 1).drop_last() =~= v.take(i as int));
            assert(v.take(i + 1).last() == v[i as int]);
            assert(out@ =~= head + enc_items(v.take(i + 1), text_enc()));
        }
        i += 1;
    }
    proof {
        assert(v.take(i as int) =~= v);
        assert(out@ =~= old(out)@ + enc_list(v, text_enc()));
    }
}

/// Appends an example.
fn put_example(out: &mut Vec<u8>, example: &Example)
    ensures
        final(out)@ == old(out)@ + enc_example(example@),
        example_fits(example@),
{
    put_text(out, example.sentence.as_str());
    put_complements(out, &example.complements);
    assert(out@ =~= old(out)@ + enc_example(example@));
}

/// Appends a list of examples.
fn put_examples(out: &mut Vec<u8>, list: &Vec<Example>)
    ensures
        final(out)@ == old(out)@ + enc_list(examples_view(list@), example_enc()),
        examples_view(list@).len() <= u64::MAX,
        forall|k: int|
            0 <= k < examples_view(list@).len() ==> example_fits(
                #[trigger] examples_view(list@)[k],
            ),
{
    let ghost v = examples_view(list@);
    put_len(out, list.len());
    let ghost head = out@;
    let mut i: usize = 0;
    assert(v.take(0) =~= Seq::empty());
    while i < list.len()
        invariant
            i <= list.len(),
            v == examples_view(list@),
            out@ == head + enc_items(v.take(i as int), example_enc()),
            forall|k: int| 0 <= k < i ==> example_fits(#[trigger] v[k]),
        decreases list.len() - i,
    {
        put_example(out, &list[i]);
        proof {
            assert(v.take(i + 1).drop_last() =~= v.take(i as int));
            assert(v.take(i + 1).last() == v[i as int]);
            assert(out@ =~= head + enc_items(v.take(i + 1), example_enc()));
        }
        i += 1;
    }
    proof {
        assert(v.take(i as int) =~= v);
        assert(out@ =~= old(out)@ + enc_list(v, example_enc()));
    }
}

/// Appends a field.
fn put_field(out: &mut Vec<u8>, field: &Field)
    ensures
        final(out)@ == old(out)@ + enc_field(field@),
        field_fits(field@),
{
    match &field.ident {
        None => {
            out.push(0u8);
            assert(out@ =~= old(out)@ + enc_ident(field@.ident));
        },
        Some(ident) => {
            out.push(1u8);
            put_text(out, ident.as_str());
            assert(out@ =~= old(out)@ + enc_ident(field@.ident));
        },
    }
    let ghost head = out@;
    put_text(out, field.explanation.body.as_str());
    put_complements(out, &field.explanation.complements);
    assert(out@ =~= head + enc_explanation(field@.explanation));
    put_examples(out, &field.examples);
    assert(out@ =~= old(out)@ + enc_field(field@));
}

/// Appends a group of fields.
fn put_group(out: &mut Vec<u8>, group: &Vec<Field>)
    ensures
        final(out)@ == old(out)@ + enc_list(fields_view(group@), field_enc()),
        group_fits(fields_view(group@)),
{
    let ghost v = fields_view(group@);
    put_len(out, group.len());
    let ghost head = out@;
    let mut i: usize = 0;
    assert(v.take(0) =~= Seq::empty());
    while i < group.len()
        invariant
            i <= group.len(),
            v == fields_view(group@),
            out@ == head + enc_items(v.take(i as int), field_enc()),
            forall|k: int| 0 <= k < i ==> field_fits(#[trigger] v[k]),
        decreases group.len() - i,
    {
        put_field(out, &group[i]);
        proof {
            assert(v.take(i + 1).drop_last() =~= v.take(i as int));
            assert(v.take(i + 1).last() == v[i as int]);
            assert(out@ =~= head + enc_items(v.take(i + 1), field_enc()));
        }
        i += 1;
    }
    proof {
        assert(v.take(i as int) =~= v);
        assert(out@ =~= old(out)@ + enc_list(v, field_enc()));
    }
}

/// Appends a table of groups.
fn put_groups(out: &mut Vec<u8>, table: &Vec<Vec<Field>>)
    ensures
        final(out)@ == old(out)@ + enc_list(groups_view(table@), group_enc()),
        groups_view(table@).len() <= u64::MAX,
        forall|k: int|
            0 <= k < groups_view(table@).len() ==> group_fits(#[trigger] groups_view(table@)[k]),
{
    let ghost v = groups_view(table@);
    put_len(out, table.len());
    let ghost head = out@;
    let mut i: usize = 0;
    assert(v.take(0) =~= Seq::empty());
    while i < table.len()
        invariant
            i <= table.len(),
            v == groups_view(table@),
            out@ == head + enc_items(v.take(i as int), group_enc()),
            forall|k: int| 0 <= k < i ==> group_fits(#[trigger] v[k]),
        decreases table.len() - i,
    {
        put_group(out, &table[i]);
        proof {
            assert(v.take(i + 1).drop_last() =~= v.take(i as int));
            assert(v.take(i + 1).last() == v[i as int]);
            assert(out@ =~= head + enc_items(v.take(i + 1), group_enc()));
        }
        i += 1;
    }
    proof {
        assert(v.take(i as int) =~= v);
        assert(out@ =~= old(out)@ + enc_list(v, group_enc()));
    }
}

/// The snapshot of a dictionary: the bytes of its index, then its table of
/// groups.
pub fn save(dict: &Dict) -> (bytes: Vec<u8>)
    ensures
        bytes@ == enc_snapshot(dict.blob(), dict.groups()),
        snapshot_fits(dict.blob(), dict.groups()),
{
    let mut out: Vec<u8> = Vec::new();
    let blob = index_bytes(dict.keys());
    put_bytes(&mut out, blob.as_slice());
    put_groups(&mut out, dict.fields());
    assert(out@ =~= enc_snapshot(dict.blob(), dict.groups()));
    out
}

/// What a reader that stands at `at` in `bytes` has before it.
pub open spec fn ahead(bytes: Seq<u8>, at: usize) -> Seq<u8> {
    bytes.skip(at as int)
}

/// Reads a length or a count at `at`, and gives the place behind it.
fn take_len(bytes: &[u8], at: usize) -> (r: Option<(u64, usize)>)
    requires
        at <= bytes@.len(),
    ensures
        match r {
            Some((n, next)) => dec_len(ahead(bytes@, at)) == Some((n as nat, ahead(bytes@, next)))
                && at <= next <= bytes@.len(),
            None => dec_len(ahead(bytes@, at)) is None,
        },
{
    if bytes.len() - at < 8 {
        return None;
    }
    let n = u64_from_le_bytes(slice_subrange(bytes, at, at + 8));
    proof {
        assert(ahead(bytes@, at).take(8) =~= bytes@.subrange(at as int, at + 8));
        assert(ahead(bytes@, at).skip(8) =~= ahead(bytes@, (at + 8) as usize));
    }
    Some((n, at + 8))
}

/// Reads a byte string at `at`, and gives the place behind it.
fn take_bytes(bytes: &[u8], at: usize) -> (r: Option<(Vec<u8>, usize)>)
    requires
        at <= bytes@.len(),
    ensures
        match r {
            Some((b, next)) => dec_bytes(ahead(bytes@, at)) == Some((b@, ahead(bytes@, next)))
                && at <= next <= bytes@.len(),
            None => dec_bytes(ahead(bytes@, at)) is None,
        },
{
    match take_len(bytes, at) {
        None => None,
        Some((n, from)) => {
            let left = bytes.len() - from;
            if n > left as u64 {
                return None;
            }
            let to = from + n as usize;
            let b = slice_to_vec(slice_subrange(bytes, from, to));
            proof {
                assert(ahead(bytes@, from).take(n as int) =~= bytes@.subrange(
                    from as int,
                    to as int,
                ));
                assert(ahead(bytes@, from).skip(n as int) =~= ahead(bytes@, to));
            }
            Some((b, to))
        },
    }
}

/// Reads a text at `at`, and gives the place behind it.
fn take_text(bytes: &[u8], at: usize) -> (r: Option<(String, usize)>)
    requires
        at <= bytes@.len(),
    ensures
        match r {
            Some((t, next)) => dec_text(ahead(bytes@, at)) == Some((t@, ahead(bytes@, next)))
                && at <= next <= bytes@.len(),
            None => dec_text(ahead(bytes@, at)) is None,
        },
{
    match take_bytes(bytes, at) {
        None => None,
        Some((b, next)) => match string_from_utf8(b) {
            Some(t) => Some((t, next)),
            None => None,
        },
    }
}

/// What reading a list gives, where its first items have been read as `read`,
/// `left` more are to be read, and the reader stands before `rest`.
pub open spec fn items_after<T>(
    read: Seq<T>,
    rest: Seq<u8>,
    left: nat,
    dec: spec_fn(Seq<u8>) -> Decoded<T>,
) -> Decoded<Seq<T>> {
    match dec_items(rest, left, dec) {
        Some((others, rest)) => Some((read + others, rest)),
        None => None,
    }
}

/// Reading items starts with none read.
proof fn lemma_items_start<T>(s: Seq<u8>, count: nat, dec: spec_fn(Seq<u8>) -> Decoded<T>)
    ensures
        items_after(Seq::<T>::empty(), s, count, dec) == dec_items(s, count, dec),
{
    match dec_items(s, count, dec) {
        Some((others, rest)) => {
            assert(Seq::<T>::empty() + others =~= others);
        },
        None => {},
    }
}

/// Reading one more item, or failing at it.
proof fn lemma_items_step<T>(
    read: Seq<T>,
    rest: Seq<u8>,
    left: nat,
    dec: spec_fn(Seq<u8>) -> Decoded<T>,
)
    requires
        left > 0,
    ensures
        match dec(rest) {
            Some((item, next)) => items_after(read, rest, left, dec) == items_after(
                read.push(item),
                next,
                (left - 1) as nat,
                dec,
            ),
            None => items_after(read, rest, left, dec) is None,
        },
{
    match dec(rest) {
        Some((item, next)) => {
            match dec_items(next, (left - 1) as nat, dec) {
                Some((others, after)) => {
                    assert(read + (seq![item] + others) =~= read.push(item) + others);
                },
                None => {},
            }
        },
        None => {},
    }
}

/// With no item left, what was read is the list.
proof fn lemma_items_end<T>(read: Seq<T>, rest: Seq<u8>, dec: spec_fn(Seq<u8>) -> Decoded<T>)
    ensures
        items_after(read, rest, 0, dec) == Some((read, rest)),
{
    assert(read + Seq::<T>::empty() =~= read);
}

/// Reads a list of complements at `at`, and gives the place behind it.
fn take_complements(bytes: &[u8], at: usize) -> (r: Option<(Vec<Complement>, usize)>)
    requires
        at <= bytes@.len(),
    ensures
        match r {
            Some((list, next)) => dec_list(ahead(bytes@, at), text_dec()) == Some(
                (complements_view(list@), ahead(bytes@, next)),
            ) && at <= next <= bytes@.len(),
            None => dec_list(ahead(bytes@, at), text_dec()) is None,
        },
{
    match take_len(bytes, at) {
        None => None,
        Some((count, start)) => {
            let mut list: Vec<Complement> = Vec::new();
            let mut cursor: usize = start;
            let mut done: u64 = 0;
            proof {
                lemma_items_start(ahead(bytes@, start), count as nat, text_dec());
                assert(complements_view(list@) =~= Seq::empty());
            }
            while done < count
                invariant
                    done <= count,
                    start <= cursor <= bytes@.len(),
                    dec_list(ahead(bytes@, at), text_dec()) == items_after(
                        complements_view(list@),
                        ahead(bytes@, cursor),
                        (count - done) as nat,
                        text_dec(),
                    ),
                decreases count - done,
            {
                proof {
                    lemma_items_step(
                        complements_view(list@),
                        ahead(bytes@, cursor),
                        (count - done) as nat,
                        text_dec(),
                    );
                }
                match take_text(bytes, cursor) {
                    None => {
                        return None;
                    },
                    Some((body, next)) => {
                        let ghost before = complements_view(list@);
                        list.push(Complement { body });
                        assert(complements_view(list@) =~= before.push(body@));
                        cursor = next;
                    },
                }
                done += 1;
            }
            proof {
                lemma_items_end(complements_view(list@), ahead(bytes@, cursor), text_dec());
            }
            Some((list, cursor))
        },
    }
}

/// Reads an example at `at`, and gives the place behind it.
fn take_example(bytes: &[u8], at: usize) -> (r: Option<(Example, usize)>)
    requires
        at <= bytes@.len(),
    ensures
        match r {
            Some((e, next)) => dec_example(ahead(bytes@, at)) == Some((e@, ahead(bytes@, next)))
                && at < next <= bytes@.len(),
            None => dec_example(ahead(bytes@, at)) is None,
        },
{
    match take_text(bytes, at) {
        None => None,
        Some((sentence, next)) => match take_complements(bytes, next) {
            None => None,
            Some((complements, next)) => Some((Example { sentence, complements }, next)),
        },
    }
}

/// Reads a list of examples at `at`, and gives the place behind it.
fn take_examples(bytes: &[u8], at: usize) -> (r: Option<(Vec<Example>, usize)>)
    requires
        at <= bytes@.len(),
    ensures
        match r {
            Some((list, next)) => dec_list(ahead(bytes@, at), example_dec()) == Some(
                (examples_view(list@), ahead(bytes@, next)),
            ) && at <= next <= bytes@.len(),
            None => dec_list(ahead(bytes@, at), example_dec()) is None,
        },
{
    match take_len(bytes, at) {
        None => None,
        Some((count, start)) => {
            let mut list: Vec<Example> = Vec::new();
            let mut cursor: usize = start;
            let mut done: u64 = 0;
            proof {
                lemma_items_start(ahead(bytes@, start), count as nat, example_dec());
                assert(examples_view(list@) =~= Seq::empty());
            }
            while done < count
                invariant
                    done <= count,
                    start <= cursor <= bytes@.len(),
                    dec_list(ahead(bytes@, at), example_dec()) == items_after(
                        examples_view(list@),
                        ahead(bytes@, cursor),
                        (count - done) as nat,
                        example_dec(),
                    ),
                decreases count - done,
            {
                proof {
                    lemma_items_step(
                        examples_view(list@),
                        ahead(bytes@, cursor),
                        (count - done) as nat,
                        example_dec(),
                    );
                }
                match take_example(bytes, cursor) {
                    None => {
                        return None;
                    },
                    Some((example, next)) => {
                        let ghost before = examples_view(list@);
                        let ghost view = example@;
                        list.push(example);
                        assert(examples_view(list@) =~= before.push(view));
                        cursor = next;
                    },
                }
                done += 1;
            }
            proof {
                lemma_items_end(examples_view(list@), ahead(bytes@, cursor), example_dec());
            }
            Some((list, cursor))
        },
    }
}

/// Reads an optional tag at `at`, and gives the place behind it.
fn take_ident(bytes: &[u8], at: usize) -> (r: Option<(Option<String>, usize)>)
    requires
        at <= bytes@.len(),
    ensures
        match r {
            Some((ident, next)) => dec_ident(ahead(bytes@, at)) == Some(
                (ident_view(ident), ahead(bytes@, next)),
            ) && at < next <= bytes@.len(),
            None => dec_ident(ahead(bytes@, at)) is None,
        },
{
    if at >= bytes.len() {
        return None;
    }
    let tag = bytes[at];
    proof {
        assert(ahead(bytes@, at)[0] == bytes@[at as int]);
        assert(ahead(bytes@, at).skip(1) =~= ahead(bytes@, (at + 1) as usize));
    }
    if tag == 0 {
        Some((None, at + 1))
    } else if tag == 1 {
        match take_text(bytes, at + 1) {
            None => None,
            Some((text, next)) => Some((Some(text), next)),
        }
    } else {
        None
    }
}

/// Reads a field at `at`, and gives the place behind it.
fn take_field(bytes: &[u8], at: usize) -> (r: Option<(Field, usize)>)
    requires
        at <= bytes@.len(),
    ensures
        match r {
            Some((f, next)) => dec_field(ahead(bytes@, at)) == Some((f@, ahead(bytes@, next)))
                && at < next <= bytes@.len(),
            None => dec_field(ahead(bytes@, at)) is None,
        },
{
    match take_ident(bytes, at) {
        None => None,
        Some((ident, next)) => match take_text(bytes, next) {
            None => None,
            Some((body, next)) => match take_complements(bytes, next) {
                None => None,
                Some((complements, next)) => match take_examples(bytes, next) {
                    None => None,
                    Some((examples, next)) => Some(
                        (
                            Field { ident, explanation: Explanation { body, complements }, examples },
                            next,
                        ),
                    ),
                },
            },
        },
    }
}

/// Reads a group of fields at `at`, and gives the place behind it.
fn take_group(bytes: &[u8], at: usize) -> (r: Option<(Vec<Field>, usize)>)
    requires
        at <= bytes@.len(),
    ensures
        match r {
            Some((list, next)) => dec_list(ahead(bytes@, at), field_dec()) == Some(
                (fields_view(list@), ahead(bytes@, next)),
            ) && at < next <= bytes@.len(),
            None => dec_list(ahead(bytes@, at), field_dec()) is None,
        },
{
    match take_len(bytes, at) {
        None => None,
        Some((count, start)) => {
            let mut list: Vec<Field> = Vec::new();
            let mut cursor: usize = start;
            let mut done: u64 = 0;
            proof {
                lemma_items_start(ahead(bytes@, start), count as nat, field_dec());
                assert(fields_view(list@) =~= Seq::empty());
            }
            while done < count
                invariant
                    done <= count,
                    start <= cursor <= bytes@.len(),
                    dec_list(ahead(bytes@, at), field_dec()) == items_after(
                        fields_view(list@),
                        ahead(bytes@, cursor),
                        (count - done) as nat,
                        field_dec(),
                    ),
                decreases count - done,
            {
                proof {
                    lemma_items_step(
                        fields_view(list@),
                        ahead(bytes@, cursor),
                        (count - done) as nat,
                        field_dec(),
                    );
                }
                match take_field(bytes, cursor) {
                    None => {
                        return None;
                    },
                    Some((field, next)) => {
                        let ghost before = fields_view(list@);
                        let ghost view = field@;
                        list.push(field);
                        assert(fields_view(list@) =~= before.push(view));
                        cursor = next;
                    },
                }
                done += 1;
            }
            proof {
                lemma_items_end(fields_view(list@), ahead(bytes@, cursor), field_dec());
            }
            Some((list, cursor))
        },
    }
}

/// Reads a table of groups at `at`, and gives the place behind it.
fn take_groups(bytes: &[u8], at: usize) -> (r: Option<(Vec<Vec<Field>>, usize)>)
    requires
        at <= bytes@.len(),
    ensures
        match r {
            Some((table, next)) => dec_list(ahead(bytes@, at), group_dec()) == Some(
                (groups_view(table@), ahead(bytes@, next)),
            ) && at <= next <= bytes@.len(),
            None => dec_list(ahead(bytes@, at), group_dec()) is None,
        },
{
    match take_len(bytes, at) {
        None => None,
        Some((count, start)) => {
            let mut table: Vec<Vec<Field>> = Vec::new();
            let mut cursor: usize = start;
            let mut done: u64 = 0;
            proof {
                lemma_items_start(ahead(bytes@, start), count as nat, group_dec());
                assert(groups_view(table@) =~= Seq::empty());
            }
            while done < count
                invariant
                    done <= count,
                    start <= cursor <= bytes@.len(),
                    dec_list(ahead(bytes@, at), group_dec()) == items_after(
                        groups_view(table@),
                        ahead(bytes@, cursor),
                        (count - done) as nat,
                        group_dec(),
                    ),
                decreases count - done,
            {
                proof {
                    lemma_items_step(
                        groups_view(table@),
                        ahead(bytes@, cursor),
                        (count - done) as nat,
                        group_dec(),
                    );
                }
                match take_group(bytes, cursor) {
                    None => {
                        return None;
                    },
                    Some((group, next)) => {
                        let ghost before = groups_view(table@);
                        let ghost view = fields_view(group@);
                        table.push(group);
                        assert(groups_view(table@) =~= before.push(view));
                        cursor = next;
                    },
                }
                done += 1;
            }
            proof {
                lemma_items_end(groups_view(table@), ahead(bytes@, cursor), group_dec());
            }
            Some((table, cursor))
        },
    }
}

/// The index bytes and the table of groups of the dictionary that `bytes`
/// hold: the bytes start with a snapshot, and the bytes of its index have
/// sizes that fit the machine, open, and carry their checksum.
pub open spec fn loads(bytes: Seq<u8>) -> Option<(Seq<u8>, Seq<Seq<FieldView>>)> {
    match dec_snapshot(bytes) {
        Some((blob, groups)) => if sizes_fit(blob) && blob_opens(blob) && blob_checks(blob) {
            Some((blob, groups))
        } else {
            None
        },
        None => None,
    }
}

/// The eight bytes of `blob` from `at` on as a number.
fn read_number(blob: &Vec<u8>, at: usize) -> (n: u64)
    requires
        at + 8 <= blob.len(),
    ensures
        n == number_at(blob@, at as int),
{
    u64_from_le_bytes(slice_subrange(blob.as_slice(), at, at + 8))
}

/// Whether the sizes at the end of the bytes of an index fit the machine's
/// addresses.
fn sizes_fit_in(blob: &Vec<u8>) -> (fit: bool)
    ensures
        fit == sizes_fit(blob@),
{
    let n = blob.len();
    if n < 36 {
        return true;
    }
    let version = read_number(blob, 0);
    if version < 1 || version > 3 {
        return true;
    }
    let end = if version <= 2 {
        n
    } else {
        n - 4
    };
    let limit = usize::MAX as u64;
    read_number(blob, end - 8) <= limit && read_number(blob, end - 16) <= limit
}

/// Reads a dictionary from the bytes of a snapshot. Bytes behind the snapshot
/// are not looked at.
///
/// Fails where the bytes end before the snapshot does, a text is not UTF-8, a
/// tag is marked by another byte than 0 or 1, or the bytes of the index hold
/// a size that does not fit the machine, do not open, or do not carry their
/// checksum.
///
/// The index is not looked into. The dictionary is sound where the bytes are
/// the snapshot of a sound one; of other bytes that load, nothing is known.
pub fn load(bytes: &[u8]) -> (r: Result<Dict, DictError>)
    ensures
        match r {
            Ok(dict) => loads(bytes@) == Some((dict.blob(), dict.groups())),
            Err(e) => loads(bytes@) is None && e == DictError::CorruptSnapshot,
        },
{
    assert(ahead(bytes@, 0) =~= bytes@);
    let (blob, next) = match take_bytes(bytes, 0) {
        Some(found) => found,
        None => {
            return Err(DictError::CorruptSnapshot);
        },
    };
    let (fields, _) = match take_groups(bytes, next) {
        Some(found) => found,
        None => {
            return Err(DictError::CorruptSnapshot);
        },
    };
    if !sizes_fit_in(&blob) {
        return Err(DictError::CorruptSnapshot);
    }
    let keys = match open_index(blob) {
        Ok(keys) => keys,
        Err(_) => {
            return Err(DictError::CorruptSnapshot);
        },
    };
    match verify_index(&keys) {
        Ok(()) => {},
        Err(_) => {
            return Err(DictError::CorruptSnapshot);
        },
    }
    Ok(Dict::from_parts(keys, fields))
}

/// The snapshot of a sound dictionary loads again, whatever bytes follow it,
/// as the index bytes and the groups of the dictionary that was saved.
pub proof fn lemma_saved_loads(dict: Dict, rest: Seq<u8>)
    requires
        dict.sound(),
        snapshot_fits(dict.blob(), dict.groups()),
    ensures
        loads(enc_snapshot(dict.blob(), dict.groups()) + rest) == Some(
            (dict.blob(), dict.groups()),
        ),
{
    crate::format::lemma_snapshot_round_trip(dict.blob(), dict.groups(), rest);
}

/// A dictionary with the index bytes and the groups of a sound one is sound,
/// and holds the same headwords, each with the same fields in the same order.
pub proof fn lemma_same_parts(a: Dict, b: Dict)
    requires
        a.sound(),
        a.blob() == b.blob(),
        a.groups() == b.groups(),
    ensures
        b.sound(),
        a.index() == b.index(),
        a@ == b@,
{
    assert(a@ =~= b@);
}

} // verus!
