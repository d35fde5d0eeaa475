//! Grouping sorted entries by headword.

use vstd::prelude::*;
use vstd::utf8::{encode_utf8, encode_utf8_decode_utf8};
use crate::field::{fields_view, EntryView, Field, FieldView};
use crate::order::{
    bytes_rank, byte_order, entry_leq, lemma_bytes_total, lemma_text_total, lex_order,
    text_order, text_rank, Rank,
};
use crate::sort::ascending;

verus! {

/// A headword with its fields.
pub struct GroupView {
    pub headword: Seq<char>,
    pub fields: Seq<FieldView>,
}

/// The groups of a list of entries: each entry joins the group of the entry
/// before it where the two share their headword, and opens a new group where
/// they do not.
pub open spec fn grouped(entries: Seq<EntryView>) -> Seq<GroupView>
    decreases entries.len(),
{
    if entries.len() == 0 {
        Seq::empty()
    } else {
        let before = grouped(entries.drop_last());
        let entry = entries.last();
        if before.len() > 0 && before.last().headword == entry.headword {
            before.update(
                before.len() - 1,
                GroupView {
                    headword: entry.headword,
                    fields: before.last().fields.push(entry.field),
                },
            )
        } else {
            before.push(GroupView { headword: entry.headword, fields: seq![entry.field] })
        }
    }
}

/// The index of a list of headwords: the UTF-8 form of each, mapped to its
/// position in the list.
pub open spec fn index_of(headwords: Seq<Seq<char>>) -> Map<Seq<u8>, u64>
    decreases headwords.len(),
{
    if headwords.len() == 0 {
        Map::empty()
    } else {
        index_of(headwords.drop_last()).insert(
            encode_utf8(headwords.last()),
            (headwords.len() - 1) as u64,
        )
    }
}

/// The headword of each group, in the order of the groups.
pub open spec fn group_headwords(groups: Seq<GroupView>) -> Seq<Seq<char>> {
    Seq::new(groups.len(), |i: int| groups[i].headword)
}

/// The fields of each group, in the order of the groups.
pub open spec fn group_fields(groups: Seq<GroupView>) -> Seq<Seq<FieldView>> {
    Seq::new(groups.len(), |i: int| groups[i].fields)
}

/// The views of a table of groups.
pub open spec fn groups_view(table: Seq<Vec<Field>>) -> Seq<Seq<FieldView>> {
    Seq::new(table.len(), |i: int| fields_view(table[i]@))
}

/// The views of a list of texts.
pub open spec fn texts_view(list: Seq<String>) -> Seq<Seq<char>> {
    Seq::new(list.len(), |i: int| list[i]@)
}

/// Each headword is greater, in the order of texts, than the one before it.
pub open spec fn each_grows(headwords: Seq<Seq<char>>) -> bool {
    forall|i: int, j: int|
        0 <= i && j == i + 1 && j < headwords.len() ==> text_rank(
            #[trigger] headwords[i],
            #[trigger] headwords[j],
        ) == Rank::Before
}

/// Each headword is greater than all before it.
pub open spec fn headwords_grow(headwords: Seq<Seq<char>>) -> bool {
    forall|i: int, j: int|
        0 <= i < j < headwords.len() ==> text_rank(
            #[trigger] headwords[i],
            #[trigger] headwords[j],
        ) == Rank::Before
}

/// Headwords of which each is greater than the one before it grow.
pub proof fn lemma_each_grows(headwords: Seq<Seq<char>>)
    requires
        each_grows(headwords),
    ensures
        headwords_grow(headwords),
    decreases headwords.len(),
{
    if headwords.len() > 0 {
        lemma_text_total();
        let before = headwords.drop_last();
        let n = headwords.len() - 1;
        assert(each_grows(before)) by {
            assert forall|i: int, j: int| 0 <= i && j == i + 1 && j < before.len() implies text_rank(
                #[trigger] before[i],
                #[trigger] before[j],
            ) == Rank::Before by {
                assert(text_rank(headwords[i], headwords[j]) == Rank::Before);
            }
        }
        lemma_each_grows(before);
        assert forall|i: int, j: int| 0 <= i < j < headwords.len() implies text_rank(
            #[trigger] headwords[i],
            #[trigger] headwords[j],
        ) == Rank::Before by {
            if j < n {
                assert(text_rank(before[i], before[j]) == Rank::Before);
            } else {
                assert(text_rank(headwords[n - 1], headwords[n]) == Rank::Before);
                if i < n - 1 {
                    assert(text_rank(before[i], before[n - 1]) == Rank::Before);
                    let r = (
                        text_order()(headwords[i], headwords[n - 1]),
                        text_order()(headwords[n - 1], headwords[n]),
                        text_order()(headwords[i], headwords[n]),
                    );
                }
            }
        }
    }
}

/// Every value of the index of a list of headwords is a position in the
/// list.
pub proof fn lemma_index_in_range(headwords: Seq<Seq<char>>)
    requires
        headwords.len() <= u64::MAX,
    ensures
        forall|key: Seq<u8>| #[trigger]
            index_of(headwords).contains_key(key) ==> index_of(headwords)[key] < headwords.len(),
    decreases headwords.len(),
{
    if headwords.len() > 0 {
        lemma_index_in_range(headwords.drop_last());
        let rest = index_of(headwords.drop_last());
        let last = encode_utf8(headwords.last());
        assert forall|key: Seq<u8>| #[trigger] index_of(headwords).contains_key(key) implies index_of(
            headwords,
        )[key] < headwords.len() by {
            if key != last {
                assert(rest.contains_key(key));
            }
        }
    }
}

/// The groups of a list of entries and of the list without its last entry,
/// where that entry opens a group.
pub proof fn lemma_group_opened(entries: Seq<EntryView>, i: int)
    requires
        0 <= i < entries.len(),
        i > 0 ==> grouped(entries.take(i)).len() > 0 && grouped(entries.take(i)).last().headword
            != entries[i].headword,
    ensures
        grouped(entries.take(i + 1)) == grouped(entries.take(i)).push(
            GroupView { headword: entries[i].headword, fields: seq![entries[i].field] },
        ),
        group_headwords(grouped(entries.take(i + 1))) == group_headwords(
            grouped(entries.take(i)),
        ).push(entries[i].headword),
        group_fields(grouped(entries.take(i + 1))).drop_last() == group_fields(
            grouped(entries.take(i)),
        ),
{
    let before = grouped(entries.take(i));
    let after = grouped(entries.take(i + 1));
    assert(entries.take(i + 1).drop_last() =~= entries.take(i));
    assert(entries.take(i + 1).last() == entries[i]);
    if i == 0 {
        assert(entries.take(0) =~= Seq::empty());
    }
    assert(group_headwords(after) =~= group_headwords(before).push(entries[i].headword));
    assert(group_fields(after).drop_last() =~= group_fields(before));
}

/// The groups of a list of entries and of the list without its last entry,
/// where that entry joins the last group.
pub proof fn lemma_group_joined(entries: Seq<EntryView>, i: int)
    requires
        0 < i < entries.len(),
        grouped(entries.take(i)).len() > 0,
        grouped(entries.take(i)).last().headword == entries[i].headword,
    ensures
        grouped(entries.take(i + 1)).len() == grouped(entries.take(i)).len(),
        grouped(entries.take(i + 1)).last() == (GroupView {
            headword: entries[i].headword,
            fields: grouped(entries.take(i)).last().fields.push(entries[i].field),
        }),
        group_headwords(grouped(entries.take(i + 1))) == group_headwords(
            grouped(entries.take(i)),
        ),
        group_fields(grouped(entries.take(i + 1))).drop_last() == group_fields(
            grouped(entries.take(i)),
        ).drop_last(),
{
    let before = grouped(entries.take(i));
    let after = grouped(entries.take(i + 1));
    assert(entries.take(i + 1).drop_last() =~= entries.take(i));
    assert(entries.take(i + 1).last() == entries[i]);
    assert(group_headwords(after) =~= group_headwords(before));
    assert(group_fields(after).drop_last() =~= group_fields(before).drop_last());
}

/// A table of groups with one more group.
pub proof fn lemma_table_push(
    table: Seq<Vec<Field>>,
    pushed: Seq<Vec<Field>>,
    groups: Seq<GroupView>,
)
    requires
        pushed.len() == table.len() + 1,
        pushed.drop_last() == table,
        groups.len() == pushed.len(),
        groups_view(table) == group_fields(groups).drop_last(),
        fields_view(pushed.last()@) == groups.last().fields,
    ensures
        groups_view(pushed) == group_fields(groups),
{
    let got = groups_view(pushed);
    let wanted = group_fields(groups);
    assert forall|i: int| 0 <= i < got.len() implies got[i] == wanted[i] by {
        if i < table.len() {
            assert(pushed[i] == pushed.drop_last()[i]);
            assert(groups_view(table)[i] == group_fields(groups).drop_last()[i]);
        }
    }
    assert(got =~= wanted);
}

/// The fields of the entries under `headword`, in the order of the entries.
pub open spec fn fields_under(entries: Seq<EntryView>, headword: Seq<char>) -> Seq<FieldView>
    decreases entries.len(),
{
    if entries.len() == 0 {
        Seq::empty()
    } else {
        let before = fields_under(entries.drop_last(), headword);
        if entries.last().headword == headword {
            before.push(entries.last().field)
        } else {
            before
        }
    }
}

/// Some entry stands under `headword`.
pub open spec fn has_headword(entries: Seq<EntryView>, headword: Seq<char>) -> bool {
    exists|i: int| 0 <= i < entries.len() && (#[trigger] entries[i]).headword == headword
}

/// Some group stands under `headword`.
pub open spec fn has_group(groups: Seq<GroupView>, headword: Seq<char>) -> bool {
    exists|k: int| 0 <= k < groups.len() && (#[trigger] groups[k]).headword == headword
}

/// No fields stand under a headword that no entry has.
proof fn lemma_no_fields(entries: Seq<EntryView>, headword: Seq<char>)
    requires
        !has_headword(entries, headword),
    ensures
        fields_under(entries, headword) == Seq::<FieldView>::empty(),
    decreases entries.len(),
{
    if entries.len() > 0 {
        let before = entries.drop_last();
        assert(entries[entries.len() - 1].headword != headword);
        assert forall|i: int| 0 <= i < before.len() implies (#[trigger] before[i]).headword
            != headword by {
            assert(entries[i].headword != headword);
        }
        lemma_no_fields(before, headword);
    }
}

/// The groups of ascending entries: their headwords grow, each holds exactly
/// the fields of the entries under its headword, in their order, and every
/// entry has the group of its headword.
pub proof fn lemma_grouped(entries: Seq<EntryView>)
    requires
        ascending(entries),
    ensures
        headwords_grow(group_headwords(grouped(entries))),
        grouped(entries).len() <= entries.len(),
        entries.len() > 0 ==> grouped(entries).len() > 0 && grouped(entries).last().headword
            == entries.last().headword,
        forall|k: int|
            0 <= k < grouped(entries).len() ==> (#[trigger] grouped(entries)[k]).fields
                == fields_under(entries, grouped(entries)[k].headword) && has_headword(
                entries,
                grouped(entries)[k].headword,
            ),
        forall|i: int|
            0 <= i < entries.len() ==> has_group(grouped(entries), (#[trigger] entries[i]).headword),
    decreases entries.len(),
{
    if entries.len() > 0 {
        lemma_text_total();
        let n = entries.len() - 1;
        let before = entries.drop_last();
        let entry = entries.last();
        let old = grouped(before);
        let new = grouped(entries);
        assert(ascending(before)) by {
            assert forall|i: int, j: int| 0 <= i < j < before.len() implies #[trigger] entry_leq()(
                before[i],
                before[j],
            ) by {
                assert(entry_leq()(entries[i], entries[j]));
            }
        }
        lemma_grouped(before);
        let joins = old.len() > 0 && old.last().headword == entry.headword;
        if !joins {
            // The new headword is greater than that of every group so far.
            assert forall|k: int| 0 <= k < old.len() implies text_rank(
                (#[trigger] old[k]).headword,
                entry.headword,
            ) == Rank::Before by {
                assert(entry_leq()(entries[n - 1], entries[n]));
                let heads = group_headwords(old);
                if k < old.len() - 1 {
                    assert(text_rank(heads[k], heads[old.len() - 1]) == Rank::Before);
                }
                let last = text_order()(old.last().headword, entry.headword);
                let here = text_order()(old[k].headword, old.last().headword);
                let both = text_order()(old[k].headword, entry.headword);
                assert(last == Rank::Before);
            }
            assert(!has_headword(before, entry.headword)) by {
                if has_headword(before, entry.headword) {
                    let i = choose|i: int|
                        0 <= i < before.len() && (#[trigger] before[i]).headword == entry.headword;
                    assert(has_group(old, before[i].headword));
                    let k = choose|k: int|
                        0 <= k < old.len() && (#[trigger] old[k]).headword == entry.headword;
                    let same = text_order()(old[k].headword, entry.headword);
                    assert(false);
                }
            }
            lemma_no_fields(before, entry.headword);
        }
        assert forall|k: int| 0 <= k < new.len() implies (#[trigger] new[k]).fields
            == fields_under(entries, new[k].headword) && has_headword(
            entries,
            new[k].headword,
        ) by {
            if k < old.len() && !(joins && k == old.len() - 1) {
                assert(new[k] == old[k]);
                if joins {
                    let heads = group_headwords(old);
                    assert(text_rank(heads[k], heads[old.len() - 1]) == Rank::Before);
                    let r = text_order()(old[k].headword, old.last().headword);
                    assert(old[k].headword != entry.headword);
                } else {
                    let r = text_order()(old[k].headword, entry.headword);
                    assert(old[k].headword != entry.headword);
                }
                let i = choose|i: int|
                    0 <= i < before.len() && (#[trigger] before[i]).headword == old[k].headword;
                assert(entries[i].headword == new[k].headword);
            } else {
                assert(entries[n].headword == new[k].headword);
            }
        }
        assert forall|i: int| 0 <= i < entries.len() implies has_group(
            new,
            (#[trigger] entries[i]).headword,
        ) by {
            if i < n {
                assert(has_group(old, before[i].headword));
                let k = choose|k: int|
                    0 <= k < old.len() && (#[trigger] old[k]).headword == before[i].headword;
                assert(new[k].headword == entries[i].headword);
            } else {
                assert(new[new.len() - 1].headword == entries[i].headword);
            }
        }
        assert(headwords_grow(group_headwords(new))) by {
            let heads = group_headwords(new);
            let before = group_headwords(old);
            assert forall|i: int, j: int| 0 <= i < j < heads.len() implies text_rank(
                #[trigger] heads[i],
                #[trigger] heads[j],
            ) == Rank::Before by {
                if j < old.len() {
                    assert(new[i].headword == old[i].headword);
                    assert(new[j].headword == old[j].headword);
                    assert(text_rank(before[i], before[j]) == Rank::Before);
                } else {
                    assert(new[i].headword == old[i].headword);
                }
            }
        }
    }
}

/// Where the headwords grow, the index maps the bytes of each headword, and
/// nothing else, to its position.
pub proof fn lemma_index_of(headwords: Seq<Seq<char>>)
    requires
        headwords_grow(headwords),
        headwords.len() <= u64::MAX,
    ensures
        forall|k: int|
            0 <= k < headwords.len() ==> index_of(headwords).contains_key(
                encode_utf8(#[trigger] headwords[k]),
            ) && index_of(headwords)[encode_utf8(headwords[k])] == k,
        forall|key: Seq<u8>| #[trigger]
            index_of(headwords).contains_key(key) ==> exists|k: int|
                0 <= k < headwords.len() && encode_utf8(#[trigger] headwords[k]) == key,
    decreases headwords.len(),
{
    if headwords.len() > 0 {
        lemma_text_total();
        let before = headwords.drop_last();
        let last = headwords.last();
        assert(headwords_grow(before)) by {
            assert forall|i: int, j: int| 0 <= i < j < before.len() implies text_rank(
                #[trigger] before[i],
                #[trigger] before[j],
            ) == Rank::Before by {
                assert(text_rank(headwords[i], headwords[j]) == Rank::Before);
            }
        }
        lemma_index_of(before);
        assert forall|k: int| 0 <= k < headwords.len() implies index_of(headwords).contains_key(
            encode_utf8(#[trigger] headwords[k]),
        ) && index_of(headwords)[encode_utf8(headwords[k])] == k by {
            if k < before.len() {
                assert(headwords[k] == before[k]);
                assert(text_rank(headwords[k], headwords[headwords.len() - 1]) == Rank::Before);
                let r = text_order()(headwords[k], last);
                assert(headwords[k] != last);
                encode_utf8_decode_utf8(headwords[k]);
                encode_utf8_decode_utf8(last);
            }
        }
        assert forall|key: Seq<u8>| #[trigger] index_of(headwords).contains_key(
            key,
        ) implies exists|k: int|
            0 <= k < headwords.len() && encode_utf8(#[trigger] headwords[k]) == key by {
            if key == encode_utf8(last) {
                assert(encode_utf8(headwords[headwords.len() - 1]) == key);
            } else {
                assert(index_of(before).contains_key(key));
                let k = choose|k: int|
                    0 <= k < before.len() && encode_utf8(#[trigger] before[k]) == key;
                assert(encode_utf8(headwords[k]) == key);
            }
        }
    }
}

/// Some key of the index has the value `position`.
pub open spec fn holds_position(index: Map<Seq<u8>, u64>, position: int) -> bool {
    exists|key: Seq<u8>| #[trigger] index.contains_key(key) && index[key] == position
}

/// The index numbers its keys in their order: its values are the positions
/// below `groups`, each the value of one key, and a greater key has the
/// greater value.
pub open spec fn in_order(index: Map<Seq<u8>, u64>, groups: nat) -> bool {
    &&& forall|key: Seq<u8>| #[trigger] index.contains_key(key) ==> index[key] < groups
    &&& forall|a: Seq<u8>, b: Seq<u8>|
        index.contains_key(a) && index.contains_key(b) && #[trigger] bytes_rank(a, b)
            == Rank::Before ==> index[a] < index[b]
    &&& forall|position: int|
        0 <= position < groups ==> #[trigger] holds_position(index, position)
}

/// The index of headwords that grow numbers its keys in their order.
pub proof fn lemma_index_in_order(headwords: Seq<Seq<char>>)
    requires
        headwords_grow(headwords),
        headwords.len() <= u64::MAX,
    ensures
        in_order(index_of(headwords), headwords.len()),
{
    let index = index_of(headwords);
    lemma_index_of(headwords);
    lemma_index_in_range(headwords);
    lemma_bytes_total();
    let o = lex_order(byte_order());
    assert forall|a: Seq<u8>, b: Seq<u8>|
        index.contains_key(a) && index.contains_key(b) && #[trigger] bytes_rank(a, b)
            == Rank::Before implies index[a] < index[b] by {
        let i = choose|i: int| 0 <= i < headwords.len() && encode_utf8(#[trigger] headwords[i]) == a;
        let j = choose|j: int| 0 <= j < headwords.len() && encode_utf8(#[trigger] headwords[j]) == b;
        assert(o(a, b) == o(b, a).flip());
        if i > j {
            assert(text_rank(headwords[j], headwords[i]) == Rank::Before);
        }
    }
    assert forall|position: int| 0 <= position < headwords.len() implies #[trigger] holds_position(
        index,
        position,
    ) by {
        assert(index.contains_key(encode_utf8(headwords[position])));
    }
}

} // verus!
