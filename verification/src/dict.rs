//! The dictionary: a sorted index of headwords over a table of groups of
//! fields.

use vstd::prelude::*;
use vstd::string::*;
use vstd::utf8::{
    decode_utf8, encode_utf8, encode_utf8_decode_utf8, encode_utf8_valid_utf8, valid_utf8,
};
use crate::error::DictError;
use crate::field::{entries_view, fields_view, Entry, EntryView, Field, FieldView};
use crate::grammar::parse_line;
use crate::group::{
    each_grows, fields_under, group_fields, group_headwords, grouped, groups_view, has_group,
    has_headword, headwords_grow, holds_position, in_order, index_of, lemma_each_grows,
    lemma_group_joined, lemma_group_opened, lemma_grouped, lemma_index_in_order, lemma_index_of,
    lemma_table_push, texts_view,
};
use crate::index::{
    blob_checks, blob_entries, blob_opens, builder_entries, builder_insert, builder_last,
    finish_builder, index_blob, index_entries, index_intact, new_builder, sizes_fit,
};
use crate::order::{
    byte_order, bytes_rank, entry_leq, lemma_bytes_total, lemma_entry_total, lex_order,
    text_rank, Rank,
};
use crate::parser::entry_in;
use crate::sort::{ascending, sort_entries, sorted_entries};
use crate::text::{lemma_lines_end, lemma_lines_step, lines_of, without_return};

verus! {

/// A dictionary. Its index maps the UTF-8 form of each headword to the
/// position of that headword's group in the table of groups.
#[derive(Debug)]
pub struct Dict {
    keys: fst::Map<Vec<u8>>,
    fields: Vec<Vec<Field>>,
}

impl Dict {
    /// The bytes that the index is stored as.
    pub closed spec fn blob(&self) -> Seq<u8> {
        index_blob(self.keys)
    }

    /// The index: from the bytes of a headword to the position of its group.
    /// It is what the bytes of the index hold, where they hold an index.
    pub open spec fn index(&self) -> Map<Seq<u8>, u64> {
        blob_entries(self.blob())->0
    }

    /// The table of groups.
    pub closed spec fn groups(&self) -> Seq<Seq<FieldView>> {
        groups_view(self.fields@)
    }

    /// The dictionary can be searched: the bytes of its index are a builder's,
    /// for the entries of the index, and the index numbers its keys in their
    /// order, so that each headword has its own group, each group its
    /// headword, and the groups stand in the order of the bytes of their
    /// headwords. A dictionary that was built is sound; of one that was
    /// loaded from bytes this is known only where the bytes are the snapshot
    /// of a sound one.
    pub open spec fn sound(&self) -> bool {
        &&& blob_entries(self.blob()) is Some
        &&& sizes_fit(self.blob())
        &&& blob_opens(self.blob())
        &&& blob_checks(self.blob())
        &&& in_order(self.index(), self.groups().len())
    }

    /// A dictionary of an index and a table of groups.
    pub(crate) fn from_parts(keys: fst::Map<Vec<u8>>, fields: Vec<Vec<Field>>) -> (dict: Dict)
        ensures
            dict.blob() == index_blob(keys),
            dict.index() == index_entries(keys),
            dict.groups() == groups_view(fields@),
    {
        Dict { keys, fields }
    }

    /// The index of the dictionary.
    pub fn keys(&self) -> (keys: &fst::Map<Vec<u8>>)
        ensures
            index_blob(*keys) == self.blob(),
    {
        &self.keys
    }

    /// The table of groups of the dictionary.
    pub fn fields(&self) -> (fields: &Vec<Vec<Field>>)
        ensures
            groups_view(fields@) == self.groups(),
    {
        &self.fields
    }
}

impl View for Dict {
    type V = Map<Seq<u8>, Seq<FieldView>>;

    /// The dictionary as a map from the bytes of a headword to its fields.
    open spec fn view(&self) -> Map<Seq<u8>, Seq<FieldView>> {
        Map::new(
            |key: Seq<u8>| self.index().contains_key(key),
            |key: Seq<u8>| self.groups()[self.index()[key] as int],
        )
    }
}

/// In every dictionary each headword has a group of its own, each group is
/// that of a headword, and a headword with the greater bytes has the later
/// group.
pub proof fn lemma_one_group_each(dict: Dict)
    requires
        dict.sound(),
    ensures
        forall|a: Seq<u8>, b: Seq<u8>|
            #![trigger dict.index()[a], dict.index()[b]]
            dict@.contains_key(a) && dict@.contains_key(b) && a != b ==> dict.index()[a]
                != dict.index()[b],
        forall|a: Seq<u8>, b: Seq<u8>|
            dict@.contains_key(a) && dict@.contains_key(b) && #[trigger] bytes_rank(a, b)
                == Rank::Before ==> dict.index()[a] < dict.index()[b],
        forall|position: int|
            0 <= position < dict.groups().len() ==> #[trigger] holds_position(
                dict.index(),
                position,
            ),
        forall|key: Seq<u8>| #[trigger]
            dict@.contains_key(key) ==> dict.index()[key] < dict.groups().len() && dict@[key]
                == dict.groups()[dict.index()[key] as int],
{
    lemma_bytes_total();
    let o = lex_order(byte_order());
    assert forall|a: Seq<u8>, b: Seq<u8>|
        #![trigger dict.index()[a], dict.index()[b]]
        dict@.contains_key(a) && dict@.contains_key(b) && a != b implies dict.index()[a]
        != dict.index()[b] by {
        assert(o(a, b) == o(b, a).flip());
        let r = (bytes_rank(a, b), bytes_rank(b, a));
    }
}

/// The dictionary holds the groups of `entries`, sorted, in their order.
pub open spec fn holds_entries(dict: Dict, entries: Seq<EntryView>) -> bool {
    let groups = grouped(sorted_entries(entries));
    &&& dict.sound()
    &&& dict.index() == index_of(group_headwords(groups))
    &&& dict.groups() == group_fields(groups)
}

/// The same headwords stand in two lists that hold the same entries.
proof fn lemma_same_headwords(a: Seq<EntryView>, b: Seq<EntryView>, headword: Seq<char>)
    requires
        a.to_multiset() == b.to_multiset(),
        has_headword(a, headword),
    ensures
        has_headword(b, headword),
{
    broadcast use vstd::seq_lib::group_to_multiset_ensures;

    let i = choose|i: int| 0 <= i < a.len() && (#[trigger] a[i]).headword == headword;
    assert(a.contains(a[i]));
    assert(b.to_multiset().count(a[i]) > 0);
    assert(b.contains(a[i]));
    let j = choose|j: int| 0 <= j < b.len() && b[j] == a[i];
    assert(b[j].headword == headword);
}

/// A dictionary that holds the groups of a list of entries holds the
/// headwords of those entries and no others, and under each headword the
/// fields of all entries with that headword, and of no others, in the order
/// that sorting puts them in.
pub proof fn lemma_groups_partition(dict: Dict, entries: Seq<EntryView>)
    requires
        holds_entries(dict, entries),
        entries.len() <= usize::MAX,
    ensures
        ascending(sorted_entries(entries)),
        sorted_entries(entries).to_multiset() == entries.to_multiset(),
        forall|headword: Seq<char>|
            dict@.contains_key(#[trigger] encode_utf8(headword)) <==> has_headword(
                entries,
                headword,
            ),
        forall|key: Seq<u8>| #[trigger]
            dict@.contains_key(key) ==> valid_utf8(key) && has_headword(entries, decode_utf8(key)),
        forall|headword: Seq<char>|
            has_headword(entries, headword) ==> dict@[#[trigger] encode_utf8(headword)]
                == fields_under(sorted_entries(entries), headword),
{
    broadcast use vstd::seq_lib::group_to_multiset_ensures;

    let sorted = sorted_entries(entries);
    let groups = grouped(sorted);
    lemma_entry_total();
    entries.lemma_sort_by_ensures(entry_leq());
    assert(sorted.len() == entries.len()) by {
        assert(sorted.to_multiset().len() == entries.to_multiset().len());
    }
    lemma_grouped(sorted);
    let heads = group_headwords(groups);
    lemma_index_of(heads);
    assert forall|headword: Seq<char>| has_headword(entries, headword) implies dict@.contains_key(
        #[trigger] encode_utf8(headword),
    ) && dict@[encode_utf8(headword)] == fields_under(sorted, headword) by {
        lemma_same_headwords(entries, sorted, headword);
        let i = choose|i: int| 0 <= i < sorted.len() && (#[trigger] sorted[i]).headword == headword;
        assert(has_group(groups, sorted[i].headword));
        let k = choose|k: int| 0 <= k < groups.len() && (#[trigger] groups[k]).headword == headword;
        assert(heads[k] == headword);
        assert(dict.index()[encode_utf8(heads[k])] == k);
        assert(dict.groups()[k] == groups[k].fields);
    }
    assert forall|key: Seq<u8>| #[trigger] dict@.contains_key(key) implies valid_utf8(key)
        && has_headword(entries, decode_utf8(key)) by {
        assert(index_of(heads).contains_key(key));
        let k = choose|k: int| 0 <= k < heads.len() && encode_utf8(#[trigger] heads[k]) == key;
        let headword = groups[k].headword;
        assert(heads[k] == headword);
        encode_utf8_valid_utf8(headword);
        encode_utf8_decode_utf8(headword);
        assert(has_headword(sorted, headword));
        lemma_same_headwords(sorted, entries, headword);
    }
    assert forall|headword: Seq<char>|
        dict@.contains_key(#[trigger] encode_utf8(headword)) implies has_headword(
        entries,
        headword,
    ) by {
        encode_utf8_decode_utf8(headword);
    }
}

/// Builds the index of a list of headwords: it maps the UTF-8 form of each
/// headword to the position of the headword in the list.
///
/// Fails where a headword is not greater, byte by byte, than the one before
/// it: the index takes its keys in ascending order only, and each once.
pub fn build_index(headwords: &Vec<String>) -> (r: Result<fst::Map<Vec<u8>>, DictError>)
    ensures
        match r {
            Ok(index) => {
                &&& each_grows(texts_view(headwords@))
                &&& headwords_grow(texts_view(headwords@))
                &&& index_intact(index)
                &&& sizes_fit(index_blob(index))
                &&& blob_opens(index_blob(index))
                &&& blob_checks(index_blob(index))
                &&& index_entries(index) == index_of(texts_view(headwords@))
            },
            Err(e) => !each_grows(texts_view(headwords@)) && e == DictError::DuplicateInsertion,
        },
{
    let ghost texts = texts_view(headwords@);
    let mut builder = new_builder();
    let mut i: usize = 0;
    assert(texts.take(0) =~= Seq::empty());
    while i < headwords.len()
        invariant
            i <= headwords.len(),
            texts == texts_view(headwords@),
            each_grows(texts.take(i as int)),
            builder_entries(builder) == index_of(texts.take(i as int)),
            builder_last(builder) == if i == 0 {
                None
            } else {
                Some(encode_utf8(texts[i - 1]))
            },
        decreases headwords.len() - i,
    {
        let taken = builder_insert(&mut builder, headwords[i].as_str().as_bytes(), i as u64);
        proof {
            assert(texts[i as int] == headwords@[i as int]@);
            assert(texts.take(i + 1).drop_last() =~= texts.take(i as int));
            assert(texts.take(i + 1).last() == texts[i as int]);
        }
        match taken {
            Ok(()) => {
                proof {
                    let now = texts.take(i + 1);
                    let was = texts.take(i as int);
                    assert forall|j: int, k: int| 0 <= j && k == j + 1 && k < now.len() implies text_rank(
                        #[trigger] now[j],
                        #[trigger] now[k],
                    ) == Rank::Before by {
                        if k < i {
                            assert(text_rank(was[j], was[k]) == Rank::Before);
                        }
                    }
                }
            },
            Err(_) => {
                assert(text_rank(texts[i - 1], texts[i as int]) != Rank::Before);
                return Err(DictError::DuplicateInsertion);
            },
        }
        i += 1;
    }
    proof {
        assert(texts.take(i as int) =~= texts);
        lemma_each_grows(texts);
    }
    Ok(finish_builder(builder))
}

/// Builds the dictionary of a list of entries. The entries are sorted by the
/// bytes of their headword, then by field, then by line; entries that share a
/// headword then form one group, and the groups stand in the order of their
/// headwords.
///
/// The index takes every headword, since each is greater than the one before
/// it: no list of entries makes this fail.
pub fn build(entries: Vec<Entry>) -> (r: Result<Dict, DictError>)
    ensures
        r is Ok,
        holds_entries(r->Ok_0, entries_view(entries@)),
{
    let sorted = sort_entries(entries);
    let ghost sv = entries_view(sorted@);
    let mut headwords: Vec<String> = Vec::new();
    let mut fields: Vec<Vec<Field>> = Vec::new();
    let mut current: Vec<Field> = Vec::new();
    proof {
        assert(sv.take(0) =~= Seq::empty());
        assert(texts_view(headwords@) =~= group_headwords(grouped(sv.take(0))));
    }
    for entry in rest: sorted
        invariant
            rest.seq() == sorted@,
            sv == entries_view(sorted@),
            texts_view(headwords@) == group_headwords(grouped(sv.take(rest.index() as int))),
            rest.index() == 0 ==> fields@.len() == 0 && current@.len() == 0,
            rest.index() > 0 ==> {
                let groups = grouped(sv.take(rest.index() as int));
                &&& groups.len() == fields@.len() + 1
                &&& fields_view(current@) == groups.last().fields
                &&& groups_view(fields@) == group_fields(groups).drop_last()
            },
    {
        let ghost i = rest.index() as int;
        let ghost before = grouped(sv.take(i));
        let ghost old_current = current@;
        let ghost old_fields = fields@;
        let ghost old_headwords = headwords@;
        assert(entry@ == sv[i]);
        let Entry { headword, field, line: _ } = entry;
        let opens = headwords.len() == 0 || !(headwords[headwords.len() - 1] == headword);
        proof {
            assert(texts_view(old_headwords).len() == before.len());
            if before.len() > 0 {
                assert(texts_view(old_headwords)[before.len() - 1] == before.last().headword);
            }
            if i == 0 {
                assert(sv.take(0) =~= Seq::empty());
            }
        }
        if opens {
            if headwords.len() > 0 {
                fields.push(current);
                current = Vec::new();
                proof {
                    assert(fields@.drop_last() =~= old_fields);
                    lemma_table_push(old_fields, fields@, before);
                }
            } else {
                proof {
                    assert(groups_view(fields@) =~= group_fields(before));
                }
            }
            headwords.push(headword);
            current.push(field);
            proof {
                lemma_group_opened(sv, i);
                assert(fields_view(current@) =~= seq![field@]);
                assert(texts_view(headwords@) =~= texts_view(old_headwords).push(headword@));
            }
        } else {
            current.push(field);
            proof {
                lemma_group_joined(sv, i);
                assert(fields_view(current@) =~= fields_view(old_current).push(field@));
            }
        }
    }
    proof {
        assert(sv.take(sorted@.len() as int) =~= sv);
    }
    let ghost groups = grouped(sv);
    if headwords.len() > 0 {
        let ghost table = fields@;
        fields.push(current);
        proof {
            assert(fields@.drop_last() =~= table);
            lemma_table_push(table, fields@, groups);
        }
    } else {
        proof {
            assert(texts_view(headwords@).len() == groups.len());
            if sorted@.len() > 0 {
                assert(false);
            }
            assert(groups_view(fields@) =~= group_fields(groups));
        }
    }
    proof {
        lemma_grouped(sv);
        lemma_index_in_order(group_headwords(groups));
        assert(groups.len() == groups_view(fields@).len());
    }
    match build_index(&headwords) {
        Ok(keys) => Ok(Dict::from_parts(keys, fields)),
        Err(e) => Err(e),
    }
}

/// Every line holds an entry.
pub open spec fn all_parse(lines: Seq<Seq<char>>) -> bool {
    forall|i: int| 0 <= i < lines.len() ==> parse_line(#[trigger] lines[i]) is Some
}

/// The entries of a corpus whose lines all hold one: that of each line, with
/// the number of the line.
pub open spec fn corpus_entries(lines: Seq<Seq<char>>) -> Seq<EntryView> {
    Seq::new(lines.len(), |i: int| line_entry(lines[i], i as nat))
}

/// The entry of a line that holds one, with the number of the line.
pub open spec fn line_entry(text: Seq<char>, line: nat) -> EntryView {
    let (headword, field) = parse_line(text).unwrap();
    EntryView { headword, field, line }
}

/// Reads a corpus, one entry to a line, and builds its dictionary.
///
/// Fails at the first line that holds no entry, with the number of that line,
/// counted from zero.
pub fn parse(text: &str) -> (r: Result<Dict, DictError>)
    ensures
        match r {
            Ok(dict) => {
                &&& all_parse(lines_of(text@))
                &&& holds_entries(dict, corpus_entries(lines_of(text@)))
            },
            Err(e) => match e {
                DictError::MalformedEntry { line } => {
                    &&& line < lines_of(text@).len()
                    &&& parse_line(lines_of(text@)[line as int]) is None
                    &&& forall|i: int|
                        0 <= i < line ==> parse_line(#[trigger] lines_of(text@)[i]) is Some
                },
                _ => false,
            },
        },
{
    broadcast use vstd::string::group_string_axioms;

    let ghost t = text@;
    let ghost all = lines_of(t);
    let ghost mut start: int = 0;
    let ghost mut done: Seq<Seq<char>> = Seq::empty();
    let mut entries: Vec<Entry> = Vec::new();
    let mut line: Vec<char> = Vec::new();
    proof {
        assert(t.skip(0) =~= t);
        assert(done + lines_of(t.skip(0)) =~= all);
        assert(entries_view(entries@) =~= corpus_entries(done));
        assert(line@ =~= t.subrange(0, 0));
    }
    for c in rest: text.chars()
        invariant
            t == text@,
            rest.seq() == t,
            all == lines_of(t),
            0 <= start <= rest.index() <= t.len(),
            line@ == t.subrange(start, rest.index() as int),
            forall|i: int| start <= i < rest.index() ==> #[trigger] t[i] != '\n',
            all == done + lines_of(t.skip(start)),
            done.len() == entries@.len(),
            forall|i: int| 0 <= i < done.len() ==> parse_line(#[trigger] done[i]) is Some,
            entries_view(entries@) == corpus_entries(done),
    {
        let ghost at = rest.index() as int;
        assert(c == t[at]);
        if c == '\n' {
            proof {
                lemma_lines_step(t, start, at);
            }
            if line.len() > 0 && line[line.len() - 1] == '\r' {
                line.pop();
            }
            let ghost shown = without_return(t.subrange(start, at));
            assert(line@ =~= shown);
            assert(all =~= done.push(shown) + lines_of(t.skip(at + 1)));
            assert(all[done.len() as int] == shown);
            let number = entries.len();
            match entry_in(&line) {
                Some((headword, field)) => {
                    let ghost before = entries@;
                    entries.push(Entry { headword, field, line: number });
                    proof {
                        assert(entries@.drop_last() =~= before);
                        lemma_entry_pushed(before, entries@, done, shown);
                        done = done.push(shown);
                        start = at + 1;
                    }
                },
                None => {
                    assert forall|i: int| 0 <= i < number implies parse_line(
                        #[trigger] all[i],
                    ) is Some by {
                        assert(all[i] == done[i]);
                    }
                    return Err(DictError::MalformedEntry { line: number });
                },
            }
            line = Vec::new();
            assert(line@ =~= t.subrange(start, at + 1));
        } else {
            line.push(c);
            assert(line@ =~= t.subrange(start, at + 1));
        }
    }
    proof {
        lemma_lines_end(t, start);
        assert(line@ =~= t.skip(start));
    }
    if line.len() > 0 {
        let ghost shown = line@;
        assert(all =~= done.push(shown));
        assert(all[done.len() as int] == shown);
        let number = entries.len();
        match entry_in(&line) {
            Some((headword, field)) => {
                let ghost before = entries@;
                entries.push(Entry { headword, field, line: number });
                proof {
                    assert(entries@.drop_last() =~= before);
                    lemma_entry_pushed(before, entries@, done, shown);
                    done = done.push(shown);
                }
            },
            None => {
                assert forall|i: int| 0 <= i < number implies parse_line(#[trigger] all[i])
                    is Some by {
                    assert(all[i] == done[i]);
                }
                return Err(DictError::MalformedEntry { line: number });
            },
        }
    } else {
        assert(all =~= done);
    }
    build(entries)
}

/// The entries of a corpus with one more line.
proof fn lemma_entry_pushed(
    before: Seq<Entry>,
    after: Seq<Entry>,
    done: Seq<Seq<char>>,
    line: Seq<char>,
)
    requires
        entries_view(before) == corpus_entries(done),
        before.len() == done.len(),
        after.len() == before.len() + 1,
        after.drop_last() == before,
        parse_line(line) == Some((after.last().headword@, after.last().field@)),
        after.last().line == done.len(),
    ensures
        entries_view(after) == corpus_entries(done.push(line)),
{
    let now = entries_view(after);
    let wanted = corpus_entries(done.push(line));
    assert forall|i: int| 0 <= i < now.len() implies now[i] == wanted[i] by {
        if i < before.len() {
            assert(after[i] == after.drop_last()[i]);
            assert(now[i] == entries_view(before)[i]);
            assert(done.push(line)[i] == done[i]);
        }
    }
    assert(now =~= wanted);
}

} // verus!
