//! Looking up headwords within a bounded edit distance of a query.

use vstd::prelude::*;
use vstd::string::*;
use vstd::utf8::{
    decode_utf8, decode_utf8_encode_utf8, encode_utf8, encode_utf8_decode_utf8,
    encode_utf8_valid_utf8, is_ascii_chars, valid_utf8,
};
use crate::dict::{all_parse, corpus_entries, parse, Dict};
use crate::distance::{
    edit_distance, lemma_distance_bounds_length, lemma_distance_to_self, lemma_distance_zero,
    within_budget,
};
use crate::error::DictError;
use crate::field::{fields_view, EntryView, Field, FieldView};
use crate::grammar::parse_line;
use crate::group::{group_fields, group_headwords, grouped, groups_view, index_of, texts_view};
use crate::render::{printed, printer};
use crate::sort::sorted_entries;
use crate::text::lines_of;
use crate::index::{automaton_keys, index_matches, lists, new_automaton, query_keys, within_edits};
use crate::order::{lemma_text_total, text_order, text_rank, Rank};
use crate::text::{string_from_utf8, text_chars};

verus! {

/// A headword that a search found, with its fields.
pub struct FoundView {
    pub headword: Seq<char>,
    pub fields: Seq<FieldView>,
}

/// The views of what a search found, in order.
pub open spec fn found_view(found: Seq<(String, &Vec<Field>)>) -> Seq<FoundView> {
    Seq::new(
        found.len(),
        |i: int| FoundView { headword: found[i].0@, fields: fields_view(found[i].1@) },
    )
}

/// The search goes by the automaton of the query itself: with no edits
/// allowed, or with a query of ASCII characters, that automaton accepts all
/// that is within the budget. Otherwise the search takes every headword that
/// is short enough to be within the budget, and measures its distance itself.
pub open spec fn direct(query: Seq<char>, max_edits: u32) -> bool {
    max_edits == 0 || is_ascii_chars(query)
}

/// The automaton that a search for `query` with `max_edits` needs can be made:
/// it stays under the limit that the index library puts on its size, and its
/// budget is one that the library can count.
pub open spec fn automaton_fits(query: Seq<char>, max_edits: u32) -> bool {
    if direct(query, max_edits) {
        max_edits < usize::MAX && query_keys(query, max_edits) is Some
    } else {
        &&& query.len() + max_edits <= u32::MAX
        &&& query.len() + max_edits < usize::MAX
        &&& query_keys(Seq::empty(), (query.len() + max_edits) as u32) is Some
    }
}

/// `found` is what a search for `query` with `max_edits` finds in `entries`:
/// the headwords that are at most `max_edits` edits away from `query`, all of
/// them, each once and with its fields, in strictly ascending order of their
/// bytes.
pub open spec fn finds(
    entries: Map<Seq<u8>, Seq<FieldView>>,
    query: Seq<char>,
    max_edits: u32,
    found: Seq<FoundView>,
) -> bool {
    &&& forall|i: int, j: int|
        0 <= i < j < found.len() ==> text_rank(
            (#[trigger] found[i]).headword,
            (#[trigger] found[j]).headword,
        ) == Rank::Before
    &&& forall|i: int|
        0 <= i < found.len() ==> {
            &&& entries.contains_key(encode_utf8((#[trigger] found[i]).headword))
            &&& entries[encode_utf8(found[i].headword)] == found[i].fields
            &&& edit_distance(query, found[i].headword) <= max_edits
        }
    &&& forall|headword: Seq<char>|
        entries.contains_key(#[trigger] encode_utf8(headword)) && edit_distance(query, headword)
            <= max_edits ==> exists|i: int|
            0 <= i < found.len() && (#[trigger] found[i]).headword == headword
}

/// Takes from a list of entries of the index those whose key is within the
/// budget, each with its group. With `all` the list is known to hold no
/// others, and none is measured.
fn gather<'a>(
    dict: &'a Dict,
    pairs: Vec<(Vec<u8>, u64)>,
    chars: &Vec<char>,
    max_edits: u32,
    all: bool,
    Ghost(wanted): Ghost<spec_fn(Seq<u8>) -> bool>,
) -> (found: Vec<(String, &'a Vec<Field>)>)
    requires
        dict.sound(),
        lists(pairs@, dict.index(), wanted),
        forall|key: Seq<u8>| #[trigger] wanted(key) ==> valid_utf8(key),
        all ==> forall|key: Seq<u8>| #[trigger]
            wanted(key) ==> edit_distance(chars@, decode_utf8(key)) <= max_edits,
        forall|key: Seq<u8>|
            valid_utf8(key) && edit_distance(chars@, decode_utf8(key)) <= max_edits
                ==> #[trigger] wanted(key),
    ensures
        finds(dict@, chars@, max_edits, found_view(found@)),
{
    let table = dict.fields();
    let ghost keys = pairs@;
    let ghost mut picked: Seq<int> = Seq::empty();
    let mut found: Vec<(String, &'a Vec<Field>)> = Vec::new();
    for pair in rest: pairs
        invariant
            rest.seq() == keys,
            dict.sound(),
            groups_view(table@) == dict.groups(),
            lists(keys, dict.index(), wanted),
            forall|key: Seq<u8>| #[trigger] wanted(key) ==> valid_utf8(key),
            all ==> forall|key: Seq<u8>| #[trigger]
                wanted(key) ==> edit_distance(chars@, decode_utf8(key)) <= max_edits,
            picked.len() == found@.len(),
            forall|k: int| 0 <= k < picked.len() ==> 0 <= #[trigger] picked[k] < rest.index(),
            forall|a: int, b: int|
                0 <= a < b < picked.len() ==> #[trigger] picked[a] < #[trigger] picked[b],
            forall|k: int|
                0 <= k < found@.len() ==> {
                    &&& encode_utf8((#[trigger] found@[k]).0@) == keys[picked[k]].0@
                    &&& found@[k].0@ == decode_utf8(keys[picked[k]].0@)
                    &&& fields_view(found@[k].1@) == dict.groups()[keys[picked[k]].1 as int]
                    &&& edit_distance(chars@, found@[k].0@) <= max_edits
                },
            forall|i: int|
                0 <= i < rest.index() && edit_distance(chars@, decode_utf8((#[trigger] keys[i]).0@))
                    <= max_edits ==> picked.contains(i),
    {
        let ghost i = rest.index() as int;
        let ghost before = picked;
        let (key, position) = pair;
        assert(key@ == keys[i].0@ && position == keys[i].1);
        assert(dict.index().contains_key(keys[i].0@));
        assert(wanted(key@));
        assert(table@.len() == groups_view(table@).len());
        assert(position < table@.len());
        assert(table.len() == table@.len());
        let group = &table[position as usize];
        proof {
            decode_utf8_encode_utf8(key@);
            assert(fields_view(group@) == groups_view(table@)[position as int]);
        }
        match string_from_utf8(key) {
            Some(headword) => {
                if all || within_budget(chars, &text_chars(headword.as_str()), max_edits) {
                    found.push((headword, group));
                    proof {
                        picked = picked.push(i);
                        assert(picked[picked.len() - 1] == i);
                    }
                }
            },
            None => {
                assert(false);
            },
        }
        proof {
            assert forall|j: int|
                0 <= j < i + 1 && edit_distance(chars@, decode_utf8((#[trigger] keys[j]).0@))
                    <= max_edits implies picked.contains(j) by {
                if j < i {
                    assert(before.contains(j));
                    let k = choose|k: int| 0 <= k < before.len() && before[k] == j;
                    assert(picked[k] == j);
                } else {
                    assert(picked[picked.len() - 1] == i);
                }
            }
        }
    }
    proof {
        let entries = dict@;
        let out = found_view(found@);
        assert forall|a: int, b: int| 0 <= a < b < out.len() implies text_rank(
            (#[trigger] out[a]).headword,
            (#[trigger] out[b]).headword,
        ) == Rank::Before by {
            assert(picked[a] < picked[b]);
            assert(encode_utf8(found@[a].0@) == keys[picked[a]].0@);
            assert(encode_utf8(found@[b].0@) == keys[picked[b]].0@);
        }
        assert forall|k: int| 0 <= k < out.len() implies {
            &&& entries.contains_key(encode_utf8((#[trigger] out[k]).headword))
            &&& entries[encode_utf8(out[k].headword)] == out[k].fields
            &&& edit_distance(chars@, out[k].headword) <= max_edits
        } by {
            assert(encode_utf8(found@[k].0@) == keys[picked[k]].0@);
            assert(dict.index().contains_key(keys[picked[k]].0@));
        }
        assert forall|headword: Seq<char>|
            entries.contains_key(#[trigger] encode_utf8(headword)) && edit_distance(
                chars@,
                headword,
            ) <= max_edits implies exists|k: int|
            0 <= k < out.len() && (#[trigger] out[k]).headword == headword by {
            let key = encode_utf8(headword);
            encode_utf8_valid_utf8(headword);
            encode_utf8_decode_utf8(headword);
            assert(dict.index().contains_key(key));
            assert(wanted(key));
            let i = choose|i: int| 0 <= i < keys.len() && (#[trigger] keys[i]).0@ == key;
            assert(picked.contains(i));
            let k = choose|k: int| 0 <= k < picked.len() && picked[k] == i;
            assert(out[k].headword == headword);
        }
    }
    found
}

/// Finds the headwords of `dict` that are at most `max_edits` insertions,
/// deletions or replacements of single characters away from `query`, each
/// with its fields, in ascending order of their bytes.
///
/// With no edits allowed, or with a query of ASCII characters, the index is
/// searched with the automaton of the query. The library's automaton for
/// another query misses headwords; for such a query the index is searched for
/// all headwords that are short enough to be within the budget, and the
/// distance of each is measured here.
///
/// Fails where the automaton that is needed would be larger than the index
/// library allows, or its budget more than the library can count.
///
/// The dictionary has to be sound: the index library reads the bytes of the
/// index as they are, and may panic on bytes that no builder wrote.
pub fn search<'a>(dict: &'a Dict, query: &str, max_edits: u32) -> (r: Result<
    Vec<(String, &'a Vec<Field>)>,
    DictError,
>)
    requires
        dict.sound(),
    ensures
        match r {
            Ok(found) => automaton_fits(query@, max_edits) && finds(
                dict@,
                query@,
                max_edits,
                found_view(found@),
            ),
            Err(e) => !automaton_fits(query@, max_edits) && e == DictError::InvalidQuery,
        },
{
    let chars = text_chars(query);
    let limit = usize::MAX as u64;
    if max_edits == 0 || query.is_ascii() {
        if max_edits as u64 >= limit {
            return Err(DictError::InvalidQuery);
        }
        let automaton = match new_automaton(query, max_edits) {
            Ok(automaton) => automaton,
            Err(_) => {
                return Err(DictError::InvalidQuery);
            },
        };
        let pairs = index_matches(dict.keys(), &automaton);
        let ghost accepted = automaton_keys(automaton);
        proof {
            let known = query_keys(query@, max_edits)->0;
            assert(known == accepted);
            assert forall|key: Seq<u8>| accepted.contains(key) implies valid_utf8(key)
                && edit_distance(chars@, decode_utf8(key)) <= max_edits by {
                assert(known.contains(key));
                assert(within_edits(query@, max_edits, key));
            }
            assert forall|key: Seq<u8>|
                valid_utf8(key) && edit_distance(chars@, decode_utf8(key))
                    <= max_edits implies accepted.contains(key) by {
                assert(within_edits(query@, max_edits, key));
                assert(known.contains(key));
            }
        }
        Ok(
            gather(
                dict,
                pairs,
                &chars,
                max_edits,
                true,
                Ghost(|key: Seq<u8>| accepted.contains(key)),
            ),
        )
    } else {
        let room = u32::MAX - max_edits;
        if chars.len() as u64 > room as u64 {
            return Err(DictError::InvalidQuery);
        }
        let total = chars.len() as u32 + max_edits;
        if total as u64 >= limit {
            return Err(DictError::InvalidQuery);
        }
        proof {
            reveal_strlit("");
            assert(""@ =~= Seq::<char>::empty());
        }
        let automaton = match new_automaton("", total) {
            Ok(automaton) => automaton,
            Err(_) => {
                return Err(DictError::InvalidQuery);
            },
        };
        let pairs = index_matches(dict.keys(), &automaton);
        let ghost accepted = automaton_keys(automaton);
        proof {
            let none = Seq::<char>::empty();
            let known = query_keys(none, total)->0;
            assert(known == accepted);
            assert(is_ascii_chars(none));
            assert forall|key: Seq<u8>|
                valid_utf8(key) && edit_distance(chars@, decode_utf8(key))
                    <= max_edits implies accepted.contains(key) by {
                lemma_distance_bounds_length(chars@, decode_utf8(key));
                assert(edit_distance(none, decode_utf8(key)) == decode_utf8(key).len());
                assert(within_edits(none, total, key));
                assert(known.contains(key));
            }
            assert forall|key: Seq<u8>| accepted.contains(key) implies valid_utf8(key) by {
                assert(known.contains(key));
                assert(within_edits(none, total, key));
            }
        }
        Ok(
            gather(
                dict,
                pairs,
                &chars,
                max_edits,
                false,
                Ghost(|key: Seq<u8>| accepted.contains(key)),
            ),
        )
    }
}

/// With no edits allowed a search finds the query itself and nothing else: one
/// match where the query is a headword, none where it is not.
pub proof fn lemma_exact_lookup(
    entries: Map<Seq<u8>, Seq<FieldView>>,
    query: Seq<char>,
    found: Seq<FoundView>,
)
    requires
        finds(entries, query, 0, found),
    ensures
        found.len() <= 1,
        found.len() == 1 <==> entries.contains_key(encode_utf8(query)),
        found.len() == 1 ==> found[0].headword == query && found[0].fields == entries[encode_utf8(
            query,
        )],
{
    lemma_text_total();
    assert forall|i: int| 0 <= i < found.len() implies (#[trigger] found[i]).headword
        == query by {
        lemma_distance_zero(query, found[i].headword);
    }
    if found.len() > 1 {
        let r = text_order()(found[0].headword, found[1].headword);
        assert(found[0].headword == found[1].headword);
        assert(r == Rank::Same);
        assert(false);
    }
    if entries.contains_key(encode_utf8(query)) {
        lemma_distance_to_self(query);
    }
}

/// A search with a larger budget finds all that one with a smaller budget
/// finds.
pub proof fn lemma_wider_lookup(
    entries: Map<Seq<u8>, Seq<FieldView>>,
    query: Seq<char>,
    fewer: u32,
    more: u32,
    narrow: Seq<FoundView>,
    wide: Seq<FoundView>,
)
    requires
        fewer <= more,
        finds(entries, query, fewer, narrow),
        finds(entries, query, more, wide),
    ensures
        forall|i: int| 0 <= i < narrow.len() ==> wide.contains(#[trigger] narrow[i]),
{
    assert forall|i: int| 0 <= i < narrow.len() implies wide.contains(#[trigger] narrow[i]) by {
        let headword = narrow[i].headword;
        assert(entries.contains_key(encode_utf8(headword)));
        let j = choose|j: int| 0 <= j < wide.len() && (#[trigger] wide[j]).headword == headword;
        assert(wide[j].fields == narrow[i].fields);
        assert(wide[j] == narrow[i]);
    }
}

/// What a search finds holds no headword twice.
pub proof fn lemma_found_once(
    entries: Map<Seq<u8>, Seq<FieldView>>,
    query: Seq<char>,
    max_edits: u32,
    found: Seq<FoundView>,
)
    requires
        finds(entries, query, max_edits, found),
    ensures
        forall|i: int, j: int|
            0 <= i < j < found.len() ==> (#[trigger] found[i]).headword != (
            #[trigger] found[j]).headword,
{
    lemma_text_total();
    assert forall|i: int, j: int| 0 <= i < j < found.len() implies (#[trigger] found[i]).headword
        != (#[trigger] found[j]).headword by {
        let r = text_order()(found[i].headword, found[j].headword);
    }
}

/// The printed forms of the fields of a headword, in order.
pub open spec fn printed_fields(headword: Seq<char>, fields: Seq<FieldView>) -> Seq<Seq<char>> {
    Seq::new(fields.len(), |i: int| printed(headword, fields[i]))
}

/// The printed forms of all fields that a search found, headword by headword.
pub open spec fn printed_found(found: Seq<FoundView>) -> Seq<Seq<char>>
    decreases found.len(),
{
    if found.len() == 0 {
        Seq::empty()
    } else {
        printed_found(found.drop_last()) + printed_fields(
            found.last().headword,
            found.last().fields,
        )
    }
}

/// What a dictionary built of `entries` holds: the fields under the bytes of
/// each headword.
pub open spec fn entries_map(entries: Seq<EntryView>) -> Map<Seq<u8>, Seq<FieldView>> {
    let groups = grouped(sorted_entries(entries));
    let index = index_of(group_headwords(groups));
    Map::new(
        |key: Seq<u8>| index.contains_key(key),
        |key: Seq<u8>| group_fields(groups)[index[key] as int],
    )
}

/// Prints all fields that a search found, headword by headword.
pub fn print_found(found: &Vec<(String, &Vec<Field>)>) -> (lines: Vec<String>)
    ensures
        texts_view(lines@) == printed_found(found_view(found@)),
{
    let ghost all = found_view(found@);
    let mut lines: Vec<String> = Vec::new();
    let mut i: usize = 0;
    assert(all.take(0) =~= Seq::empty());
    assert(texts_view(lines@) =~= printed_found(all.take(0)));
    while i < found.len()
        invariant
            i <= found.len(),
            all == found_view(found@),
            texts_view(lines@) == printed_found(all.take(i as int)),
        decreases found.len() - i,
    {
        let headword = found[i].0.as_str();
        let fields = found[i].1;
        let ghost before = texts_view(lines@);
        let ghost shown = printed_fields(headword@, fields_view(fields@));
        let mut j: usize = 0;
        assert(before + shown.take(0) =~= before);
        while j < fields.len()
            invariant
                j <= fields.len(),
                shown == printed_fields(headword@, fields_view(fields@)),
                texts_view(lines@) == before + shown.take(j as int),
            decreases fields.len() - j,
        {
            let ghost was = texts_view(lines@);
            let line = printer(headword, &fields[j]);
            lines.push(line);
            proof {
                assert(texts_view(lines@) =~= was.push(line@));
                assert(shown.take(j + 1) =~= shown.take(j as int).push(shown[j as int]));
                assert(before + shown.take(j + 1) =~= (before + shown.take(j as int)).push(
                    shown[j as int],
                ));
            }
            j += 1;
        }
        proof {
            assert(shown.take(j as int) =~= shown);
            assert(all.take(i + 1).drop_last() =~= all.take(i as int));
            assert(all.take(i + 1).last() == all[i as int]);
        }
        i += 1;
    }
    assert(all.take(i as int) =~= all);
    lines
}

/// Builds the dictionary of a corpus, searches it, and prints what was found:
/// the fields of the headwords that are at most `max_edits` edits away from
/// `query`, in the order of the bytes of the headwords.
///
/// Fails at the first line of the corpus that holds no entry, with the number
/// of that line; and, where there is none, where the automaton that the search
/// needs cannot be made.
pub fn lookup(text: &str, query: &str, max_edits: u32) -> (r: Result<Vec<String>, DictError>)
    ensures
        match r {
            Ok(lines) => {
                &&& all_parse(lines_of(text@))
                &&& automaton_fits(query@, max_edits)
                &&& exists|found: Seq<FoundView>|
                    finds(
                        entries_map(corpus_entries(lines_of(text@))),
                        query@,
                        max_edits,
                        found,
                    ) && texts_view(lines@) == #[trigger] printed_found(found)
            },
            Err(e) => match e {
                DictError::MalformedEntry { line } => {
                    &&& line < lines_of(text@).len()
                    &&& parse_line(lines_of(text@)[line as int]) is None
                    &&& all_parse(lines_of(text@).take(line as int))
                },
                DictError::InvalidQuery => all_parse(lines_of(text@)) && !automaton_fits(
                    query@,
                    max_edits,
                ),
                _ => false,
            },
        },
{
    let ghost all = lines_of(text@);
    let dict = match parse(text) {
        Ok(dict) => dict,
        Err(e) => {
            proof {
                match e {
                    DictError::MalformedEntry { line } => {
                        assert forall|i: int| 0 <= i < all.take(line as int).len() implies parse_line(
                            #[trigger] all.take(line as int)[i],
                        ) is Some by {
                            assert(all.take(line as int)[i] == all[i]);
                        }
                    },
                    _ => {},
                }
            }
            return Err(e);
        },
    };
    assert(dict@ =~= entries_map(corpus_entries(all)));
    match search(&dict, query, max_edits) {
        Ok(found) => {
            let lines = print_found(&found);
            assert(printed_found(found_view(found@)) == texts_view(lines@));
            Ok(lines)
        },
        Err(e) => Err(e),
    }
}

} // verus!
