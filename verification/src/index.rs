//! The sorted index of headwords: a map from byte strings to group numbers,
//! kept as a finite-state transducer.
//!
//! Nothing in this file is proved. Each function states what the transducer
//! library does, as its source and documentation show it; the rest of the
//! crate is verified against these statements.
//!
//! The library reads an index from bytes without looking into them, and a
//! checksum says little of what they hold. So what is claimed of reading an
//! index is claimed of bytes that a builder wrote, and nothing in this crate
//! can tell of given bytes whether they are such.

use vstd::prelude::*;
use vstd::bytes::spec_u64_from_le_bytes;
use vstd::utf8::{decode_utf8, is_ascii_chars, valid_utf8};
use crate::distance::edit_distance;
use crate::order::{bytes_rank, Rank};

verus! {

/// `fst::Map`, taken as it is.
#[verifier::external_type_specification]
#[verifier::external_body]
#[verifier::reject_recursive_types(D)]
pub struct ExIndex<D>(fst::Map<D>);

/// `fst::MapBuilder`, taken as it is.
#[verifier::external_type_specification]
#[verifier::external_body]
#[verifier::reject_recursive_types(W)]
pub struct ExIndexBuilder<W>(fst::MapBuilder<W>);

/// `fst::Error`, taken as it is.
#[verifier::external_type_specification]
#[verifier::external_body]
pub struct ExIndexError(fst::Error);

/// `fst::automaton::Levenshtein`, taken as it is.
#[verifier::external_type_specification]
#[verifier::external_body]
pub struct ExAutomaton(fst::automaton::Levenshtein);

/// `fst::automaton::LevenshteinError`, taken as it is.
#[verifier::external_type_specification]
#[verifier::external_body]
pub struct ExAutomatonError(fst::automaton::LevenshteinError);

/// The bytes that an index is stored as.
pub uninterp spec fn index_blob(index: fst::Map<Vec<u8>>) -> Seq<u8>;

/// The keys and values of the index that `blob` holds, if it holds one: if
/// the bytes are what a builder writes, for those keys and values.
pub uninterp spec fn blob_entries(blob: Seq<u8>) -> Option<Map<Seq<u8>, u64>>;

/// Whether `blob` carries the checksum of its content behind it. Bytes that
/// carry it need not hold an index.
pub uninterp spec fn blob_checks(blob: Seq<u8>) -> bool;

/// The keys and values that a builder has taken so far.
pub uninterp spec fn builder_entries(builder: fst::MapBuilder<Vec<u8>>) -> Map<Seq<u8>, u64>;

/// The key that a builder took last.
pub uninterp spec fn builder_last(builder: fst::MapBuilder<Vec<u8>>) -> Option<Seq<u8>>;

/// The keys that a search automaton accepts.
pub uninterp spec fn automaton_keys(automaton: fst::automaton::Levenshtein) -> Set<Seq<u8>>;

/// The keys that the search automaton for `query` and `max_edits` accepts, if
/// there is one: if it stays under the library's limit on its number of
/// states.
pub uninterp spec fn query_keys(query: Seq<char>, max_edits: u32) -> Option<Set<Seq<u8>>>;

/// The entries of an index without keys.
pub open spec fn no_entries() -> Map<Seq<u8>, u64> {
    Map::empty()
}

/// The eight bytes of `blob` from `at` on as a number, least significant
/// first.
pub open spec fn number_at(blob: Seq<u8>, at: int) -> u64 {
    spec_u64_from_le_bytes(blob.subrange(at, at + 8))
}

/// The two sizes that opening an index reads from the end of its bytes fit
/// the machine's addresses. They are read where the bytes are long enough to
/// be an index and start with a known version; from the third version on a
/// checksum of four bytes stands behind them.
pub open spec fn sizes_fit(blob: Seq<u8>) -> bool {
    blob.len() >= 36 && 1 <= number_at(blob, 0) <= 3 ==> {
        let end = if number_at(blob, 0) <= 2 {
            blob.len() as int
        } else {
            blob.len() - 4
        };
        number_at(blob, end - 8) <= usize::MAX && number_at(blob, end - 16) <= usize::MAX
    }
}

/// Whether `blob` opens as an index. It does where it has at least 36 bytes
/// and starts with a version from 1 to 3, unless its root address is zero
/// and it has more bytes than an index without keys. The root address stands
/// in the last eight bytes, before the checksum of four bytes that the third
/// version has. Bytes that open need not hold an index.
pub open spec fn blob_opens(blob: Seq<u8>) -> bool {
    let version = number_at(blob, 0);
    let end = if version <= 2 {
        blob.len() as int
    } else {
        blob.len() - 4
    };
    let root = number_at(blob, end - 8);
    let empty = if version <= 2 {
        32int
    } else {
        36int
    };
    let offset = if version <= 2 {
        17int
    } else {
        21int
    };
    &&& blob.len() >= 36
    &&& 1 <= version <= 3
    &&& !(root == 0 && blob.len() != empty && root + offset != blob.len())
}

/// The bytes of the index are what a builder writes.
pub open spec fn index_intact(index: fst::Map<Vec<u8>>) -> bool {
    blob_entries(index_blob(index)) is Some
}

/// The keys and values of an intact index.
pub open spec fn index_entries(index: fst::Map<Vec<u8>>) -> Map<Seq<u8>, u64> {
    blob_entries(index_blob(index))->0
}

/// `key` is the UTF-8 form of a text at most `max_edits` edits away from
/// `query`.
pub open spec fn within_edits(query: Seq<char>, max_edits: u32, key: Seq<u8>) -> bool {
    valid_utf8(key) && edit_distance(query, decode_utf8(key)) <= max_edits
}

/// What is known of the keys that the automaton for `query` and `max_edits`
/// accepts. Each is within the budget of edits. Where the budget is zero, or
/// the query holds ASCII characters only, every key within the budget is
/// accepted. With a budget and a query that holds a character of several
/// bytes, the automaton misses some of them: characters that share their first
/// byte stand in each other's way.
pub open spec fn automaton_known(query: Seq<char>, max_edits: u32) -> bool {
    match query_keys(query, max_edits) {
        Some(keys) => {
            &&& forall|key: Seq<u8>| #[trigger]
                keys.contains(key) ==> within_edits(query, max_edits, key)
            &&& max_edits == 0 || is_ascii_chars(query) ==> forall|key: Seq<u8>|
                within_edits(query, max_edits, key) ==> #[trigger] keys.contains(key)
        },
        None => true,
    }
}

/// `pairs` lists, in ascending order of key and each once, the entries of
/// `entries` whose key is `wanted`.
pub open spec fn lists(
    pairs: Seq<(Vec<u8>, u64)>,
    entries: Map<Seq<u8>, u64>,
    wanted: spec_fn(Seq<u8>) -> bool,
) -> bool {
    &&& forall|i: int, j: int|
        0 <= i < j < pairs.len() ==> bytes_rank(#[trigger] pairs[i].0@, #[trigger] pairs[j].0@)
            == Rank::Before
    &&& forall|i: int|
        0 <= i < pairs.len() ==> {
            &&& entries.contains_key(#[trigger] pairs[i].0@)
            &&& entries[pairs[i].0@] == pairs[i].1
            &&& wanted(pairs[i].0@)
        }
    &&& forall|key: Seq<u8>| #[trigger]
        entries.contains_key(key) && wanted(key) ==> exists|i: int|
            0 <= i < pairs.len() && #[trigger] pairs[i].0@ == key
}

/// `fst::MapBuilder::memory`: a builder that has taken nothing.
#[verifier::external_body]
pub(crate) fn new_builder() -> (builder: fst::MapBuilder<Vec<u8>>)
    ensures
        builder_entries(builder) == no_entries(),
        builder_last(builder) is None,
{
    fst::MapBuilder::memory()
}

/// `fst::MapBuilder::insert` on a builder in memory. It takes the key exactly
/// when the key is greater, byte by byte, than the one taken last; the other
/// failure the library knows, of writing, does not arise in memory. A refused
/// key leaves the builder as it was.
#[verifier::external_body]
pub(crate) fn builder_insert(
    builder: &mut fst::MapBuilder<Vec<u8>>,
    key: &[u8],
    value: u64,
) -> (r: Result<(), fst::Error>)
    ensures
        r is Ok <==> (match builder_last(*old(builder)) {
            Some(last) => bytes_rank(last, key@) == Rank::Before,
            None => true,
        }),
        r is Ok ==> builder_entries(*final(builder)) == builder_entries(*old(builder)).insert(
            key@,
            value,
        ) && builder_last(*final(builder)) == Some(key@),
        r is Err ==> builder_entries(*final(builder)) == builder_entries(*old(builder))
            && builder_last(*final(builder)) == builder_last(*old(builder)),
{
    builder.insert(key, value)
}

/// `fst::MapBuilder::into_map`: the index of what the builder has taken. Its
/// bytes are the builder's, for the entries it took; the call itself opens
/// them, so their sizes fit and they open, and the builder has written their
/// checksum behind them.
#[verifier::external_body]
pub(crate) fn finish_builder(builder: fst::MapBuilder<Vec<u8>>) -> (index: fst::Map<Vec<u8>>)
    ensures
        blob_entries(index_blob(index)) == Some(builder_entries(builder)),
        sizes_fit(index_blob(index)),
        blob_opens(index_blob(index)),
        blob_checks(index_blob(index)),
{
    builder.into_map()
}

/// `fst::raw::Fst::to_vec`, reached through `fst::Map::as_fst`: a copy of the
/// bytes of the index.
#[verifier::external_body]
pub(crate) fn index_bytes(index: &fst::Map<Vec<u8>>) -> (blob: Vec<u8>)
    ensures
        blob@ == index_blob(*index),
{
    index.as_fst().to_vec()
}

/// `fst::Map::new`: an index over `blob`. It looks at the length, the version
/// and the root address only, as `blob_opens` says. Nothing is claimed of what
/// the index holds. Where addresses have fewer than 64 bits the call panics on a size
/// that does not fit them, so such bytes are left out.
#[verifier::external_body]
pub(crate) fn open_index(blob: Vec<u8>) -> (r: Result<fst::Map<Vec<u8>>, fst::Error>)
    requires
        sizes_fit(blob@),
    ensures
        r is Ok <==> blob_opens(blob@),
        r is Ok ==> index_blob(r->Ok_0) == blob@,
{
    fst::Map::new(blob)
}

/// `fst::raw::Fst::verify`, reached through `fst::Map::as_fst`: whether the
/// bytes of the index carry the checksum of their content. Nothing is claimed
/// of what the index holds.
#[verifier::external_body]
pub(crate) fn verify_index(index: &fst::Map<Vec<u8>>) -> (r: Result<(), fst::Error>)
    ensures
        r is Ok <==> blob_checks(index_blob(*index)),
{
    index.as_fst().verify()
}

/// `fst::automaton::Levenshtein::new`: the search automaton for `query` and
/// `max_edits`. The library documents it as accepting the UTF-8 forms of the
/// texts within `max_edits` insertions, deletions and replacements of
/// characters of `query`; what is claimed of it here is the part of that which
/// its source bears out. The call fails exactly where the automaton would pass
/// the library's limit of states. The library counts one beyond the budget in
/// the machine's addresses, so a budget that is their greatest number is left
/// out.
#[verifier::external_body]
pub(crate) fn new_automaton(query: &str, max_edits: u32) -> (r: Result<
    fst::automaton::Levenshtein,
    fst::automaton::LevenshteinError,
>)
    requires
        max_edits < usize::MAX,
    ensures
        r is Ok <==> query_keys(query@, max_edits) is Some,
        r is Ok ==> query_keys(query@, max_edits) == Some(automaton_keys(r->Ok_0)),
        r is Ok ==> automaton_known(query@, max_edits),
{
    fst::automaton::Levenshtein::new(query, max_edits)
}

/// `fst::Map::search`, collected by `into_byte_vec`: the entries of the index
/// whose key the automaton accepts, in ascending order of key. This is
/// claimed of an index whose bytes a builder wrote, and of no other: on other
/// bytes the library may panic or list what it likes.
#[verifier::external_body]
pub(crate) fn index_matches(
    index: &fst::Map<Vec<u8>>,
    automaton: &fst::automaton::Levenshtein,
) -> (pairs: Vec<(Vec<u8>, u64)>)
    requires
        index_intact(*index),
    ensures
        lists(
            pairs@,
            index_entries(*index),
            |key: Seq<u8>| automaton_keys(*automaton).contains(key),
        ),
{
    fst::IntoStreamer::into_stream(index.search(automaton)).into_byte_vec()
}

} // verus!
