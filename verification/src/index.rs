use vstd::prelude::*;
use vstd::utf8::*;
use crate::keys::ascending;

verus! {

/// The index of a dictionary's patterns: it finds, for a run of bytes, the
/// keys that the run starts with, and the identifier of each one's tally.
///
/// It is a transducer of the `atlatl` crate, kept out of sight: one is made
/// by `index_from_builder` and in no other way.
#[verifier::external_body]
#[derive(Debug)]
pub struct PatternIndex {
    inner: atlatl::fst::FST<u32, u16>,
}

/// The entries from which a `PatternIndex` is made: a builder of the
/// `atlatl` crate, made by `builder_from_pairs` and in no other way.
#[verifier::external_body]
pub struct IndexBuilder {
    inner: atlatl::fst::Builder<u32, u16>,
}

/// Why `atlatl` did not build an index.
#[verifier::external_type_specification]
#[verifier::external_body]
pub struct ExIndexError(atlatl::fst::Error);

/// The keys that an index holds, each with the identifier it gives.
pub uninterp spec fn index_entries(index: PatternIndex) -> Map<Seq<u8>, u16>;

/// The keys that a builder has taken, each with the identifier given.
pub uninterp spec fn builder_entries(builder: IndexBuilder) -> Map<Seq<u8>, u16>;

/// Whether an `atlatl` builder, handed these entries in the ascending order
/// of their keys, takes them all: it does unless it needs more states or
/// transitions than its 32-bit indices can number.
pub uninterp spec fn builder_admits(entries: Map<Seq<u8>, u16>) -> bool;

/// None of the bytes is zero.
pub open spec fn nul_free(bytes: Seq<u8>) -> bool {
    forall|k: int| 0 <= k < bytes.len() ==> #[trigger] bytes[k] != 0
}

/// `pairs` holds the key `key`.
pub open spec fn holds_key(pairs: Seq<(Seq<u8>, u16)>, key: Seq<u8>) -> bool {
    exists|t: int| 0 <= t < pairs.len() && (#[trigger] pairs[t]).0 == key
}

/// The pairs of an index, with each key as bytes.
pub open spec fn pairs_of(pairs: Seq<(String, u16)>) -> Seq<(Seq<u8>, u16)> {
    pairs.map_values(|p: (String, u16)| (encode_utf8(p.0@), p.1))
}

/// The keys of `pairs`.
pub open spec fn names_of(pairs: Seq<(Seq<u8>, u16)>) -> Seq<Seq<u8>> {
    pairs.map_values(|p: (Seq<u8>, u16)| p.0)
}

/// What `pairs` lists, as a map: each of its keys with the identifier of a
/// pair that holds the key (where the keys ascend there is only one).
pub open spec fn entries_from(pairs: Seq<(Seq<u8>, u16)>) -> Map<Seq<u8>, u16> {
    Map::new(
        |key: Seq<u8>| holds_key(pairs, key),
        |key: Seq<u8>| pairs[choose|t: int| 0 <= t < pairs.len() && (#[trigger] pairs[t]).0 == key].1,
    )
}

/// `found` is what a run of bytes `query` starts with in `entries`: for each
/// length at which the start of `query` is a key, that length and the key's
/// identifier, the shorter the earlier.
pub open spec fn starts_of(entries: Map<Seq<u8>, u16>, query: Seq<u8>, found: Seq<(usize, u16)>) -> bool {
    &&& forall|k: int| 0 <= k < found.len() ==> {
        &&& (#[trigger] found[k]).0 <= query.len()
        &&& entries.contains_key(query.take(found[k].0 as int))
        &&& entries[query.take(found[k].0 as int)] == found[k].1
    }
    &&& forall|a: int, b: int| 0 <= a < b < found.len() ==> (#[trigger] found[a]).0 < (#[trigger] found[b]).0
    &&& forall|n: int| 0 <= n <= query.len() && entries.contains_key(#[trigger] query.take(n)) ==> exists|k: int| 0 <= k < found.len() && (#[trigger] found[k]).0 == n
}

/// Calls `atlatl::fst::Builder::from_iter` on the pairs, as they stand.
///
/// The builder takes a key only if it is greater than the one before it,
/// and then holds it with its identifier. So pairs that are not in strictly
/// ascending order are refused; of those that are, `builder_admits` says
/// whether all are taken, and then the builder holds them and nothing else.
#[verifier::external_body]
pub(crate) fn builder_from_pairs(pairs: &Vec<(String, u16)>) -> (built: Result<IndexBuilder, atlatl::fst::Error>)
    ensures
        built is Ok <==> (ascending(names_of(pairs_of(pairs@))) && builder_admits(entries_from(pairs_of(pairs@)))),
        built matches Ok(builder) ==> builder_entries(builder) == entries_from(pairs_of(pairs@)),
{
    atlatl::fst::Builder::from_iter(pairs.iter().map(|p| (p.0.as_bytes(), p.1))).map(|inner| IndexBuilder { inner })
}

/// Calls `atlatl::fst::FST::from_builder`.
///
/// Where an index is laid out, it holds the entries of the builder. When the
/// layout fails for want of room is not said here.
#[verifier::external_body]
pub(crate) fn index_from_builder(builder: &IndexBuilder) -> (built: Result<PatternIndex, atlatl::fst::Error>)
    ensures
        built matches Ok(index) ==> index_entries(index) == builder_entries(*builder),
{
    atlatl::fst::FST::from_builder(&builder.inner).map(|inner| PatternIndex { inner })
}

/// Calls `atlatl::fst::FST::reap` and collects what it yields.
///
/// It walks the index along the bytes of `query` and yields, at each key
/// that it passes, the number of bytes walked and the key's identifier; it
/// stops where no key goes on as `query` does. A zero byte is kept out of
/// `query`: the index cannot tell it from a place that it never filled.
#[verifier::external_body]
pub(crate) fn prefix_matches(index: &PatternIndex, query: &[u8]) -> (found: Vec<(usize, u16)>)
    requires
        nul_free(query@),
    ensures
        starts_of(index_entries(*index), query@, found@),
{
    index.inner.reap(query).collect()
}

} // verus!
