use vstd::prelude::*;
use vstd::slice::slice_subrange;
use crate::index::{
    builder_admits, builder_from_pairs, entries_from, holds_key, index_entries, index_from_builder,
    names_of, nul_free, pairs_of, prefix_matches, starts_of, PatternIndex,
};
use crate::keys::ascending;
use crate::tally::Tally;
use crate::uniques::{
    compiled, distinct, first_with, has_source, keys_of, lemma_distinct_no_duplicates, pair_from,
    rows_of, tallies_of, uniques, TALLY_SPACE,
};

verus! {

/// Why a dictionary's patterns could not be compiled.
#[derive(Debug)]
pub enum BuildError {
    /// The patterns have more tallies than there are identifiers.
    TallyOverflow,
    /// A key holds a zero byte, which the index cannot hold.
    NulInKey,
    /// The index could not be built from the keys.
    Index(atlatl::fst::Error),
}

/// The first entry with the key `key`.
pub open spec fn first_of(keys: Seq<Seq<u8>>, key: Seq<u8>) -> int {
    choose|e: int| first_with(keys, e) && keys[e] == key
}

/// The index that patterns with the keys `keys` and the tallies `tallies`
/// compile to: each key with the place, among the tallies taken once each,
/// of the tally of the first pattern with that key.
pub open spec fn index_expected<V>(keys: Seq<Seq<u8>>, tallies: Seq<V>) -> Map<Seq<u8>, u16> {
    Map::new(
        |key: Seq<u8>| keys.contains(key),
        |key: Seq<u8>| distinct(tallies).index_of(tallies[first_of(keys, key)]) as u16,
    )
}

/// Pairs that the patterns compile to list the index that is expected of the
/// patterns.
pub proof fn lemma_compiled_entries<V>(keys: Seq<Seq<u8>>, tallies: Seq<V>, pairs: Seq<(Seq<u8>, u16)>, rows: Seq<V>)
    requires
        compiled(keys, tallies, pairs, rows),
    ensures
        entries_from(pairs) == index_expected(keys, tallies),
{
    let listed = entries_from(pairs);
    let expected = index_expected(keys, tallies);
    lemma_distinct_no_duplicates(tallies);
    assert forall|key: Seq<u8>| listed.contains_key(key) <==> expected.contains_key(key) by {
        if holds_key(pairs, key) {
            let t = choose|t: int| 0 <= t < pairs.len() && (#[trigger] pairs[t]).0 == key;
            assert(has_source(keys, tallies, pairs[t], rows));
            let e = choose|e: int| pair_from(keys, tallies, pairs[t], rows, e);
            assert(keys[e] == key);
        }
        if keys.contains(key) {
            let e = choose|e: int| 0 <= e < keys.len() && keys[e] == key;
            assert(holds_key(pairs, keys[e]));
        }
    }
    assert forall|key: Seq<u8>| listed.contains_key(key) implies listed[key] == expected[key] by {
        let t = choose|t: int| 0 <= t < pairs.len() && (#[trigger] pairs[t]).0 == key;
        assert(has_source(keys, tallies, pairs[t], rows));
        let e = choose|e: int| pair_from(keys, tallies, pairs[t], rows, e);
        let f = first_of(keys, key);
        assert(first_with(keys, e) && keys[e] == key);
        assert(first_with(keys, f) && keys[f] == key);
        assert(e == f);
        let j = rows.index_of(tallies[e]);
        assert(rows[pairs[t].1 as int] == tallies[e]);
        assert(0 <= j < rows.len() && rows[j] == tallies[e]);
        assert(j == pairs[t].1);
    }
    assert(listed =~= expected);
}

/// Each of the keys is free of zero bytes.
pub open spec fn all_nul_free(keys: Seq<Seq<u8>>) -> bool {
    forall|t: int| 0 <= t < keys.len() ==> nul_free(#[trigger] keys[t])
}

/// Whether none of the bytes is zero.
pub fn is_nul_free(bytes: &[u8]) -> (free: bool)
    ensures
        free == nul_free(bytes@),
{
    let mut k: usize = 0;
    while k < bytes.len()
        invariant
            k <= bytes.len(),
            forall|j: int| 0 <= j < k ==> #[trigger] bytes@[j] != 0,
        decreases bytes.len() - k,
    {
        if bytes[k] == 0 {
            return false;
        }
        k = k + 1;
    }
    true
}

/// The patterns of a dictionary, compiled: the tallies, each stored once,
/// and the index that leads from a key to its tally. No key of the index
/// holds a zero byte.
pub struct Patterns<T: Tally> {
    tallies: Vec<T>,
    automaton: PatternIndex,
}

impl<T: Tally> Patterns<T> {
    #[verifier::type_invariant]
    spec fn keys_nul_free(self) -> bool {
        forall|key: Seq<u8>| #[trigger] index_entries(self.automaton).contains_key(key) ==> nul_free(key)
    }

    /// The tallies as they are stored, by their identifiers.
    pub closed spec fn store(&self) -> Seq<T> {
        self.tallies@
    }

    /// The tallies, by their identifiers.
    pub open spec fn rows(&self) -> Seq<T::V> {
        rows_of(self.store())
    }

    /// The keys, each with the identifier of its tally.
    pub closed spec fn entries(&self) -> Map<Seq<u8>, u16> {
        index_entries(self.automaton)
    }

    /// Builds the index for pairs and takes `rows` as the tallies. A key
    /// with a zero byte is refused, and so are keys that do not stand in
    /// strictly ascending order; the index may still fail for want of room.
    pub fn from_uniques(pairs: &Vec<(String, u16)>, rows: Vec<T>) -> (built: Result<Self, BuildError>)
        ensures
            built matches Err(BuildError::NulInKey) <==> !all_nul_free(names_of(pairs_of(pairs@))),
            all_nul_free(names_of(pairs_of(pairs@))) && !(ascending(names_of(pairs_of(pairs@)))
                && builder_admits(entries_from(pairs_of(pairs@)))) ==> built matches Err(BuildError::Index(_)),
            !(built matches Err(BuildError::TallyOverflow)),
            built matches Ok(patterns) ==> {
                &&& all_nul_free(names_of(pairs_of(pairs@)))
                &&& ascending(names_of(pairs_of(pairs@)))
                &&& builder_admits(entries_from(pairs_of(pairs@)))
                &&& patterns.rows() == rows_of(rows@)
                &&& patterns.entries() == entries_from(pairs_of(pairs@))
            },
    {
        let ghost names = names_of(pairs_of(pairs@));
        let mut t: usize = 0;
        while t < pairs.len()
            invariant
                t <= pairs.len(),
                names == names_of(pairs_of(pairs@)),
                forall|j: int| 0 <= j < t ==> nul_free(#[trigger] names[j]),
            decreases pairs.len() - t,
        {
            if !is_nul_free(pairs[t].0.as_str().as_bytes()) {
                assert(!nul_free(names[t as int]));
                return Err(BuildError::NulInKey);
            }
            t = t + 1;
        }
        let builder = match builder_from_pairs(pairs) {
            Ok(builder) => builder,
            Err(fault) => {
                return Err(BuildError::Index(fault));
            },
        };
        match index_from_builder(&builder) {
            Ok(automaton) => {
                proof {
                    assert forall|key: Seq<u8>| #[trigger] index_entries(automaton).contains_key(key) implies nul_free(key) by {
                        let j = choose|j: int| 0 <= j < pairs_of(pairs@).len() && (#[trigger] pairs_of(pairs@)[j]).0 == key;
                        assert(names[j] == key);
                    }
                }
                Ok(Patterns { tallies: rows, automaton })
            },
            Err(fault) => Err(BuildError::Index(fault)),
        }
    }

    /// Compiles patterns, each a key with its tally, into tallies stored
    /// once and an index of the keys. Of two patterns with one key the first
    /// counts. Patterns with more tallies than identifiers are refused, and
    /// so is a key with a zero byte; the index may still fail for want of
    /// room.
    pub fn try_from_iter(entries: &Vec<(String, T)>) -> (built: Result<Self, BuildError>)
        ensures
            built matches Err(BuildError::TallyOverflow) <==> distinct(tallies_of(entries@)).len() > TALLY_SPACE,
            built matches Err(BuildError::NulInKey) <==> distinct(tallies_of(entries@)).len() <= TALLY_SPACE
                && !all_nul_free(keys_of(entries@)),
            built matches Ok(patterns) ==> {
                &&& distinct(tallies_of(entries@)).len() <= TALLY_SPACE
                &&& all_nul_free(keys_of(entries@))
                &&& builder_admits(index_expected(keys_of(entries@), tallies_of(entries@)))
                &&& patterns.rows() == distinct(tallies_of(entries@))
                &&& patterns.entries() == index_expected(keys_of(entries@), tallies_of(entries@))
            },
            distinct(tallies_of(entries@)).len() <= TALLY_SPACE && all_nul_free(keys_of(entries@)) && !builder_admits(
                index_expected(keys_of(entries@), tallies_of(entries@)),
            ) ==> built matches Err(BuildError::Index(_)),
    {
        match uniques(entries) {
            None => Err(BuildError::TallyOverflow),
            Some((pairs, rows)) => {
                proof {
                    let keys = keys_of(entries@);
                    let listed = pairs_of(pairs@);
                    lemma_compiled_entries(keys, tallies_of(entries@), listed, rows_of(rows@));
                    if all_nul_free(keys) {
                        assert forall|t: int| 0 <= t < listed.len() implies nul_free(#[trigger] names_of(listed)[t]) by {
                            assert(has_source(keys, tallies_of(entries@), listed[t], rows_of(rows@)));
                            let e = choose|e: int| pair_from(keys, tallies_of(entries@), listed[t], rows_of(rows@), e);
                            assert(nul_free(keys[e]));
                        }
                    }
                    if all_nul_free(names_of(listed)) {
                        assert forall|e: int| 0 <= e < keys.len() implies nul_free(#[trigger] keys[e]) by {
                            assert(holds_key(listed, keys[e]));
                            let t = choose|t: int| 0 <= t < listed.len() && (#[trigger] listed[t]).0 == keys[e];
                            assert(names_of(listed)[t] == keys[e]);
                        }
                    }
                }
                Self::from_uniques(&pairs, rows)
            },
        }
    }

    /// The tallies, by their identifiers.
    pub fn tallies(&self) -> (tallies: &Vec<T>)
        ensures
            tallies@ == self.store(),
    {
        &self.tallies
    }

    /// The keys that `query` starts with: for each, its length and the
    /// identifier of its tally, the shorter the earlier. The index is asked
    /// for what comes before the first zero byte of `query`: no key goes
    /// beyond.
    pub fn starts(&self, query: &[u8]) -> (found: Vec<(usize, u16)>)
        ensures
            starts_of(self.entries(), query@, found@),
    {
        let mut cut: usize = 0;
        while cut < query.len() && query[cut] != 0
            invariant
                cut <= query.len(),
                forall|j: int| 0 <= j < cut ==> #[trigger] query@[j] != 0,
            decreases query.len() - cut,
        {
            cut = cut + 1;
        }
        let found = prefix_matches(&self.automaton, slice_subrange(query, 0, cut));
        proof {
            use_type_invariant(self);
            let head = query@.subrange(0, cut as int);
            assert forall|k: int| 0 <= k < found.len() implies head.take((#[trigger] found[k]).0 as int) == query@.take(found[k].0 as int) by {}
            assert forall|n: int| 0 <= n <= query@.len() && self.entries().contains_key(#[trigger] query@.take(n)) implies exists|k: int|
                0 <= k < found.len() && (#[trigger] found[k]).0 == n by {
                if n > cut {
                    assert(query@.take(n)[cut as int] == 0);
                }
                assert(head.take(n) == query@.take(n));
            }
        }
        found
    }
}

} // verus!
