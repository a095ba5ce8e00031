use std::collections::HashMap;
use vstd::prelude::*;
use vstd::utf8::*;
use crate::keys::{ascending, lemma_precedes_irreflexive, lemma_precedes_transitive, order_of, precedes, Order};
use crate::index::{holds_key, names_of, pairs_of};
use crate::tally::Tally;

verus! {

/// The number of tallies that one dictionary can store: a tally is known by
/// a 16-bit identifier.
pub const TALLY_SPACE: usize = 65536;

/// The values of `s` without their repetitions, each where it first occurs.
pub open spec fn distinct<V>(s: Seq<V>) -> Seq<V>
    decreases s.len(),
{
    if s.len() == 0 {
        Seq::empty()
    } else {
        let before = distinct(s.drop_last());
        if before.contains(s.last()) {
            before
        } else {
            before.push(s.last())
        }
    }
}

/// The keys of the given patterns, as the bytes that the index is built on.
pub open spec fn keys_of<T>(entries: Seq<(String, T)>) -> Seq<Seq<u8>> {
    entries.map_values(|e: (String, T)| encode_utf8(e.0@))
}

/// The tallies of the given patterns.
pub open spec fn tallies_of<T: Tally>(entries: Seq<(String, T)>) -> Seq<T::V> {
    entries.map_values(|e: (String, T)| e.1@)
}

/// The tallies of a store.
pub open spec fn rows_of<T: Tally>(rows: Seq<T>) -> Seq<T::V> {
    rows.map_values(|t: T| t@)
}

/// The entry of index `e` is the first one with its key.
pub open spec fn first_with(keys: Seq<Seq<u8>>, e: int) -> bool {
    &&& 0 <= e < keys.len()
    &&& forall|j: int| 0 <= j < e ==> keys[j] != keys[e]
}

/// The pair of index `t` stands for the first entry with its key, and names
/// the place of that entry's tally in `rows`.
pub open spec fn pair_from<V>(keys: Seq<Seq<u8>>, tallies: Seq<V>, pair: (Seq<u8>, u16), rows: Seq<V>, e: int) -> bool {
    &&& first_with(keys, e)
    &&& keys[e] == pair.0
    &&& pair.1 < rows.len()
    &&& rows[pair.1 as int] == tallies[e]
}

/// Some entry is to `pair` as `pair_from` says.
pub open spec fn has_source<V>(keys: Seq<Seq<u8>>, tallies: Seq<V>, pair: (Seq<u8>, u16), rows: Seq<V>) -> bool {
    exists|e: int| pair_from(keys, tallies, pair, rows, e)
}

/// `pairs` and `rows` are what the patterns with the keys `keys` and the
/// tallies `tallies` compile to: `rows` holds each tally once, in the order
/// in which the tallies first occur; `pairs` holds each key once, in
/// ascending order, with the identifier of the tally that the first pattern
/// with that key has.
pub open spec fn compiled<V>(keys: Seq<Seq<u8>>, tallies: Seq<V>, pairs: Seq<(Seq<u8>, u16)>, rows: Seq<V>) -> bool {
    &&& rows == distinct(tallies)
    &&& ascending(names_of(pairs))
    &&& forall|t: int| 0 <= t < pairs.len() ==> has_source(keys, tallies, #[trigger] pairs[t], rows)
    &&& forall|e: int| 0 <= e < keys.len() ==> holds_key(pairs, #[trigger] keys[e])
}

/// What `distinct` keeps is what occurs.
pub proof fn lemma_distinct_contains<V>(s: Seq<V>, v: V)
    ensures
        distinct(s).contains(v) <==> s.contains(v),
    decreases s.len(),
{
    if s.len() > 0 {
        lemma_distinct_contains(s.drop_last(), v);
        if s.contains(v) {
            let i = choose|i: int| 0 <= i < s.len() && s[i] == v;
            if i < s.len() - 1 {
                assert(s.drop_last()[i] == v);
            }
        }
        if s.drop_last().contains(v) {
            let i = choose|i: int| 0 <= i < s.drop_last().len() && s.drop_last()[i] == v;
            assert(s[i] == v);
        }
        let before = distinct(s.drop_last());
        if before.contains(v) {
            let i = choose|i: int| 0 <= i < before.len() && before[i] == v;
            if !before.contains(s.last()) {
                assert(before.push(s.last())[i] == v);
            }
        }
        if !before.contains(s.last()) {
            assert(before.push(s.last())[before.len() as int] == s.last());
        }
    }
}

/// `distinct` keeps nothing twice.
pub proof fn lemma_distinct_no_duplicates<V>(s: Seq<V>)
    ensures
        distinct(s).no_duplicates(),
    decreases s.len(),
{
    if s.len() > 0 {
        lemma_distinct_no_duplicates(s.drop_last());
    }
}

/// A longer sequence has no fewer distinct values.
pub proof fn lemma_distinct_grows<V>(s: Seq<V>, k: int)
    requires
        0 <= k <= s.len(),
    ensures
        distinct(s.take(k)).len() <= distinct(s).len(),
    decreases s.len() - k,
{
    if k < s.len() {
        lemma_distinct_grows(s, k + 1);
        assert(s.take(k + 1).drop_last() == s.take(k));
    } else {
        assert(s.take(k) == s);
    }
}

/// `tops` and `below` lay the tallies of `rows` out by their digests: `tops`
/// has for each digest the last tally with it, `below` for each tally the
/// last one before it with the same digest.
pub open spec fn shelved<T: Tally>(rows: Seq<T::V>, tops: Map<u32, u16>, below: Seq<Option<u16>>) -> bool {
    &&& below.len() == rows.len()
    &&& forall|d: u32| #[trigger] tops.contains_key(d) ==> tops[d] < rows.len() && T::digest(rows[tops[d] as int]) == d
        && forall|j: int| tops[d] < j < rows.len() ==> T::digest(#[trigger] rows[j]) != d
    &&& forall|j: int| 0 <= j < rows.len() ==> tops.contains_key(T::digest(#[trigger] rows[j]))
    &&& forall|i: int| 0 <= i < rows.len() ==> match #[trigger] below[i] {
        Some(under) => under < i && T::digest(rows[under as int]) == T::digest(rows[i]) && forall|j: int|
            under < j < i ==> T::digest(#[trigger] rows[j]) != T::digest(rows[i]),
        None => forall|j: int| 0 <= j < i ==> T::digest(#[trigger] rows[j]) != T::digest(rows[i]),
    }
}

/// The place in `rows` of a tally that is the same as `tally`, if there is
/// one: it is looked for among the tallies with the digest of `tally`.
pub fn find_row<T: Tally>(rows: &Vec<T>, tops: &HashMap<u32, u16>, below: &Vec<Option<u16>>, tally: &T) -> (found: Option<usize>)
    requires
        shelved::<T>(rows_of(rows@), tops@, below@),
    ensures
        match found {
            Some(j) => j < rows.len() && rows[j as int]@ == tally@,
            None => !rows_of(rows@).contains(tally@),
        },
{
    broadcast use vstd::std_specs::hash::group_hash_axioms;

    let digest = tally.digested();
    let mut at: Option<u16> = match tops.get(&digest) {
        Some(top) => Some(*top),
        None => None,
    };
    let ghost views = rows_of(rows@);
    loop
        invariant
            views == rows_of(rows@),
            shelved::<T>(views, tops@, below@),
            digest == T::digest(tally@),
            match at {
                Some(here) => here < rows.len() && T::digest(views[here as int]) == digest && forall|j: int|
                    here < j < rows.len() && T::digest(views[j]) == digest ==> #[trigger] views[j] != tally@,
                None => forall|j: int| 0 <= j < rows.len() && T::digest(views[j]) == digest ==> #[trigger] views[j] != tally@,
            },
        decreases
            match at {
                Some(here) => here + 1,
                None => 0,
            },
    {
        match at {
            None => {
                proof {
                    if views.contains(tally@) {
                        let j = choose|j: int| 0 <= j < views.len() && views[j] == tally@;
                        assert(T::digest(views[j]) == digest);
                    }
                }
                return None;
            },
            Some(here) => {
                if rows[here as usize].same(tally) {
                    return Some(here as usize);
                }
                proof {
                    assert(views[here as int] != tally@);
                }
                at = below[here as usize];
            },
        }
    }
}

/// Where `key` belongs among the ascending keys of `pairs`, and whether it
/// stands there already (then just before the place returned).
pub fn slot_of(pairs: &Vec<(String, u16)>, key: &str) -> (slot: (usize, bool))
    ensures
        slot.0 <= pairs.len(),
        forall|q: int| slot.0 <= q < pairs.len() ==> precedes(encode_utf8(key@), encode_utf8((#[trigger] pairs[q]).0@)),
        slot.1 ==> slot.0 > 0 && encode_utf8(pairs[slot.0 - 1].0@) == encode_utf8(key@),
        !slot.1 && slot.0 > 0 ==> precedes(encode_utf8(pairs[slot.0 - 1].0@), encode_utf8(key@)),
{
    let mut p: usize = pairs.len();
    while p > 0
        invariant
            p <= pairs.len(),
            forall|q: int| p <= q < pairs.len() ==> precedes(encode_utf8(key@), encode_utf8((#[trigger] pairs[q]).0@)),
        decreases p,
    {
        match order_of(key.as_bytes(), pairs[p - 1].0.as_str().as_bytes()) {
            Order::Before => {
                p = p - 1;
            },
            Order::Same => {
                return (p, true);
            },
            Order::After => {
                return (p, false);
            },
        }
    }
    (p, false)
}

/// Compiles patterns: stores each tally once and gives it an identifier,
/// and lists each key once, in ascending order, with the identifier of its
/// tally. Of two patterns with one key the first counts. There is no result
/// where there are more tallies than identifiers.
pub fn uniques<T: Tally>(entries: &Vec<(String, T)>) -> (compilation: Option<(Vec<(String, u16)>, Vec<T>)>)
    ensures
        compilation is None <==> distinct(tallies_of(entries@)).len() > TALLY_SPACE,
        compilation matches Some((pairs, rows)) ==> compiled(
            keys_of(entries@),
            tallies_of(entries@),
            pairs_of(pairs@),
            rows_of(rows@),
        ),
{
    broadcast use vstd::std_specs::hash::group_hash_axioms;

    let ghost keys = keys_of(entries@);
    let ghost tallies = tallies_of(entries@);
    let mut pairs: Vec<(String, u16)> = Vec::new();
    let mut rows: Vec<T> = Vec::new();
    let mut tops: HashMap<u32, u16> = HashMap::new();
    let mut below: Vec<Option<u16>> = Vec::new();
    let ghost mut src: Seq<int> = Seq::empty();
    let mut i: usize = 0;
    while i < entries.len()
        invariant
            i <= entries.len(),
            keys == keys_of(entries@),
            tallies == tallies_of(entries@),
            rows.len() <= TALLY_SPACE,
            shelved::<T>(rows_of(rows@), tops@, below@),
            rows_of(rows@) == distinct(tallies.take(i as int)),
            ascending(names_of(pairs_of(pairs@))),
            src.len() == pairs.len(),
            forall|t: int| 0 <= t < pairs.len() ==> 0 <= #[trigger] src[t] < i && pair_from(keys, tallies, pairs_of(pairs@)[t], rows_of(rows@), src[t]),
            forall|e: int| 0 <= e < i ==> holds_key(pairs_of(pairs@), #[trigger] keys[e]),
        decreases entries.len() - i,
    {
        let ghost old_rows = rows_of(rows@);
        let ghost old_pairs = pairs_of(pairs@);
        proof {
            assert(tallies.take(i + 1).drop_last() == tallies.take(i as int));
            assert(tallies.take(i + 1).last() == tallies[i as int]);
        }
        let id: u16 = match find_row(&rows, &tops, &below, &entries[i].1) {
            Some(j) => {
                proof {
                    assert(old_rows[j as int] == tallies[i as int]);
                    assert(old_rows.contains(tallies[i as int]));
                }
                j as u16
            },
            None => {
                if rows.len() >= TALLY_SPACE {
                    proof {
                        lemma_distinct_grows(tallies, i + 1);
                    }
                    return None;
                }
                let j = rows.len();
                let digest = entries[i].1.digested();
                let ghost old_tops = tops@;
                rows.push(entries[i].1.duplicate());
                let under: Option<u16> = match tops.get(&digest) {
                    Some(top) => Some(*top),
                    None => None,
                };
                below.push(under);
                tops.insert(digest, j as u16);
                proof {
                    let new_rows = rows_of(rows@);
                    assert(new_rows == old_rows.push(tallies[i as int]));
                    assert forall|k: int| 0 <= k < old_rows.len() implies new_rows[k] == old_rows[k] by {}
                    assert(T::digest(new_rows[j as int]) == digest);
                    assert(tops@ == old_tops.insert(digest, j as u16));
                    assert(shelved::<T>(new_rows, tops@, below@));
                }
                j as u16
            },
        };
        proof {
            assert(rows_of(rows@) == distinct(tallies.take(i + 1)));
            assert(rows_of(rows@)[id as int] == tallies[i as int]);
            assert forall|t: int| 0 <= t < pairs.len() implies pair_from(keys, tallies, old_pairs[t], rows_of(rows@), src[t]) by {
                assert(pair_from(keys, tallies, old_pairs[t], old_rows, src[t]));
                assert(rows_of(rows@)[old_pairs[t].1 as int] == old_rows[old_pairs[t].1 as int]);
            }
        }
        let (p, present) = slot_of(&pairs, entries[i].0.as_str());
        let ghost key = keys[i as int];
        let ghost names = names_of(old_pairs);
        if present {
            proof {
                assert(old_pairs[p - 1].0 == key);
            }
        } else {
            proof {
                // The key stands nowhere in `pairs`: this entry is the first with it.
                assert forall|q: int| 0 <= q < old_pairs.len() implies old_pairs[q].0 != key by {
                    if q >= p {
                        assert(precedes(key, old_pairs[q].0));
                        lemma_precedes_irreflexive(key);
                    } else {
                        assert(precedes(old_pairs[p - 1].0, key));
                        if q < p - 1 {
                            assert(precedes(names[q], names[p - 1]));
                            lemma_precedes_transitive(old_pairs[q].0, old_pairs[p - 1].0, key);
                        }
                        lemma_precedes_irreflexive(key);
                    }
                }
                assert forall|j: int| 0 <= j < i implies keys[j] != key by {
                    assert(holds_key(old_pairs, keys[j]));
                }
                assert(first_with(keys, i as int));
            }
            pairs.insert(p, (entries[i].0.clone(), id));
            proof {
                src = src.insert(p as int, i as int);
                let new_pairs = pairs_of(pairs@);
                assert(new_pairs == old_pairs.insert(p as int, (key, id)));
                let new_names = names_of(new_pairs);
                assert(new_names == names.insert(p as int, key));
                assert forall|a: int, b: int| 0 <= a < b < new_names.len() implies precedes(#[trigger] new_names[a], #[trigger] new_names[b]) by {
                    if b < p {
                        assert(precedes(names[a], names[b]));
                    } else if b == p {
                        assert(precedes(old_pairs[p - 1].0, key));
                        if a < p - 1 {
                            assert(precedes(names[a], names[p - 1]));
                            lemma_precedes_transitive(names[a], names[p - 1], key);
                        }
                    } else if a < p {
                        assert(precedes(names[a], names[b - 1]));
                    } else if a == p {
                        assert(precedes(key, old_pairs[b - 1].0));
                    } else {
                        assert(precedes(names[a - 1], names[b - 1]));
                    }
                }
                assert forall|t: int| 0 <= t < pairs.len() implies 0 <= #[trigger] src[t] < i + 1 && pair_from(keys, tallies, new_pairs[t], rows_of(rows@), src[t]) by {
                    if t < p {
                        assert(new_pairs[t] == old_pairs[t]);
                    } else if t > p {
                        assert(new_pairs[t] == old_pairs[t - 1]);
                    }
                }
                assert forall|e: int| 0 <= e < i + 1 implies holds_key(new_pairs, #[trigger] keys[e]) by {
                    if e < i {
                        assert(holds_key(old_pairs, keys[e]));
                        let t = choose|t: int| 0 <= t < old_pairs.len() && (#[trigger] old_pairs[t]).0 == keys[e];
                        if t < p {
                            assert(new_pairs[t].0 == keys[e]);
                        } else {
                            assert(new_pairs[t + 1].0 == keys[e]);
                        }
                    } else {
                        assert(new_pairs[p as int].0 == key);
                    }
                }
            }
        }
        i = i + 1;
    }
    proof {
        assert(tallies.take(i as int) == tallies);
        let done = pairs_of(pairs@);
        assert forall|t: int| 0 <= t < done.len() implies has_source(keys, tallies, #[trigger] done[t], rows_of(rows@)) by {
            assert(pair_from(keys, tallies, done[t], rows_of(rows@), src[t]));
        }
    }
    Some((pairs, rows))
}

} // verus!
