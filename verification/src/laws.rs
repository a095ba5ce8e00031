use vstd::prelude::*;
use vstd::utf8::*;
use crate::case_folding::{
    fold, folds_singly, lemma_fold_len_exact, lemma_origin_ascends, lemma_origin_singly,
    lemma_realigned_boundary, lemma_realigned_without_shifts, lemma_unaffected_no_shifts, origin,
    realigned, shifts_of, Shift,
};
use crate::extended::{fresh_each, kept_exact, realigned_each, Extended};
use crate::hyphenator::{
    legal_gaps, lemma_legal_in, lemma_soft_hyphens_step, soft_hyphens, soft_hyphens_in, window, Hyphenator,
};
use crate::patterns::{first_of, index_expected};
use crate::standard::{fresh, kept, led_back, realigned_all, Standard};
use crate::score::{best_at, hits, key_at, score_rows, wins, Gap, Hit};
use crate::tally::{ExtendedTally, Subregion};
use crate::text::{
    lemma_boundary_is_offset, lemma_offset_ascends, lemma_offset_bound, lemma_offset_is_boundary,
    offset_of, span, SOFT_HYPHEN,
};
use crate::uniques::{distinct, first_with, lemma_distinct_contains, lemma_distinct_no_duplicates, TALLY_SPACE};

verus! {

/// The byte offset `at` is that of a soft hyphen among the first `n`
/// characters.
pub open spec fn marks(chars: Seq<char>, n: int, at: usize) -> bool {
    exists|k: int| 0 <= k < n && chars[k] == SOFT_HYPHEN && offset_of(chars, k) == at
}

/// For a word that folding leaves as it is, realignment changes nothing:
/// the word has no shifts, and every byte offset stands for itself.
pub proof fn lemma_unaffected_realigns_to_itself(word: Seq<char>, position: usize)
    requires
        fold(word) == word,
    ensures
        shifts_of(word) == Seq::<Shift>::empty(),
        realigned(position as int, shifts_of(word)) == position,
{
    lemma_unaffected_no_shifts(word);
    lemma_realigned_without_shifts(position as int);
}

/// The soft hyphens found are soft hyphens, each at the start of its
/// character, in strictly ascending order.
pub proof fn lemma_soft_hyphens_in(chars: Seq<char>, n: int)
    requires
        span(chars) <= usize::MAX,
        0 <= n <= chars.len(),
    ensures
        forall|j: int| 0 <= j < soft_hyphens_in(chars, n).len() ==> marks(chars, n, #[trigger] soft_hyphens_in(chars, n)[j]),
        forall|i: int, j: int| 0 <= i < j < soft_hyphens_in(chars, n).len() ==>
            #[trigger] soft_hyphens_in(chars, n)[i] < #[trigger] soft_hyphens_in(chars, n)[j],
    decreases n,
{
    if n == 0 {
        assert(crate::hyphenator::indices(0) == Seq::<int>::empty());
        crate::hyphenator::indices(0).lemma_filter_len(|k: int| chars[k] == SOFT_HYPHEN);
    } else {
        lemma_soft_hyphens_in(chars, n - 1);
        lemma_soft_hyphens_step(chars, n - 1);
        lemma_offset_bound(chars, n - 1);
        let before = soft_hyphens_in(chars, n - 1);
        let now = soft_hyphens_in(chars, n);
        assert forall|j: int| 0 <= j < before.len() implies marks(chars, n, #[trigger] before[j]) && before[j] < offset_of(chars, n - 1) by {
            assert(marks(chars, n - 1, before[j]));
            let k = choose|k: int| 0 <= k < n - 1 && chars[k] == SOFT_HYPHEN && offset_of(chars, k) == before[j];
            lemma_offset_ascends(chars, k, n - 1);
        }
        assert forall|j: int| 0 <= j < now.len() implies marks(chars, n, #[trigger] now[j]) by {
            if j < before.len() {
                assert(now[j] == before[j]);
            }
        }
        assert forall|i: int, j: int| 0 <= i < j < now.len() implies #[trigger] now[i] < #[trigger] now[j] by {
            if j < before.len() {
                assert(now[i] == before[i] && now[j] == before[j]);
            } else {
                assert(now[i] == before[i]);
            }
        }
    }
}

/// The byte offsets stand in strictly ascending order.
pub open spec fn ascends(at: Seq<usize>) -> bool {
    forall|i: int, j: int| 0 <= i < j < at.len() ==> #[trigger] at[i] < #[trigger] at[j]
}

/// At each of the byte offsets a character of the word starts, or the word
/// ends.
pub open spec fn on_boundaries(chars: Seq<char>, at: Seq<usize>) -> bool {
    forall|i: int| 0 <= i < at.len() ==> is_char_boundary(encode_utf8(chars), #[trigger] at[i] as int)
}

/// The byte offset lies within the window of the word.
pub open spec fn in_window(chars: Seq<char>, minima: (usize, usize), at: int) -> bool {
    window(chars, minima) matches Some(bounds) && bounds.0 <= at <= bounds.1
}

/// The byte offsets of known breaks of an extended dictionary.
pub open spec fn places(breaks: Seq<(usize, Option<Subregion>)>) -> Seq<usize> {
    breaks.map_values(|known: (usize, Option<Subregion>)| known.0)
}

/// No byte offset is less than one before it.
pub open spec fn never_falls(at: Seq<usize>) -> bool {
    forall|i: int, j: int| 0 <= i < j < at.len() ==> #[trigger] at[i] <= #[trigger] at[j]
}

/// What the breaks `at` of the folded word come to in the word: themselves
/// where the word has no shifts, else what they lead back to.
pub open spec fn brought_back(word: Seq<char>, at: Seq<usize>) -> Seq<usize> {
    if shifts_of(word).len() == 0 {
        at
    } else {
        led_back(at, shifts_of(word))
    }
}

/// What is left without repeats was there before.
pub proof fn lemma_fresh_contains(at: Seq<usize>)
    ensures
        forall|j: int| 0 <= j < fresh(at).len() ==> at.contains(#[trigger] fresh(at)[j]),
        at.len() > 0 ==> fresh(at).len() > 0 && fresh(at).last() == at.last(),
    decreases at.len(),
{
    if at.len() > 0 {
        let init = at.drop_last();
        lemma_fresh_contains(init);
        assert(at[at.len() - 1] == at.last());
        assert forall|j: int| 0 <= j < fresh(init).len() implies at.contains(#[trigger] fresh(init)[j]) by {
            let t = choose|t: int| 0 <= t < init.len() && init[t] == fresh(init)[j];
            assert(at[t] == fresh(init)[j]);
        }
        if init.len() > 0 {
            assert(init.last() == at[at.len() - 2]);
        }
    }
}

/// Byte offsets that never fall ascend strictly once the repeats are left
/// out.
pub proof fn lemma_fresh_ascends(at: Seq<usize>)
    requires
        never_falls(at),
    ensures
        ascends(fresh(at)),
    decreases at.len(),
{
    if at.len() > 0 {
        let init = at.drop_last();
        assert(never_falls(init)) by {
            assert forall|i: int, j: int| 0 <= i < j < init.len() implies #[trigger] init[i] <= #[trigger] init[j] by {
                assert(at[i] <= at[j]);
            }
        }
        lemma_fresh_ascends(init);
        lemma_fresh_contains(init);
        if init.len() > 0 {
            assert(init.last() == at[at.len() - 2]);
            assert(at[at.len() - 2] <= at[at.len() - 1]);
        }
    }
}

/// Byte offsets that ascend strictly have no repeats to leave out.
pub proof fn lemma_fresh_same(at: Seq<usize>)
    requires
        ascends(at),
    ensures
        fresh(at) == at,
    decreases at.len(),
{
    if at.len() > 0 {
        let init = at.drop_last();
        assert(ascends(init)) by {
            assert forall|i: int, j: int| 0 <= i < j < init.len() implies #[trigger] init[i] < #[trigger] init[j] by {
                assert(at[i] < at[j]);
            }
        }
        lemma_fresh_same(init);
        if at.len() >= 2 {
            assert(at[at.len() - 2] < at[at.len() - 1]);
        }
        assert(init.push(at.last()) == at);
    }
}

/// A character boundary of the folded word leads back to the start of a
/// character of the word, or to its end; and a later boundary leads no less
/// far.
pub proof fn lemma_boundary_led_back(word: Seq<char>, at: int) -> (j: int)
    requires
        span(word) <= usize::MAX,
        span(fold(word)) <= usize::MAX,
        is_char_boundary(encode_utf8(fold(word)), at),
    ensures
        0 <= j <= fold(word).len(),
        at == offset_of(fold(word), j),
        0 <= origin(word, j) <= word.len(),
        realigned(at, shifts_of(word)) == offset_of(word, origin(word, j)),
        0 <= offset_of(word, origin(word, j)) <= usize::MAX,
{
    lemma_boundary_is_offset(fold(word), at);
    let j = choose|j: int| 0 <= j <= fold(word).len() && offset_of(fold(word), j) == at;
    lemma_realigned_boundary(word, j);
    lemma_offset_bound(word, origin(word, j));
    j
}

/// Breaks of the folded word that ascend on character boundaries come, in
/// the word, to breaks that ascend on character boundaries.
pub proof fn lemma_brought_back_ascends(word: Seq<char>, at: Seq<usize>)
    requires
        span(word) <= usize::MAX,
        span(fold(word)) <= usize::MAX,
        on_boundaries(fold(word), at),
        ascends(at),
    ensures
        ascends(brought_back(word, at)),
        on_boundaries(word, brought_back(word, at)),
{
    let back = realigned_all(at, shifts_of(word));
    assert forall|i: int| 0 <= i < back.len() implies is_char_boundary(encode_utf8(word), #[trigger] back[i] as int) by {
        let j = lemma_boundary_led_back(word, at[i] as int);
        lemma_offset_is_boundary(word, origin(word, j));
    }
    assert forall|a: int, b: int| 0 <= a < b < back.len() implies #[trigger] back[a] <= #[trigger] back[b] by {
        let i = lemma_boundary_led_back(word, at[a] as int);
        let j = lemma_boundary_led_back(word, at[b] as int);
        assert(at[a] < at[b]);
        if i > j {
            lemma_offset_ascends(fold(word), j, i);
        }
        lemma_origin_ascends(word, i, j);
        if origin(word, i) < origin(word, j) {
            lemma_offset_ascends(word, origin(word, i), origin(word, j));
        }
    }
    if shifts_of(word).len() == 0 {
        assert(shifts_of(word) =~= Seq::<Shift>::empty());
        assert(back =~= at) by {
            assert forall|i: int| 0 <= i < at.len() implies back[i] == at[i] by {
                lemma_realigned_without_shifts(at[i] as int);
            }
        }
    } else {
        lemma_fresh_ascends(back);
        lemma_fresh_contains(back);
        let out = fresh(back);
        assert forall|i: int| 0 <= i < out.len() implies is_char_boundary(encode_utf8(word), #[trigger] out[i] as int) by {
            let t = choose|t: int| 0 <= t < back.len() && back[t] == out[i];
            assert(is_char_boundary(encode_utf8(word), back[t] as int));
        }
    }
}

/// A byte offset of the folded word that lies within the window, at the
/// start of a character or at the end, has before it and behind it as many
/// characters as must stay together; and it stands for the byte offset at
/// which the same character of the original starts. This holds where each
/// character folds to one character.
pub proof fn lemma_position_realigned(word: Seq<char>, minima: (usize, usize), at: int) -> (k: int)
    requires
        span(word) <= usize::MAX,
        span(fold(word)) <= usize::MAX,
        folds_singly(word),
        in_window(fold(word), minima, at),
        is_char_boundary(encode_utf8(fold(word)), at),
    ensures
        minima.0 <= k <= word.len() - minima.1,
        at == offset_of(fold(word), k),
        realigned(at, shifts_of(word)) == offset_of(word, k),
        0 <= offset_of(word, k) <= usize::MAX,
{
    let folded = fold(word);
    let k = lemma_boundary_led_back(word, at);
    lemma_fold_len_exact(word);
    lemma_origin_singly(word, k);
    lemma_offset_bound(folded, minima.0 as int);
    lemma_offset_bound(folded, folded.len() - minima.1);
    if k < minima.0 {
        lemma_offset_ascends(folded, k, minima.0 as int);
    }
    if k > folded.len() - minima.1 {
        lemma_offset_ascends(folded, folded.len() - minima.1, k);
    }
    k
}

/// Each break that breaks of the folded word come to lies at the start of a
/// character with as many characters before it and behind it as must stay
/// together, where the breaks of the folded word lie within the window on
/// character boundaries and each character folds to one character.
pub proof fn lemma_brought_back_margins(word: Seq<char>, minima: (usize, usize), at: Seq<usize>, i: int) -> (k: int)
    requires
        span(word) <= usize::MAX,
        span(fold(word)) <= usize::MAX,
        folds_singly(word),
        forall|t: int| 0 <= t < at.len() ==> in_window(fold(word), minima, #[trigger] at[t] as int),
        on_boundaries(fold(word), at),
        0 <= i < brought_back(word, at).len(),
    ensures
        minima.0 <= k <= word.len() - minima.1,
        brought_back(word, at)[i] == offset_of(word, k),
{
    if shifts_of(word).len() == 0 {
        assert(shifts_of(word) =~= Seq::<Shift>::empty());
        lemma_realigned_without_shifts(at[i] as int);
        lemma_position_realigned(word, minima, at[i] as int)
    } else {
        let back = realigned_all(at, shifts_of(word));
        lemma_fresh_contains(back);
        let t = choose|t: int| 0 <= t < back.len() && back[t] == fresh(back)[i];
        lemma_position_realigned(word, minima, at[t] as int)
    }
}

/// The known breaks that are kept lie within the bounds and are among those
/// known; where the known breaks ascend, so do the kept ones.
pub proof fn lemma_kept(breaks: Seq<usize>, bounds: (usize, usize))
    ensures
        forall|j: int| 0 <= j < kept(breaks, bounds).len() ==> bounds.0 <= #[trigger] kept(breaks, bounds)[j] <= bounds.1
            && breaks.contains(kept(breaks, bounds)[j]),
        ascends(breaks) ==> ascends(kept(breaks, bounds)),
    decreases breaks.len(),
{
    let within = |at: usize| bounds.0 <= at <= bounds.1;
    if breaks.len() == 0 {
        breaks.lemma_filter_len(within);
    } else {
        let init = breaks.drop_last();
        let last = breaks.last();
        lemma_kept(init, bounds);
        assert(init.push(last) == breaks);
        init.lemma_filter_push(last, within);
        let before = kept(init, bounds);
        let now = kept(breaks, bounds);
        assert forall|j: int| 0 <= j < before.len() implies breaks.contains(#[trigger] before[j]) && (ascends(breaks) ==> before[j] < last) by {
            assert(init.contains(before[j]));
            let t = choose|t: int| 0 <= t < init.len() && init[t] == before[j];
            assert(breaks[t] == before[j]);
        }
        assert(breaks[breaks.len() - 1] == last);
        assert forall|j: int| 0 <= j < now.len() implies bounds.0 <= #[trigger] now[j] <= bounds.1 && breaks.contains(now[j]) by {
            if j < before.len() {
                assert(now[j] == before[j]);
            }
        }
        if ascends(breaks) {
            assert(ascends(init)) by {
                assert forall|i: int, j: int| 0 <= i < j < init.len() implies #[trigger] init[i] < #[trigger] init[j] by {
                    assert(breaks[i] < breaks[j]);
                }
            }
            assert forall|i: int, j: int| 0 <= i < j < now.len() implies #[trigger] now[i] < #[trigger] now[j] by {
                assert(now[i] == before[i]);
                if j < before.len() {
                    assert(now[j] == before[j]);
                }
            }
        }
    }
}

/// The breaks of a lowercase word lie within its window, on character
/// boundaries where the known ones do, and ascend where the known ones do.
pub proof fn lemma_found_placed(dict: Standard, word: Seq<char>)
    requires
        span(word) <= usize::MAX,
        window(word, dict.minima) is Some,
        dict.known(word) matches Some(ops) ==> on_boundaries(word, ops),
    ensures
        forall|i: int| 0 <= i < dict.found(word).len() ==> in_window(word, dict.minima, #[trigger] dict.found(word)[i] as int),
        on_boundaries(word, dict.found(word)),
        (dict.known(word) matches Some(ops) ==> ascends(ops)) ==> ascends(dict.found(word)),
{
    let bounds = window(word, dict.minima)->0;
    let found = dict.found(word);
    match dict.known(word) {
        Some(ops) => {
            lemma_kept(ops, bounds);
            assert forall|i: int| 0 <= i < found.len() implies is_char_boundary(encode_utf8(word), #[trigger] found[i] as int) by {
                assert(ops.contains(found[i]));
                let t = choose|t: int| 0 <= t < ops.len() && ops[t] == found[i];
                assert(is_char_boundary(encode_utf8(word), ops[t] as int));
            }
        },
        None => {
            let gaps = dict.gaps(word);
            lemma_legal_in(gaps, encode_utf8(word), bounds, gaps.len() as int);
            let legal = legal_gaps(gaps, encode_utf8(word), bounds);
            assert forall|i: int| 0 <= i < found.len() implies found[i] == #[trigger] legal[i] by {}
        },
    }
}

/// The breaks of a word stand in strictly ascending order, and at each a
/// character of the word starts, or the word ends. This holds of every word
/// for which no breaks are known, and of a word with soft hyphens; of
/// another word it holds where the breaks known for what it folds to ascend
/// on character boundaries.
pub proof fn lemma_breaks_ascend_on_boundaries(dict: Standard, word: Seq<char>)
    requires
        span(word) <= usize::MAX,
        span(fold(word)) <= usize::MAX,
        soft_hyphens(word).len() == 0 ==> (dict.known(fold(word)) matches Some(ops) ==> ascends(ops) && on_boundaries(fold(word), ops)),
    ensures
        ascends(dict.hyphenated(word)),
        on_boundaries(word, dict.hyphenated(word)),
{
    let breaks = dict.hyphenated(word);
    if soft_hyphens(word).len() > 0 {
        lemma_soft_hyphens_in(word, word.len() as int);
        assert forall|i: int| 0 <= i < breaks.len() implies is_char_boundary(encode_utf8(word), #[trigger] breaks[i] as int) by {
            assert(marks(word, word.len() as int, breaks[i]));
            let k = choose|k: int| 0 <= k < word.len() && word[k] == SOFT_HYPHEN && offset_of(word, k) == breaks[i];
            lemma_offset_is_boundary(word, k);
        }
    } else {
        if window(fold(word), dict.minima) is Some {
            lemma_found_placed(dict, fold(word));
        }
        lemma_brought_back_ascends(word, dict.found(fold(word)));
    }
}

/// Each break lies at the start of a character that has before it at least
/// as many characters as must stay together at the start of a word, and with
/// it and behind it at least as many as must stay together at the end. This
/// holds of a word without soft hyphens of which each character folds to one
/// character, where the breaks known for what it folds to, if any are
/// known, lie on character boundaries.
pub proof fn lemma_breaks_respect_margins(dict: Standard, word: Seq<char>, i: int) -> (k: int)
    requires
        span(word) <= usize::MAX,
        span(fold(word)) <= usize::MAX,
        soft_hyphens(word).len() == 0,
        folds_singly(word),
        dict.known(fold(word)) matches Some(ops) ==> on_boundaries(fold(word), ops),
        0 <= i < dict.hyphenated(word).len(),
    ensures
        dict.minima.0 <= k <= word.len() - dict.minima.1,
        dict.hyphenated(word)[i] == offset_of(word, k),
{
    if window(fold(word), dict.minima) is Some {
        lemma_found_placed(dict, fold(word));
    } else {
        assert(led_back(dict.found(fold(word)), shifts_of(word)) =~= Seq::<usize>::empty());
    }
    lemma_brought_back_margins(word, dict.minima, dict.found(fold(word)), i)
}

/// A word with soft hyphens breaks at its soft hyphens and nowhere else,
/// whatever the dictionary knows or finds.
pub proof fn lemma_soft_hyphens_decide(dict: Standard, word: Seq<char>)
    requires
        soft_hyphens(word).len() > 0,
    ensures
        dict.hyphenated(word) == soft_hyphens(word),
{
}

/// Where breaks are known for a word, as `add_exact` leaves them, the word
/// breaks at those of them that lie within the bounds of the word, whatever
/// the patterns find. This holds of a word without soft hyphens that
/// folding leaves as it is.
pub proof fn lemma_exact_overrides(dict: Standard, word: Seq<char>, ops: Seq<usize>)
    requires
        dict.known(word) == Some(ops),
        soft_hyphens(word).len() == 0,
        fold(word) == word,
    ensures
        dict.hyphenated(word) == match window(word, dict.minima) {
            Some(bounds) => kept(ops, bounds),
            None => Seq::empty(),
        },
{
    lemma_unaffected_no_shifts(word);
}

/// As `lemma_kept`, of the known breaks of an extended dictionary.
pub proof fn lemma_kept_exact(breaks: Seq<(usize, Option<Subregion>)>, bounds: (usize, usize))
    ensures
        forall|j: int| 0 <= j < kept_exact(breaks, bounds).len() ==> bounds.0 <= (#[trigger] kept_exact(breaks, bounds)[j]).0 <= bounds.1
            && places(breaks).contains(kept_exact(breaks, bounds)[j].0),
        ascends(places(breaks)) ==> forall|i: int, j: int| 0 <= i < j < kept_exact(breaks, bounds).len() ==>
            (#[trigger] kept_exact(breaks, bounds)[i]).0 < (#[trigger] kept_exact(breaks, bounds)[j]).0,
    decreases breaks.len(),
{
    let within = |known: (usize, Option<Subregion>)| bounds.0 <= known.0 <= bounds.1;
    if breaks.len() == 0 {
        breaks.lemma_filter_len(within);
    } else {
        let init = breaks.drop_last();
        let last = breaks.last();
        lemma_kept_exact(init, bounds);
        assert(init.push(last) == breaks);
        init.lemma_filter_push(last, within);
        let before = kept_exact(init, bounds);
        let now = kept_exact(breaks, bounds);
        assert forall|j: int| 0 <= j < before.len() implies places(breaks).contains((#[trigger] before[j]).0) && (ascends(places(breaks))
            ==> before[j].0 < last.0) by {
            assert(places(init).contains(before[j].0));
            let t = choose|t: int| 0 <= t < places(init).len() && places(init)[t] == before[j].0;
            assert(places(breaks)[t] == before[j].0);
            assert(places(breaks)[breaks.len() - 1] == last.0);
        }
        assert(places(breaks)[breaks.len() - 1] == last.0);
        assert forall|j: int| 0 <= j < now.len() implies bounds.0 <= (#[trigger] now[j]).0 <= bounds.1 && places(breaks).contains(now[j].0) by {
            if j < before.len() {
                assert(now[j] == before[j]);
            }
        }
        if ascends(places(breaks)) {
            assert(ascends(places(init))) by {
                assert forall|i: int, j: int| 0 <= i < j < places(init).len() implies #[trigger] places(init)[i] < #[trigger] places(init)[j] by {
                    assert(places(breaks)[i] < places(breaks)[j]);
                }
            }
            assert forall|i: int, j: int| 0 <= i < j < now.len() implies (#[trigger] now[i]).0 < (#[trigger] now[j]).0 by {
                assert(now[i] == before[i]);
                if j < before.len() {
                    assert(now[j] == before[j]);
                }
            }
        }
    }
}

/// The byte offsets of breaks.
pub open spec fn offsets<'h>(breaks: Seq<(usize, Option<&'h Subregion>)>) -> Seq<usize> {
    breaks.map_values(|found: (usize, Option<&'h Subregion>)| found.0)
}

/// As `lemma_found_placed`, of the byte offsets of the breaks of an
/// extended dictionary.
pub proof fn lemma_extended_found_placed(dict: Extended, word: Seq<char>)
    requires
        span(word) <= usize::MAX,
        window(word, dict.minima) is Some,
        dict.known(word) matches Some(ops) ==> on_boundaries(word, places(ops)),
    ensures
        forall|i: int| 0 <= i < dict.found(word).len() ==> in_window(word, dict.minima, #[trigger] offsets(dict.found(word))[i] as int),
        on_boundaries(word, offsets(dict.found(word))),
        (dict.known(word) matches Some(ops) ==> ascends(places(ops))) ==> ascends(offsets(dict.found(word))),
{
    let bounds = window(word, dict.minima)->0;
    let found = dict.found(word);
    let at = offsets(found);
    match dict.known(word) {
        Some(ops) => {
            lemma_kept_exact(ops, bounds);
            assert forall|i: int| 0 <= i < at.len() implies is_char_boundary(encode_utf8(word), #[trigger] at[i] as int) by {
                assert(places(ops).contains(found[i].0));
                let t = choose|t: int| 0 <= t < places(ops).len() && places(ops)[t] == found[i].0;
                assert(is_char_boundary(encode_utf8(word), places(ops)[t] as int));
            }
            assert forall|i: int| 0 <= i < found.len() implies bounds.0 <= #[trigger] at[i] <= bounds.1 by {
                assert(at[i] == found[i].0);
            }
            if ascends(places(ops)) {
                assert forall|i: int, j: int| 0 <= i < j < at.len() implies #[trigger] at[i] < #[trigger] at[j] by {
                    assert(found[i].0 < found[j].0);
                }
            }
        },
        None => {
            let gaps = dict.gaps(word);
            lemma_legal_in(gaps, encode_utf8(word), bounds, gaps.len() as int);
            let legal = legal_gaps(gaps, encode_utf8(word), bounds);
            assert forall|i: int| 0 <= i < at.len() implies at[i] == #[trigger] legal[i] by {}
        },
    }
}

/// The byte offsets of breaks led back are the byte offsets led back.
pub proof fn lemma_offsets_realigned<'h>(breaks: Seq<(usize, Option<&'h Subregion>)>, shifts: Seq<Shift>)
    ensures
        offsets(realigned_each(breaks, shifts)) == realigned_all(offsets(breaks), shifts),
{
    assert(offsets(realigned_each(breaks, shifts)) =~= realigned_all(offsets(breaks), shifts));
}

/// The byte offsets of breaks without repeats are the byte offsets without
/// repeats.
pub proof fn lemma_offsets_fresh<'h>(breaks: Seq<(usize, Option<&'h Subregion>)>)
    ensures
        offsets(fresh_each(breaks)) == fresh(offsets(breaks)),
    decreases breaks.len(),
{
    if breaks.len() == 0 {
        assert(offsets(breaks) =~= Seq::<usize>::empty());
        assert(offsets(fresh_each(breaks)) =~= fresh(offsets(breaks)));
    } else {
        let init = breaks.drop_last();
        lemma_offsets_fresh(init);
        assert(offsets(breaks).drop_last() =~= offsets(init));
        assert(offsets(breaks).last() == breaks.last().0);
        if breaks.len() >= 2 {
            assert(offsets(breaks)[breaks.len() - 2] == breaks[breaks.len() - 2].0);
        }
        assert(offsets(fresh_each(breaks)) =~= fresh(offsets(breaks)));
    }
}

/// The byte offsets of the breaks of a word are what the byte offsets of
/// the breaks of the folded word come to.
pub proof fn lemma_extended_offsets(dict: Extended, word: Seq<char>)
    requires
        soft_hyphens(word).len() == 0,
    ensures
        offsets(dict.hyphenated(word)) == brought_back(word, offsets(dict.found(fold(word)))),
{
    lemma_offsets_realigned(dict.found(fold(word)), shifts_of(word));
    lemma_offsets_fresh(realigned_each(dict.found(fold(word)), shifts_of(word)));
}

/// As `lemma_breaks_ascend_on_boundaries`, of the byte offsets of the
/// breaks of an extended dictionary.
pub proof fn lemma_extended_breaks_ascend_on_boundaries(dict: Extended, word: Seq<char>)
    requires
        span(word) <= usize::MAX,
        span(fold(word)) <= usize::MAX,
        soft_hyphens(word).len() == 0 ==> (dict.known(fold(word)) matches Some(ops) ==> ascends(places(ops)) && on_boundaries(
            fold(word),
            places(ops),
        )),
    ensures
        ascends(offsets(dict.hyphenated(word))),
        on_boundaries(word, offsets(dict.hyphenated(word))),
{
    let breaks = offsets(dict.hyphenated(word));
    if soft_hyphens(word).len() > 0 {
        lemma_soft_hyphens_in(word, word.len() as int);
        assert(breaks =~= soft_hyphens(word));
        assert forall|i: int| 0 <= i < breaks.len() implies is_char_boundary(encode_utf8(word), #[trigger] breaks[i] as int) by {
            assert(marks(word, word.len() as int, soft_hyphens(word)[i]));
            let k = choose|k: int| 0 <= k < word.len() && word[k] == SOFT_HYPHEN && offset_of(word, k) == soft_hyphens(word)[i];
            lemma_offset_is_boundary(word, k);
        }
    } else {
        let at = offsets(dict.found(fold(word)));
        if window(fold(word), dict.minima) is Some {
            lemma_extended_found_placed(dict, fold(word));
        } else {
            assert(at =~= Seq::<usize>::empty());
        }
        lemma_extended_offsets(dict, word);
        lemma_brought_back_ascends(word, at);
    }
}

/// As `lemma_breaks_respect_margins`, of the byte offsets of the breaks of
/// an extended dictionary.
pub proof fn lemma_extended_breaks_respect_margins(dict: Extended, word: Seq<char>, i: int) -> (k: int)
    requires
        span(word) <= usize::MAX,
        span(fold(word)) <= usize::MAX,
        soft_hyphens(word).len() == 0,
        folds_singly(word),
        dict.known(fold(word)) matches Some(ops) ==> on_boundaries(fold(word), places(ops)),
        0 <= i < dict.hyphenated(word).len(),
    ensures
        dict.minima.0 <= k <= word.len() - dict.minima.1,
        dict.hyphenated(word)[i].0 == offset_of(word, k),
{
    let at = offsets(dict.found(fold(word)));
    if window(fold(word), dict.minima) is Some {
        lemma_extended_found_placed(dict, fold(word));
    } else {
        assert(at =~= Seq::<usize>::empty());
        assert(led_back(at, shifts_of(word)) =~= Seq::<usize>::empty());
    }
    lemma_extended_offsets(dict, word);
    assert(offsets(dict.hyphenated(word))[i] == dict.hyphenated(word)[i].0);
    lemma_brought_back_margins(word, dict.minima, at, i)
}

/// The change of spelling that a tally attaches to the place `slot`.
pub open spec fn attached<'h>(tally: ExtendedTally, slot: usize) -> Option<&'h Subregion> {
    match tally.subregion {
        Some((at, region)) => if at == slot {
            Some(&region)
        } else {
            None
        },
        None => None,
    }
}

/// The change of spelling of a gap goes with its score: it is the one that
/// the tally of the first hit with the gap's greatest score attaches to the
/// place from which the score comes, and none where that tally attaches
/// none there. No hit with a lesser score, and no later hit, decides.
pub proof fn lemma_region_goes_with_score(dict: Extended, bytes: Seq<u8>, g: int, gap: Gap) -> (h: Hit)
    requires
        best_at(dict.patterns.entries(), score_rows::<ExtendedTally>(dict.patterns.rows()), bytes, g, gap),
        gap.score > 0,
    ensures
        wins(dict.patterns.entries(), score_rows::<ExtendedTally>(dict.patterns.rows()), bytes, g, gap, h),
        dict.patterns.entries()[key_at(bytes, h)] < dict.patterns.store().len(),
        dict.region_of(gap) == attached(
            dict.patterns.store()[dict.patterns.entries()[key_at(bytes, h)] as int],
            h.slot as usize,
        ),
{
    let entries = dict.patterns.entries();
    let rows = score_rows::<ExtendedTally>(dict.patterns.rows());
    let h = choose|h: Hit| wins(entries, rows, bytes, g, gap, h);
    assert(hits(entries, rows, bytes, h));
    assert(rows.len() == dict.patterns.store().len());
    h
}

/// As `lemma_soft_hyphens_decide`, of an extended dictionary: the breaks
/// are the soft hyphens, none with a change of spelling.
pub proof fn lemma_extended_soft_hyphens_decide(dict: Extended, word: Seq<char>)
    requires
        soft_hyphens(word).len() > 0,
    ensures
        dict.hyphenated(word) == crate::extended::plain(soft_hyphens(word)),
{
}

/// As `lemma_exact_overrides`, of an extended dictionary.
pub proof fn lemma_extended_exact_overrides(dict: Extended, word: Seq<char>, ops: Seq<(usize, Option<Subregion>)>)
    requires
        dict.known(word) == Some(ops),
        soft_hyphens(word).len() == 0,
        fold(word) == word,
    ensures
        dict.hyphenated(word) == match window(word, dict.minima) {
            Some(bounds) => kept_exact(ops, bounds),
            None => Seq::empty(),
        },
{
    lemma_unaffected_no_shifts(word);
}

/// Patterns with one tally share it: the tally is stored once, and the
/// index gives both keys the identifier of that one place.
pub proof fn lemma_equal_tallies_share<V>(keys: Seq<Seq<u8>>, tallies: Seq<V>, a: int, b: int)
    requires
        keys.len() == tallies.len(),
        distinct(tallies).len() <= TALLY_SPACE,
        first_with(keys, a),
        first_with(keys, b),
        tallies[a] == tallies[b],
    ensures
        index_expected(keys, tallies)[keys[a]] == index_expected(keys, tallies)[keys[b]],
        distinct(tallies).no_duplicates(),
        distinct(tallies)[index_expected(keys, tallies)[keys[a]] as int] == tallies[a],
{
    lemma_distinct_no_duplicates(tallies);
    lemma_distinct_contains(tallies, tallies[a]);
    assert(tallies.contains(tallies[a]));
    let fa = first_of(keys, keys[a]);
    let fb = first_of(keys, keys[b]);
    assert(first_with(keys, fa) && keys[fa] == keys[a]);
    assert(first_with(keys, fb) && keys[fb] == keys[b]);
    assert(fa == a);
    assert(fb == b);
}

} // verus!
