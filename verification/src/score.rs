use vstd::prelude::*;
use vstd::slice::slice_subrange;
use crate::index::starts_of;
use crate::patterns::Patterns;
use crate::tally::Tally;

verus! {

/// The byte that stands for the start and for the end of a word.
pub const BOUNDARY: u8 = 0x2e;

/// What the patterns say of one gap of a word: the score, and where the
/// score comes from (the tally, by its identifier, and the place in it).
/// A score of zero comes from nowhere.
#[derive(Clone, Copy, Debug)]
pub struct Gap {
    pub score: u8,
    pub source: Option<(u16, usize)>,
}

/// One score that one pattern gives: the pattern's key stands in the word,
/// between its boundaries, from `start` on and is `length` bytes long;
/// `slot` is a place in the key's tally.
pub struct Hit {
    pub start: int,
    pub length: int,
    pub slot: int,
}

/// The word between its boundaries.
pub open spec fn padded(word: Seq<u8>) -> Seq<u8> {
    seq![BOUNDARY] + word + seq![BOUNDARY]
}

/// The key of a hit.
pub open spec fn key_at(word: Seq<u8>, h: Hit) -> Seq<u8> {
    padded(word).subrange(h.start, h.start + h.length)
}

/// By how much a key's first gap lies behind its first byte: a boundary at
/// the start of a key is no letter and has no gap before it.
pub open spec fn lead(key: Seq<u8>) -> int {
    if key.len() > 0 && key[0] == BOUNDARY {
        1
    } else {
        0
    }
}

/// The score rows of tallies.
pub open spec fn score_rows<T: Tally>(rows: Seq<T::V>) -> Seq<Seq<u8>> {
    rows.map_values(|v: T::V| T::scores(v))
}

/// `h` is a hit: its key is a key of the index, and its slot a place in the
/// tally that the index gives for the key.
pub open spec fn hits(entries: Map<Seq<u8>, u16>, rows: Seq<Seq<u8>>, word: Seq<u8>, h: Hit) -> bool {
    &&& 0 <= h.start
    &&& 0 <= h.length
    &&& h.start + h.length <= word.len() + 2
    &&& entries.contains_key(key_at(word, h))
    &&& entries[key_at(word, h)] < rows.len()
    &&& 0 <= h.slot < rows[entries[key_at(word, h)] as int].len()
}

/// The gap of the word that a hit gives its score to: the gap of index `g`
/// lies before the byte of index `g`.
pub open spec fn gap_of(word: Seq<u8>, h: Hit) -> int {
    h.start + lead(key_at(word, h)) + h.slot - 1
}

/// The score that a hit gives.
pub open spec fn value_of(entries: Map<Seq<u8>, u16>, rows: Seq<Seq<u8>>, word: Seq<u8>, h: Hit) -> u8 {
    rows[entries[key_at(word, h)] as int][h.slot]
}

/// The order in which hits count: by start, then by length, then by slot.
pub open spec fn earlier(a: Hit, b: Hit) -> bool {
    ||| a.start < b.start
    ||| (a.start == b.start && a.length < b.length)
    ||| (a.start == b.start && a.length == b.length && a.slot < b.slot)
}

/// `h` is the hit that `gap` comes from: the first of those that give the
/// gap of index `g` its greatest score.
pub open spec fn wins(entries: Map<Seq<u8>, u16>, rows: Seq<Seq<u8>>, word: Seq<u8>, g: int, gap: Gap, h: Hit) -> bool {
    &&& hits(entries, rows, word, h)
    &&& gap_of(word, h) == g
    &&& value_of(entries, rows, word, h) == gap.score
    &&& gap.source == Some((entries[key_at(word, h)], h.slot as usize))
    &&& forall|other: Hit| #[trigger] hits(entries, rows, word, other) && gap_of(word, other) == g && earlier(other, h)
            ==> value_of(entries, rows, word, other) < gap.score
}

/// `gap` is what the patterns say of the gap of index `g`: its score is the
/// greatest that any hit gives to that gap, zero where there is none; and it
/// comes from the first hit that gives so much.
pub open spec fn best_at(entries: Map<Seq<u8>, u16>, rows: Seq<Seq<u8>>, word: Seq<u8>, g: int, gap: Gap) -> bool {
    &&& forall|h: Hit| #[trigger] hits(entries, rows, word, h) && gap_of(word, h) == g ==> value_of(entries, rows, word, h) <= gap.score
    &&& gap.score == 0 ==> gap.source is None
    &&& gap.score > 0 ==> exists|h: Hit| wins(entries, rows, word, g, gap, h)
}

/// What the patterns say of each gap of `word`, from the gap before its
/// first byte to the gap behind its last.
pub open spec fn gap_scores(entries: Map<Seq<u8>, u16>, rows: Seq<Seq<u8>>, word: Seq<u8>) -> Seq<Gap> {
    Seq::new((word.len() + 1) as nat, |g: int| choose|gap: Gap| best_at(entries, rows, word, g, gap))
}

/// Of one gap the patterns say one thing.
pub proof fn lemma_best_unique(entries: Map<Seq<u8>, u16>, rows: Seq<Seq<u8>>, word: Seq<u8>, g: int, a: Gap, b: Gap)
    requires
        best_at(entries, rows, word, g, a),
        best_at(entries, rows, word, g, b),
    ensures
        a == b,
{
    if a.score > 0 {
        let ha = choose|h: Hit| wins(entries, rows, word, g, a, h);
        assert(hits(entries, rows, word, ha));
        assert(b.score >= a.score);
        let hb = choose|h: Hit| wins(entries, rows, word, g, b, h);
        assert(hits(entries, rows, word, hb));
        assert(a.score == b.score);
        if ha.start == hb.start && ha.length == hb.length {
            assert(key_at(word, ha) == key_at(word, hb));
            assert(ha.slot == hb.slot);
        } else {
            assert(earlier(ha, hb) || earlier(hb, ha));
        }
    } else if b.score > 0 {
        let hb = choose|h: Hit| wins(entries, rows, word, g, b, h);
        assert(hits(entries, rows, word, hb));
    }
}

/// What has been made of the hits that come before `f`: no such hit gives a
/// gap more than `gaps` has for it, and what `gaps` has for a gap comes
/// from the hit in `wit`.
spec fn settled(entries: Map<Seq<u8>, u16>, rows: Seq<Seq<u8>>, word: Seq<u8>, gaps: Seq<Gap>, wit: Seq<Hit>, f: Hit) -> bool {
    &&& gaps.len() == word.len() + 1
    &&& wit.len() == gaps.len()
    &&& forall|h: Hit| #[trigger] hits(entries, rows, word, h) && earlier(h, f) && 0 <= gap_of(word, h) <= word.len()
            ==> value_of(entries, rows, word, h) <= gaps[gap_of(word, h)].score
    &&& forall|g: int| 0 <= g < gaps.len() && (#[trigger] gaps[g]).score == 0 ==> gaps[g].source is None
    &&& forall|g: int| 0 <= g < gaps.len() && (#[trigger] gaps[g]).score > 0 ==> wins(entries, rows, word, g, gaps[g], wit[g])
}

/// Where no hit on the word lies between `f1` and `f2`, what holds before
/// `f1` holds before `f2`.
proof fn lemma_move(entries: Map<Seq<u8>, u16>, rows: Seq<Seq<u8>>, word: Seq<u8>, gaps: Seq<Gap>, wit: Seq<Hit>, f1: Hit, f2: Hit)
    requires
        settled(entries, rows, word, gaps, wit, f1),
        forall|h: Hit| #[trigger] hits(entries, rows, word, h) && earlier(h, f2) && 0 <= gap_of(word, h) <= word.len() ==> earlier(h, f1),
    ensures
        settled(entries, rows, word, gaps, wit, f2),
{
}

/// Taking the hit `f` into account: its gap keeps what it has unless `f`
/// gives more.
proof fn lemma_take(entries: Map<Seq<u8>, u16>, rows: Seq<Seq<u8>>, word: Seq<u8>, gaps: Seq<Gap>, wit: Seq<Hit>, f: Hit)
    requires
        settled(entries, rows, word, gaps, wit, f),
        hits(entries, rows, word, f),
        0 <= gap_of(word, f) <= word.len(),
    ensures
        ({
            let g = gap_of(word, f);
            let v = value_of(entries, rows, word, f);
            let next = Hit { start: f.start, length: f.length, slot: f.slot + 1 };
            if v > gaps[g].score {
                settled(
                    entries,
                    rows,
                    word,
                    gaps.update(g, Gap { score: v, source: Some((entries[key_at(word, f)], f.slot as usize)) }),
                    wit.update(g, f),
                    next,
                )
            } else {
                settled(entries, rows, word, gaps, wit, next)
            }
        }),
{
    let g = gap_of(word, f);
    let v = value_of(entries, rows, word, f);
    let next = Hit { start: f.start, length: f.length, slot: f.slot + 1 };
    assert forall|h: Hit| earlier(h, next) implies earlier(h, f) || h == f by {}
    if v > gaps[g].score {
        let gaps2 = gaps.update(g, Gap { score: v, source: Some((entries[key_at(word, f)], f.slot as usize)) });
        let wit2 = wit.update(g, f);
        assert forall|h: Hit| #[trigger] hits(entries, rows, word, h) && earlier(h, next) && 0 <= gap_of(word, h) <= word.len()
            implies value_of(entries, rows, word, h) <= gaps2[gap_of(word, h)].score by {
            if h != f {
                assert(earlier(h, f));
            }
        }
        assert forall|g2: int| 0 <= g2 < gaps2.len() && (#[trigger] gaps2[g2]).score > 0
            implies wins(entries, rows, word, g2, gaps2[g2], wit2[g2]) by {
            if g2 != g {
                assert(gaps2[g2] == gaps[g2]);
                assert(wit2[g2] == wit[g2]);
            }
        }
    } else {
        assert forall|h: Hit| #[trigger] hits(entries, rows, word, h) && earlier(h, next) && 0 <= gap_of(word, h) <= word.len()
            implies value_of(entries, rows, word, h) <= gaps[gap_of(word, h)].score by {
            if h != f {
                assert(earlier(h, f));
            }
        }
    }
}

/// A hit that starts at `i` is among the keys found from `i` on.
proof fn lemma_hit_found(entries: Map<Seq<u8>, u16>, rows: Seq<Seq<u8>>, word: Seq<u8>, found: Seq<(usize, u16)>, i: int, h: Hit)
    requires
        0 <= i <= word.len() + 2,
        starts_of(entries, padded(word).subrange(i, word.len() as int + 2), found),
        hits(entries, rows, word, h),
        h.start == i,
    ensures
        exists|k: int| 0 <= k < found.len() && (#[trigger] found[k]).0 == h.length && found[k].1 == entries[key_at(word, h)],
{
    let query = padded(word).subrange(i, word.len() as int + 2);
    assert(query.take(h.length) == key_at(word, h));
    let k = choose|k: int| 0 <= k < found.len() && (#[trigger] found[k]).0 == h.length;
    assert(found[k].1 == entries[query.take(found[k].0 as int)]);
}

/// What the patterns say of each gap of `word`: for each gap the greatest of
/// the scores that the patterns found in the word give it, and where that
/// score first comes from.
pub fn score_gaps<T: Tally>(patterns: &Patterns<T>, word: &[u8]) -> (gaps: Vec<Gap>)
    ensures
        gaps@.len() == word@.len() + 1,
        forall|g: int| 0 <= g <= word@.len() ==> best_at(patterns.entries(), score_rows::<T>(patterns.rows()), word@, g, #[trigger] gaps@[g]),
        gaps@ == gap_scores(patterns.entries(), score_rows::<T>(patterns.rows()), word@),
{
    let ghost entries = patterns.entries();
    let ghost rows = score_rows::<T>(patterns.rows());
    let n = word.len();
    let mut text: Vec<u8> = Vec::new();
    text.push(BOUNDARY);
    let mut c: usize = 0;
    while c < n
        invariant
            c <= n,
            n == word@.len(),
            text@ == seq![BOUNDARY] + word@.take(c as int),
        decreases n - c,
    {
        text.push(word[c]);
        assert(word@.take(c + 1) == word@.take(c as int).push(word@[c as int]));
        c = c + 1;
    }
    text.push(BOUNDARY);
    assert(word@.take(n as int) == word@);
    assert(text@ == padded(word@));
    let m = text.len();
    let mut gaps: Vec<Gap> = Vec::new();
    let mut c: usize = 0;
    while c < m - 1
        invariant
            c <= m - 1,
            m == n + 2,
            gaps@.len() == c,
            forall|g: int| 0 <= g < c ==> (#[trigger] gaps@[g]).score == 0 && gaps@[g].source is None,
        decreases m - 1 - c,
    {
        gaps.push(Gap { score: 0, source: None });
        c = c + 1;
    }
    let ghost mut wit: Seq<Hit> = Seq::new((n + 1) as nat, |g: int| Hit { start: 0, length: 0, slot: 0 });
    let tallies = patterns.tallies();
    let mut i: usize = 0;
    while i < m
        invariant
            i <= m,
            m == n + 2,
            n == word@.len(),
            text@ == padded(word@),
            text.len() == m,
            entries == patterns.entries(),
            rows == score_rows::<T>(patterns.rows()),
            tallies@ == patterns.store(),
            settled(entries, rows, word@, gaps@, wit, Hit { start: i as int, length: 0, slot: 0 }),
        decreases m - i,
    {
        let found = patterns.starts(slice_subrange(text.as_slice(), i, m));
        let ghost far = m - i + 1;
        proof {
            let f1 = Hit { start: i as int, length: 0, slot: 0 };
            let bound = if found.len() > 0 { found[0].0 as int } else { far };
            let f2 = Hit { start: i as int, length: bound, slot: 0 };
            assert forall|h: Hit| #[trigger] hits(entries, rows, word@, h) && earlier(h, f2) && 0 <= gap_of(word@, h) <= word@.len()
                implies earlier(h, f1) by {
                if h.start == i {
                    lemma_hit_found(entries, rows, word@, found@, i as int, h);
                }
            }
            lemma_move(entries, rows, word@, gaps@, wit, f1, f2);
        }
        let mut k: usize = 0;
        while k < found.len()
            invariant
                k <= found.len(),
                i < m,
                m == n + 2,
                n == word@.len(),
                text@ == padded(word@),
                text.len() == m,
                far == m - i + 1,
                entries == patterns.entries(),
                rows == score_rows::<T>(patterns.rows()),
                tallies@ == patterns.store(),
                starts_of(entries, padded(word@).subrange(i as int, m as int), found@),
                settled(
                    entries,
                    rows,
                    word@,
                    gaps@,
                    wit,
                    Hit { start: i as int, length: if k < found.len() { found[k as int].0 as int } else { far }, slot: 0 },
                ),
            decreases found.len() - k,
        {
            let length = found[k].0;
            let id = found[k].1;
            let ghost key = padded(word@).subrange(i as int, i + length);
            let ghost after = if k + 1 < found.len() { found[k + 1].0 as int } else { far };
            let ghost mut reached: int = 0;
            proof {
                assert(padded(word@).subrange(i as int, m as int).take(length as int) == key);
                assert(entries.contains_key(key) && entries[key] == id);
            }
            if (id as usize) < tallies.len() {
                let tally = &tallies[id as usize];
                let count = tally.gaps();
                let first: usize = if length > 0 && text[i] == BOUNDARY { 1 } else { 0 };
                let base = i + first;
                proof {
                    assert(rows[id as int] == T::scores(tallies@[id as int]@));
                    assert(length > 0 ==> key[0] == text@[i as int]);
                    assert(first == lead(key));
                }
                if base <= m - 1 {
                    let limit = m - 1 - base;
                    let mut slot: usize = if base == 0 { 1 } else { 0 };
                    proof {
                        let f1 = Hit { start: i as int, length: length as int, slot: 0 };
                        let f2 = Hit { start: i as int, length: length as int, slot: slot as int };
                        assert forall|h: Hit| #[trigger] hits(entries, rows, word@, h) && earlier(h, f2) && 0 <= gap_of(word@, h) <= word@.len()
                            implies earlier(h, f1) by {
                            if h.start == i && h.length == length {
                                assert(key_at(word@, h) == key);
                            }
                        }
                        lemma_move(entries, rows, word@, gaps@, wit, f1, f2);
                    }
                    while slot < count && slot <= limit
                        invariant
                            i < m,
                            m == n + 2,
                            n == word@.len(),
                            base == i + first,
                            first == lead(key),
                            base <= m - 1,
                            limit == m - 1 - base,
                            base + slot >= 1,
                            key == padded(word@).subrange(i as int, i + length),
                            i + length <= m,
                            entries.contains_key(key),
                            entries[key] == id,
                            id < rows.len(),
                            rows[id as int] == T::scores(tally@),
                            count == rows[id as int].len(),
                            settled(entries, rows, word@, gaps@, wit, Hit { start: i as int, length: length as int, slot: slot as int }),
                        decreases count - slot,
                    {
                        let g = base + slot - 1;
                        let v = tally.score(slot);
                        proof {
                            let f = Hit { start: i as int, length: length as int, slot: slot as int };
                            assert(key_at(word@, f) == key);
                            assert(hits(entries, rows, word@, f));
                            assert(gap_of(word@, f) == g);
                            lemma_take(entries, rows, word@, gaps@, wit, f);
                        }
                        if v > gaps[g].score {
                            gaps.set(g, Gap { score: v, source: Some((id, slot)) });
                            proof {
                                wit = wit.update(g as int, Hit { start: i as int, length: length as int, slot: slot as int });
                            }
                        }
                        slot = slot + 1;
                    }
                    proof {
                        reached = slot as int;
                    }
                }
            }
            proof {
                let f1 = Hit { start: i as int, length: length as int, slot: reached };
                let f2 = Hit { start: i as int, length: after, slot: 0 };
                assert forall|h: Hit| #[trigger] hits(entries, rows, word@, h) && earlier(h, f2) && 0 <= gap_of(word@, h) <= word@.len()
                    implies earlier(h, f1) by {
                    if h.start == i {
                        lemma_hit_found(entries, rows, word@, found@, i as int, h);
                        if h.length == length {
                            assert(key_at(word@, h) == key);
                        }
                    }
                }
                lemma_move(entries, rows, word@, gaps@, wit, f1, f2);
            }
            k = k + 1;
        }
        proof {
            let f1 = Hit { start: i as int, length: far, slot: 0 };
            let f2 = Hit { start: i + 1, length: 0, slot: 0 };
            lemma_move(entries, rows, word@, gaps@, wit, f1, f2);
        }
        i = i + 1;
    }
    proof {
        assert forall|g: int| 0 <= g <= word@.len() implies best_at(entries, rows, word@, g, #[trigger] gaps@[g]) by {
            assert forall|h: Hit| #[trigger] hits(entries, rows, word@, h) && gap_of(word@, h) == g
                implies value_of(entries, rows, word@, h) <= gaps@[g].score by {
                assert(earlier(h, Hit { start: m as int, length: 0, slot: 0 }));
            }
            if gaps@[g].score > 0 {
                assert(wins(entries, rows, word@, g, gaps@[g], wit[g]));
            }
        }
        let expected = gap_scores(entries, rows, word@);
        assert forall|g: int| 0 <= g <= word@.len() implies gaps@[g] == expected[g] by {
            let chosen = choose|gap: Gap| best_at(entries, rows, word@, g, gap);
            assert(best_at(entries, rows, word@, g, gaps@[g]));
            lemma_best_unique(entries, rows, word@, g, gaps@[g], chosen);
        }
        assert(gaps@ =~= expected);
    }
    gaps
}

} // verus!
