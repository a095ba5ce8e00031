use vstd::prelude::*;
use vstd::utf8::*;
use crate::case_folding::{fold, prepare, realign, realigned, shifts_of, Shift};
use crate::exceptions::Exceptions;
use crate::hyphenator::{breaks_within, legal_gaps, soft_hyphen_indices, soft_hyphens, window, Hyphenator, Word};
use crate::patterns::Patterns;
use crate::score::{gap_scores, score_gaps, score_rows, Gap};
use crate::tally::{ExtendedTally, Subregion};

verus! {

/// A dictionary for extended Knuth–Liang hyphenation: a break may ask for a
/// change of spelling, which it then carries.
pub struct Extended {
    pub language: String,
    pub patterns: Patterns<ExtendedTally>,
    pub exceptions: Exceptions<(usize, Option<Subregion>)>,
    pub minima: (usize, usize),
}

/// The change of spelling of a known break, if it has one.
pub open spec fn lent<'h>(region: Option<Subregion>) -> Option<&'h Subregion> {
    match region {
        Some(region) => Some(&region),
        None => None,
    }
}

/// The known breaks `breaks` that lie within the bounds, each with its
/// change of spelling.
pub open spec fn kept_exact<'h>(breaks: Seq<(usize, Option<Subregion>)>, bounds: (usize, usize)) -> Seq<(usize, Option<&'h Subregion>)> {
    breaks.filter(|known: (usize, Option<Subregion>)| bounds.0 <= known.0 <= bounds.1).map_values(
        |known: (usize, Option<Subregion>)| (known.0, lent(known.1)),
    )
}

/// The breaks `breaks` of the folded word, each with its byte offset led
/// back to the original.
pub open spec fn realigned_each<'h>(breaks: Seq<(usize, Option<&'h Subregion>)>, shifts: Seq<Shift>) -> Seq<(usize, Option<&'h Subregion>)> {
    breaks.map_values(|found: (usize, Option<&'h Subregion>)| (realigned(found.0 as int, shifts) as usize, found.1))
}

/// The breaks without those at the byte offset of the one before them.
pub open spec fn fresh_each<'h>(breaks: Seq<(usize, Option<&'h Subregion>)>) -> Seq<(usize, Option<&'h Subregion>)>
    decreases breaks.len(),
{
    if breaks.len() == 0 {
        breaks
    } else if breaks.len() >= 2 && breaks[breaks.len() - 2].0 == breaks.last().0 {
        fresh_each(breaks.drop_last())
    } else {
        fresh_each(breaks.drop_last()).push(breaks.last())
    }
}

/// The breaks of the folded word led back to the original, without those
/// that come to the byte offset of the one before them.
pub open spec fn led_back_each<'h>(breaks: Seq<(usize, Option<&'h Subregion>)>, shifts: Seq<Shift>) -> Seq<(usize, Option<&'h Subregion>)> {
    fresh_each(realigned_each(breaks, shifts))
}

/// Breaks at the byte offsets `marks`, without a change of spelling.
pub open spec fn plain<'h>(marks: Seq<usize>) -> Seq<(usize, Option<&'h Subregion>)> {
    marks.map_values(|at: usize| (at, None::<&'h Subregion>))
}

/// A copy of known breaks.
pub fn copy_exact(breaks: &Vec<(usize, Option<Subregion>)>) -> (copy: Vec<(usize, Option<Subregion>)>)
    ensures
        copy@ == breaks@,
{
    let mut copy: Vec<(usize, Option<Subregion>)> = Vec::new();
    let mut k: usize = 0;
    while k < breaks.len()
        invariant
            k <= breaks.len(),
            copy@ == breaks@.take(k as int),
        decreases breaks.len() - k,
    {
        let region = match &breaks[k].1 {
            Some(region) => Some(region.duplicate()),
            None => None,
        };
        copy.push((breaks[k].0, region));
        assert(breaks@.take(k + 1) == breaks@.take(k as int).push(breaks@[k as int]));
        k = k + 1;
    }
    assert(breaks@.take(k as int) == breaks@);
    copy
}

impl Extended {
    /// What the patterns say of each gap of `word`.
    pub open spec fn gaps(&self, word: Seq<char>) -> Seq<Gap> {
        gap_scores(self.patterns.entries(), score_rows::<ExtendedTally>(self.patterns.rows()), encode_utf8(word))
    }

    /// The change of spelling that goes with a break at a gap: the one that
    /// the tally, from which the gap has its score, has for that place.
    pub open spec fn region_of<'h>(&'h self, gap: Gap) -> Option<&'h Subregion> {
        match gap.source {
            Some((id, slot)) => if id < self.patterns.store().len() {
                match self.patterns.store()[id as int].subregion {
                    Some((at, region)) => if at == slot {
                        Some(&region)
                    } else {
                        None
                    },
                    None => None,
                }
            } else {
                None
            },
            None => None,
        }
    }

    /// The breaks of a lowercase word: none where the word is too short,
    /// else those known for it or, where none are known, those that the
    /// patterns find.
    pub open spec fn found<'h>(&'h self, word: Seq<char>) -> Seq<(usize, Option<&'h Subregion>)> {
        match window(word, self.minima) {
            None => Seq::empty(),
            Some(bounds) => match self.known_within(word, bounds) {
                Some(known) => known,
                None => self.found_within(word, bounds),
            },
        }
    }

    /// What the patterns say of each gap of `word`: the score and where it
    /// comes from.
    pub fn score(&self, word: &str) -> (gaps: Vec<Gap>)
        ensures
            gaps@ == self.gaps(word@),
            gaps@.len() == encode_utf8(word@).len() + 1,
    {
        score_gaps(&self.patterns, word.as_bytes())
    }

    /// The change of spelling that goes with a break at a gap.
    pub fn region<'h>(&'h self, gap: &Gap) -> (region: Option<&'h Subregion>)
        ensures
            region == self.region_of(*gap),
    {
        match gap.source {
            Some((id, slot)) => {
                let tallies = self.patterns.tallies();
                if (id as usize) < tallies.len() {
                    match &tallies[id as usize].subregion {
                        Some((at, region)) => if *at == slot {
                            Some(region)
                        } else {
                            None
                        },
                        None => None,
                    }
                } else {
                    None
                }
            },
            None => None,
        }
    }
}

impl<'h> Hyphenator<'h> for Extended {
    type Opportunity = (usize, Option<&'h Subregion>);

    type Exact = (usize, Option<Subregion>);

    open spec fn place(op: (usize, Option<&'h Subregion>)) -> usize {
        op.0
    }

    open spec fn minima(&self) -> (usize, usize) {
        self.minima
    }

    open spec fn known(&self, word: Seq<char>) -> Option<Seq<(usize, Option<Subregion>)>> {
        if self.exceptions@.contains_key(word) {
            Some(self.exceptions@[word])
        } else {
            None
        }
    }

    open spec fn known_within(&self, word: Seq<char>, bounds: (usize, usize)) -> Option<Seq<(usize, Option<&'h Subregion>)>> {
        match self.known(word) {
            Some(breaks) => Some(kept_exact(breaks, bounds)),
            None => None,
        }
    }

    open spec fn found_within(&self, word: Seq<char>, bounds: (usize, usize)) -> Seq<(usize, Option<&'h Subregion>)> {
        legal_gaps(self.gaps(word), encode_utf8(word), bounds).map_values(
            |g: int| (g as usize, self.region_of(self.gaps(word)[g])),
        )
    }

    open spec fn hyphenated(&self, word: Seq<char>) -> Seq<(usize, Option<&'h Subregion>)> {
        if soft_hyphens(word).len() > 0 {
            plain(soft_hyphens(word))
        } else if shifts_of(word).len() == 0 {
            self.found(fold(word))
        } else {
            led_back_each(self.found(fold(word)), shifts_of(word))
        }
    }

    fn hyphenate<'t>(&'h self, word: &'t str) -> (hyphenated: Word<'t, (usize, Option<&'h Subregion>)>) {
        let mut breaks: Vec<(usize, Option<&'h Subregion>)> = Vec::new();
        match soft_hyphen_indices(word) {
            Some(shys) => {
                let mut k: usize = 0;
                while k < shys.len()
                    invariant
                        k <= shys.len(),
                        breaks@ == plain::<'h>(shys@.take(k as int)),
                    decreases shys.len() - k,
                {
                    proof {
                        assert(shys@.take(k + 1) == shys@.take(k as int).push(shys@[k as int]));
                        shys@.take(k as int).lemma_push_map_commute(|at: usize| (at, None::<&'h Subregion>), shys@[k as int]);
                    }
                    breaks.push((shys[k], None));
                    k = k + 1;
                }
                proof {
                    assert(shys@.take(k as int) == shys@);
                }
            },
            None => {
                let prepared = prepare(word);
                let found = self.opportunities(prepared.word.as_str());
                if prepared.shifts.len() > 0 {
                    let mut before: Option<usize> = None;
                    let mut k: usize = 0;
                    while k < found.len()
                        invariant
                            k <= found.len(),
                            breaks@ == led_back_each(found@.take(k as int), prepared.shifts@),
                            match before {
                                Some(at) => k > 0 && at == realigned_each(found@.take(k as int), prepared.shifts@).last().0,
                                None => k == 0,
                            },
                        decreases found.len() - k,
                    {
                        let at = realign(found[k].0, prepared.shifts.as_slice());
                        proof {
                            let so_far = realigned_each(found@.take(k as int), prepared.shifts@);
                            assert(found@.take(k + 1) == found@.take(k as int).push(found@[k as int]));
                            found@.take(k as int).lemma_push_map_commute(
                                |found: (usize, Option<&'h Subregion>)| (realigned(found.0 as int, prepared.shifts@) as usize, found.1),
                                found@[k as int],
                            );
                            let now = realigned_each(found@.take(k + 1), prepared.shifts@);
                            assert(now == so_far.push((at, found@[k as int].1)));
                            assert(now.drop_last() == so_far);
                            if k > 0 {
                                assert(now[now.len() - 2] == so_far.last());
                            }
                        }
                        let repeats = match before {
                            Some(last) => last == at,
                            None => false,
                        };
                        if !repeats {
                            breaks.push((at, found[k].1));
                        }
                        before = Some(at);
                        k = k + 1;
                    }
                    proof {
                        assert(found@.take(k as int) == found@);
                    }
                } else {
                    breaks = found;
                }
            },
        }
        Word { text: word, breaks }
    }

    fn opportunities_within(&'h self, lowercase_word: &str, bounds: (usize, usize)) -> (found: Vec<(usize, Option<&'h Subregion>)>) {
        let gaps = self.score(lowercase_word);
        let places = breaks_within(&gaps, lowercase_word, bounds);
        let ghost legal = legal_gaps(gaps@, encode_utf8(lowercase_word@), bounds);
        let ghost with_region = |g: int| (g as usize, self.region_of(gaps@[g]));
        let mut found: Vec<(usize, Option<&'h Subregion>)> = Vec::new();
        let mut k: usize = 0;
        proof {
            crate::hyphenator::lemma_legal_in(gaps@, encode_utf8(lowercase_word@), bounds, gaps@.len() as int);
            assert forall|j: int| 0 <= j < legal.len() implies bounds.0 <= #[trigger] legal[j] <= bounds.1 by {
                assert(crate::hyphenator::legal(gaps@, encode_utf8(lowercase_word@), bounds, legal[j]));
            }
        }
        while k < places.len()
            invariant
                k <= places.len(),
                gaps@ == self.gaps(lowercase_word@),
                places@.map_values(|g: usize| g as int) == legal,
                forall|j: int| 0 <= j < legal.len() ==> 0 <= #[trigger] legal[j] < gaps@.len(),
                with_region == |g: int| (g as usize, self.region_of(gaps@[g])),
                found@ == legal.take(k as int).map_values(with_region),
                forall|j: int| 0 <= j < legal.len() ==> bounds.0 <= #[trigger] legal[j] <= bounds.1,
                forall|i: int| 0 <= i < found@.len() ==> bounds.0 <= (#[trigger] found@[i]).0 <= bounds.1,
            decreases places.len() - k,
        {
            proof {
                assert(places@.map_values(|g: usize| g as int)[k as int] == legal[k as int]);
                assert(legal.take(k + 1) == legal.take(k as int).push(legal[k as int]));
                legal.take(k as int).lemma_push_map_commute(with_region, legal[k as int]);
            }
            let at = places[k];
            found.push((at, self.region(&gaps[at])));
            k = k + 1;
        }
        proof {
            assert(legal.take(k as int) == legal);
        }
        found
    }

    fn exact_within(&'h self, lowercase_word: &str, bounds: (usize, usize)) -> (known: Option<Vec<(usize, Option<&'h Subregion>)>>) {
        match self.exceptions.get(lowercase_word) {
            Some(breaks) => {
                let ghost within = |known: (usize, Option<Subregion>)| bounds.0 <= known.0 <= bounds.1;
                let ghost lend = |known: (usize, Option<Subregion>)| (known.0, lent::<'h>(known.1));
                let mut kept: Vec<(usize, Option<&'h Subregion>)> = Vec::new();
                let mut k: usize = 0;
                while k < breaks.len()
                    invariant
                        k <= breaks.len(),
                        within == |known: (usize, Option<Subregion>)| bounds.0 <= known.0 <= bounds.1,
                        lend == |known: (usize, Option<Subregion>)| (known.0, lent::<'h>(known.1)),
                        kept@ == breaks@.take(k as int).filter(within).map_values(lend),
                        forall|i: int| 0 <= i < kept@.len() ==> bounds.0 <= (#[trigger] kept@[i]).0 <= bounds.1,
                    decreases breaks.len() - k,
                {
                    proof {
                        assert(breaks@.take(k + 1) == breaks@.take(k as int).push(breaks@[k as int]));
                        breaks@.take(k as int).lemma_filter_push(breaks@[k as int], within);
                        breaks@.take(k as int).filter(within).lemma_push_map_commute(lend, breaks@[k as int]);
                    }
                    if breaks[k].0 >= bounds.0 && breaks[k].0 <= bounds.1 {
                        let region: Option<&'h Subregion> = match &breaks[k].1 {
                            Some(region) => Some(region),
                            None => None,
                        };
                        kept.push((breaks[k].0, region));
                    }
                    k = k + 1;
                }
                proof {
                    assert(breaks@.take(k as int) == breaks@);
                }
                Some(kept)
            },
            None => None,
        }
    }

    fn add_exact(&mut self, word: String, ops: Vec<(usize, Option<Subregion>)>) -> (previous: Option<Vec<(usize, Option<Subregion>)>>)
        ensures
            final(self).language == old(self).language,
            final(self).patterns == old(self).patterns,
            final(self).minima == old(self).minima,
    {
        let previous = match self.exceptions.get(word.as_str()) {
            Some(breaks) => Some(copy_exact(breaks)),
            None => None,
        };
        self.exceptions.set(word, ops);
        previous
    }

    fn unbreakable_chars(&self) -> (minima: (usize, usize)) {
        self.minima
    }
}

} // verus!
