use vstd::prelude::*;
use vstd::utf8::*;
use crate::case_folding::{fold, prepare, realign, realigned, shifts_of, Shift};
use crate::exceptions::Exceptions;
use crate::hyphenator::{breaks_within, legal_gaps, soft_hyphen_indices, soft_hyphens, window, Hyphenator, Word};
use crate::patterns::Patterns;
use crate::score::{gap_scores, score_gaps, score_rows, Gap};

verus! {

/// A dictionary for standard Knuth–Liang hyphenation: its breaks are byte
/// offsets.
pub struct Standard {
    pub language: String,
    pub patterns: Patterns<Vec<u8>>,
    pub exceptions: Exceptions<usize>,
    pub minima: (usize, usize),
}

/// The byte offsets of `breaks` that lie within the bounds.
pub open spec fn kept(breaks: Seq<usize>, bounds: (usize, usize)) -> Seq<usize> {
    breaks.filter(|at: usize| bounds.0 <= at <= bounds.1)
}

/// The byte offsets in the original that the byte offsets `breaks` of the
/// folded word stand for.
pub open spec fn realigned_all(breaks: Seq<usize>, shifts: Seq<Shift>) -> Seq<usize> {
    breaks.map_values(|at: usize| realigned(at as int, shifts) as usize)
}

/// The offsets of `breaks` within the bounds, in order.
pub fn keep_within(breaks: &Vec<usize>, bounds: (usize, usize)) -> (within: Vec<usize>)
    ensures
        within@ == kept(breaks@, bounds),
        forall|i: int| 0 <= i < within@.len() ==> bounds.0 <= #[trigger] within@[i] <= bounds.1,
{
    let mut within: Vec<usize> = Vec::new();
    let mut k: usize = 0;
    while k < breaks.len()
        invariant
            k <= breaks.len(),
            within@ == kept(breaks@.take(k as int), bounds),
            forall|i: int| 0 <= i < within@.len() ==> bounds.0 <= #[trigger] within@[i] <= bounds.1,
        decreases breaks.len() - k,
    {
        proof {
            assert(breaks@.take(k + 1) == breaks@.take(k as int).push(breaks@[k as int]));
            breaks@.take(k as int).lemma_filter_push(breaks@[k as int], |at: usize| bounds.0 <= at <= bounds.1);
        }
        if breaks[k] >= bounds.0 && breaks[k] <= bounds.1 {
            within.push(breaks[k]);
        }
        k = k + 1;
    }
    proof {
        assert(breaks@.take(k as int) == breaks@);
    }
    within
}

/// The byte offsets without those that repeat the one before them.
pub open spec fn fresh(at: Seq<usize>) -> Seq<usize>
    decreases at.len(),
{
    if at.len() == 0 {
        at
    } else if at.len() >= 2 && at[at.len() - 2] == at.last() {
        fresh(at.drop_last())
    } else {
        fresh(at.drop_last()).push(at.last())
    }
}

/// The byte offsets in the original that the breaks of the folded word
/// lead back to, each once.
pub open spec fn led_back(breaks: Seq<usize>, shifts: Seq<Shift>) -> Seq<usize> {
    fresh(realigned_all(breaks, shifts))
}

/// Leads the breaks of the folded word back through the shifts and leaves
/// out a break that comes to the same byte offset as the one before it.
pub fn lead_back(breaks: &Vec<usize>, shifts: &Vec<Shift>) -> (original: Vec<usize>)
    ensures
        original@ == led_back(breaks@, shifts@),
{
    let mut original: Vec<usize> = Vec::new();
    let mut before: Option<usize> = None;
    let mut k: usize = 0;
    while k < breaks.len()
        invariant
            k <= breaks.len(),
            original@ == led_back(breaks@.take(k as int), shifts@),
            match before {
                Some(at) => k > 0 && at == realigned_all(breaks@.take(k as int), shifts@).last(),
                None => k == 0,
            },
        decreases breaks.len() - k,
    {
        let at = realign(breaks[k], shifts.as_slice());
        proof {
            let so_far = realigned_all(breaks@.take(k as int), shifts@);
            assert(breaks@.take(k + 1) == breaks@.take(k as int).push(breaks@[k as int]));
            breaks@.take(k as int).lemma_push_map_commute(|at: usize| realigned(at as int, shifts@) as usize, breaks@[k as int]);
            let now = realigned_all(breaks@.take(k + 1), shifts@);
            assert(now == so_far.push(at));
            assert(now.drop_last() == so_far);
            if k > 0 {
                assert(now[now.len() - 2] == so_far.last());
            }
        }
        let repeats = match before {
            Some(last) => last == at,
            None => false,
        };
        if !repeats {
            original.push(at);
        }
        before = Some(at);
        k = k + 1;
    }
    proof {
        assert(breaks@.take(k as int) == breaks@);
    }
    original
}

impl Standard {
    /// What the patterns say of each gap of `word`.
    pub open spec fn gaps(&self, word: Seq<char>) -> Seq<Gap> {
        gap_scores(self.patterns.entries(), score_rows::<Vec<u8>>(self.patterns.rows()), encode_utf8(word))
    }

    /// The breaks of a lowercase word: none where the word is too short,
    /// else those known for it or, where none are known, those that the
    /// patterns find.
    pub open spec fn found(&self, word: Seq<char>) -> Seq<usize> {
        match window(word, self.minima) {
            None => Seq::empty(),
            Some(bounds) => match self.known_within(word, bounds) {
                Some(known) => known,
                None => self.found_within(word, bounds),
            },
        }
    }

    /// What the patterns say of each gap of `word`: the score and where it
    /// comes from.
    pub fn score(&self, word: &str) -> (gaps: Vec<Gap>)
        ensures
            gaps@ == self.gaps(word@),
            gaps@.len() == encode_utf8(word@).len() + 1,
    {
        score_gaps(&self.patterns, word.as_bytes())
    }
}

impl<'h> Hyphenator<'h> for Standard {
    type Opportunity = usize;

    type Exact = usize;

    open spec fn place(op: usize) -> usize {
        op
    }

    open spec fn minima(&self) -> (usize, usize) {
        self.minima
    }

    open spec fn known(&self, word: Seq<char>) -> Option<Seq<usize>> {
        if self.exceptions@.contains_key(word) {
            Some(self.exceptions@[word])
        } else {
            None
        }
    }

    open spec fn known_within(&self, word: Seq<char>, bounds: (usize, usize)) -> Option<Seq<usize>> {
        match self.known(word) {
            Some(breaks) => Some(kept(breaks, bounds)),
            None => None,
        }
    }

    open spec fn found_within(&self, word: Seq<char>, bounds: (usize, usize)) -> Seq<usize> {
        legal_gaps(self.gaps(word), encode_utf8(word), bounds).map_values(|g: int| g as usize)
    }

    open spec fn hyphenated(&self, word: Seq<char>) -> Seq<usize> {
        if soft_hyphens(word).len() > 0 {
            soft_hyphens(word)
        } else if shifts_of(word).len() == 0 {
            self.found(fold(word))
        } else {
            led_back(self.found(fold(word)), shifts_of(word))
        }
    }

    fn hyphenate<'t>(&'h self, word: &'t str) -> (hyphenated: Word<'t, usize>) {
        let breaks = match soft_hyphen_indices(word) {
            Some(shys) => shys,
            None => {
                let prepared = prepare(word);
                let found = self.opportunities(prepared.word.as_str());
                if prepared.shifts.len() > 0 {
                    lead_back(&found, &prepared.shifts)
                } else {
                    found
                }
            },
        };
        Word { text: word, breaks }
    }

    fn opportunities_within(&'h self, lowercase_word: &str, bounds: (usize, usize)) -> (found: Vec<usize>) {
        let gaps = self.score(lowercase_word);
        let found = breaks_within(&gaps, lowercase_word, bounds);
        proof {
            let legal = legal_gaps(gaps@, encode_utf8(lowercase_word@), bounds);
            assert(found@.map_values(|g: usize| g as int) == legal);
            assert(found@.len() == legal.len());
            assert forall|k: int| 0 <= k < found@.len() implies found@[k] == legal.map_values(|g: int| g as usize)[k] by {
                assert(found@.map_values(|g: usize| g as int)[k] == legal[k]);
            }
            assert(found@ =~= legal.map_values(|g: int| g as usize));
            crate::hyphenator::lemma_legal_in(gaps@, encode_utf8(lowercase_word@), bounds, gaps@.len() as int);
            assert forall|i: int| 0 <= i < found@.len() implies bounds.0 <= #[trigger] found@[i] <= bounds.1 by {
                assert(crate::hyphenator::legal(gaps@, encode_utf8(lowercase_word@), bounds, legal[i]));
            }
        }
        found
    }

    fn exact_within(&'h self, lowercase_word: &str, bounds: (usize, usize)) -> (known: Option<Vec<usize>>) {
        match self.exceptions.get(lowercase_word) {
            Some(breaks) => Some(keep_within(breaks, bounds)),
            None => None,
        }
    }

    fn add_exact(&mut self, word: String, ops: Vec<usize>) -> (previous: Option<Vec<usize>>)
        ensures
            final(self).language == old(self).language,
            final(self).patterns == old(self).patterns,
            final(self).minima == old(self).minima,
    {
        let previous = match self.exceptions.get(word.as_str()) {
            Some(breaks) => {
                let copy = breaks.clone();
                assert(copy@ =~= breaks@);
                Some(copy)
            },
            None => None,
        };
        self.exceptions.set(word, ops);
        previous
    }

    fn unbreakable_chars(&self) -> (minima: (usize, usize)) {
        self.minima
    }
}

} // verus!
