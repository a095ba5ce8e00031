use vstd::prelude::*;
use vstd::std_specs::iter::IteratorSpec;
use vstd::utf8::*;
use crate::score::{Gap, BOUNDARY};
use crate::text::{lemma_offset_bound, lemma_offset_step, offset_at, offset_of, span, utf8_width, SOFT_HYPHEN};

verus! {

/// A hyphenated word: the text, as it was given, and its breaks.
#[derive(Clone, Debug, PartialEq, Eq, Hash)]
pub struct Word<'t, Break> {
    pub text: &'t str,
    pub breaks: Vec<Break>,
}

/// The indices of the first `n` characters.
pub open spec fn indices(n: int) -> Seq<int> {
    Seq::new(n as nat, |k: int| k)
}

/// The byte offsets of the soft hyphens among the first `n` characters of
/// `chars`, in order.
pub open spec fn soft_hyphens_in(chars: Seq<char>, n: int) -> Seq<usize> {
    indices(n).filter(|k: int| chars[k] == SOFT_HYPHEN).map_values(|k: int| offset_of(chars, k) as usize)
}

/// The byte offsets of the soft hyphens of `chars`, in order.
pub open spec fn soft_hyphens(chars: Seq<char>) -> Seq<usize> {
    soft_hyphens_in(chars, chars.len() as int)
}

/// One character further, the soft hyphens are those found so far and, if
/// that character is one, its offset.
pub proof fn lemma_soft_hyphens_step(chars: Seq<char>, n: int)
    requires
        0 <= n < chars.len(),
    ensures
        soft_hyphens_in(chars, n + 1) == if chars[n] == SOFT_HYPHEN {
            soft_hyphens_in(chars, n).push(offset_of(chars, n) as usize)
        } else {
            soft_hyphens_in(chars, n)
        },
{
    let is_soft = |k: int| chars[k] == SOFT_HYPHEN;
    let place = |k: int| offset_of(chars, k) as usize;
    assert(indices(n + 1) == indices(n).push(n));
    indices(n).lemma_filter_push(n, is_soft);
    if chars[n] == SOFT_HYPHEN {
        indices(n).filter(is_soft).lemma_push_map_commute(place, n);
    }
}

/// The indices of soft hyphens (U+00AD) within the string, if any. Existing
/// soft hyphens indicate a preferred hyphenation, which can be used without
/// resorting to best-effort hyphenation.
pub fn soft_hyphen_indices(word: &str) -> (found: Option<Vec<usize>>)
    ensures
        match found {
            Some(indices) => indices@ == soft_hyphens(word@) && indices@.len() > 0,
            None => soft_hyphens(word@).len() == 0,
        },
{
    let mut shys: Vec<usize> = Vec::new();
    let total = word.as_bytes().len();
    let mut at: usize = 0;
    let ghost mut seen: int = 0;
    let mut it = word.chars();
    loop
        invariant
            0 <= seen <= word@.len(),
            it.remaining() == word@.skip(seen),
            it.obeys_prophetic_iter_laws(),
            total == span(word@),
            at == offset_of(word@, seen),
            shys@ == soft_hyphens_in(word@, seen),
        decreases word@.len() - seen,
    {
        let next = it.next();
        match next {
            None => {
                if shys.len() > 0 {
                    return Some(shys);
                } else {
                    return None;
                }
            },
            Some(c) => {
                proof {
                    lemma_soft_hyphens_step(word@, seen);
                    lemma_offset_step(word@, seen);
                    lemma_offset_bound(word@, seen + 1);
                }
                if c == SOFT_HYPHEN {
                    shys.push(at);
                }
                at = at + utf8_width(c);
                proof {
                    seen = seen + 1;
                }
            },
        }
    }
}

/// The number of characters of `word`.
pub fn char_count(word: &str) -> (n: usize)
    ensures
        n == word@.len(),
{
    let total = word.as_bytes().len();
    let mut n: usize = 0;
    let mut it = word.chars();
    loop
        invariant
            n <= word@.len(),
            it.remaining() == word@.skip(n as int),
            it.obeys_prophetic_iter_laws(),
            total == span(word@),
            n <= offset_of(word@, n as int),
        decreases word@.len() - n,
    {
        let next = it.next();
        match next {
            None => {
                return n;
            },
            Some(c) => {
                proof {
                    lemma_offset_step(word@, n as int);
                    lemma_offset_bound(word@, n + 1);
                }
                n = n + 1;
            },
        }
    }
}

/// The byte offsets between which a word with the characters `chars` may
/// break, where `minima.0` characters from its start and `minima.1` from
/// its end must stay together: the offset behind the first `minima.0`
/// characters and the offset before the last `minima.1`. A word with fewer
/// characters than both together has none.
pub open spec fn window(chars: Seq<char>, minima: (usize, usize)) -> Option<(usize, usize)> {
    if chars.len() >= minima.0 + minima.1 {
        Some((offset_of(chars, minima.0 as int) as usize, offset_of(chars, chars.len() - minima.1) as usize))
    } else {
        None
    }
}

/// The byte offsets between which `word` may break; see `window`.
pub fn window_of(word: &str, minima: (usize, usize)) -> (bounds: Option<(usize, usize)>)
    ensures
        bounds == window(word@, minima),
{
    let total = char_count(word);
    if minima.0 > total || minima.1 > total - minima.0 {
        None
    } else {
        Some((offset_at(word, minima.0), offset_at(word, total - minima.1)))
    }
}

/// Whether a score speaks for a break: the odd ones do.
pub fn denotes_opportunity(score: u8) -> (odd: bool)
    ensures
        odd == (score % 2 == 1),
{
    score % 2 != 0
}

/// The word has a byte that is no boundary mark.
pub open spec fn lettered(bytes: Seq<u8>) -> bool {
    exists|k: int| 0 <= k < bytes.len() && #[trigger] bytes[k] != BOUNDARY
}

/// Whether the word has a byte that is no boundary mark.
pub fn has_letter(bytes: &[u8]) -> (found: bool)
    ensures
        found == lettered(bytes@),
{
    let mut k: usize = 0;
    while k < bytes.len()
        invariant
            k <= bytes.len(),
            forall|j: int| 0 <= j < k ==> #[trigger] bytes@[j] == BOUNDARY,
        decreases bytes.len() - k,
    {
        if bytes[k] != BOUNDARY {
            return true;
        }
        k = k + 1;
    }
    false
}

/// The word may break at the gap of index `g`: the word has a letter (an
/// empty word, and one of boundary marks alone, breaks nowhere), the gap's
/// score is odd, the gap lies within the bounds, and a character starts or
/// the word ends there.
pub open spec fn legal(gaps: Seq<Gap>, bytes: Seq<u8>, bounds: (usize, usize), g: int) -> bool {
    &&& lettered(bytes)
    &&& gaps[g].score % 2 == 1
    &&& bounds.0 <= g <= bounds.1
    &&& is_char_boundary(bytes, g)
}

/// The gaps among the first `n` at which the word may break, in order.
pub open spec fn legal_in(gaps: Seq<Gap>, bytes: Seq<u8>, bounds: (usize, usize), n: int) -> Seq<int> {
    indices(n).filter(|g: int| legal(gaps, bytes, bounds, g))
}

/// The gaps at which the word may break, in order.
pub open spec fn legal_gaps(gaps: Seq<Gap>, bytes: Seq<u8>, bounds: (usize, usize)) -> Seq<int> {
    legal_in(gaps, bytes, bounds, gaps.len() as int)
}

/// One gap further, the legal gaps are those found so far and, if it is
/// legal, that gap.
pub proof fn lemma_legal_step(gaps: Seq<Gap>, bytes: Seq<u8>, bounds: (usize, usize), n: int)
    requires
        0 <= n,
    ensures
        legal_in(gaps, bytes, bounds, n + 1) == if legal(gaps, bytes, bounds, n) {
            legal_in(gaps, bytes, bounds, n).push(n)
        } else {
            legal_in(gaps, bytes, bounds, n)
        },
{
    assert(indices(n + 1) == indices(n).push(n));
    indices(n).lemma_filter_push(n, |g: int| legal(gaps, bytes, bounds, g));
}

/// The legal gaps among the first `n` are gaps among the first `n`, each of
/// them legal, in strictly ascending order.
pub proof fn lemma_legal_in(gaps: Seq<Gap>, bytes: Seq<u8>, bounds: (usize, usize), n: int)
    requires
        0 <= n,
    ensures
        forall|j: int| 0 <= j < legal_in(gaps, bytes, bounds, n).len() ==> {
            &&& 0 <= #[trigger] legal_in(gaps, bytes, bounds, n)[j] < n
            &&& legal(gaps, bytes, bounds, legal_in(gaps, bytes, bounds, n)[j])
        },
        forall|i: int, j: int| 0 <= i < j < legal_in(gaps, bytes, bounds, n).len() ==>
            #[trigger] legal_in(gaps, bytes, bounds, n)[i] < #[trigger] legal_in(gaps, bytes, bounds, n)[j],
    decreases n,
{
    if n == 0 {
        assert(indices(0) == Seq::<int>::empty());
        indices(0).lemma_filter_len(|g: int| legal(gaps, bytes, bounds, g));
    } else {
        lemma_legal_in(gaps, bytes, bounds, n - 1);
        lemma_legal_step(gaps, bytes, bounds, n - 1);
    }
}

/// The gaps of `word` at which it may break, given what the patterns say of
/// each gap.
pub fn breaks_within(gaps: &Vec<Gap>, word: &str, bounds: (usize, usize)) -> (breaks: Vec<usize>)
    requires
        gaps@.len() == span(word@) + 1,
    ensures
        breaks@.map_values(|g: usize| g as int) == legal_gaps(gaps@, encode_utf8(word@), bounds),
{
    let mut breaks: Vec<usize> = Vec::new();
    if !has_letter(word.as_bytes()) {
        proof {
            let none = legal_gaps(gaps@, encode_utf8(word@), bounds);
            lemma_legal_in(gaps@, encode_utf8(word@), bounds, gaps@.len() as int);
            if none.len() > 0 {
                assert(legal(gaps@, encode_utf8(word@), bounds, none[0]));
            }
            assert(breaks@.map_values(|g: usize| g as int) =~= none);
        }
        return breaks;
    }
    let mut g: usize = 0;
    while g < gaps.len()
        invariant
            g <= gaps.len(),
            gaps@.len() == span(word@) + 1,
            lettered(encode_utf8(word@)),
            breaks@.map_values(|g: usize| g as int) == legal_in(gaps@, encode_utf8(word@), bounds, g as int),
        decreases gaps.len() - g,
    {
        proof {
            lemma_legal_step(gaps@, encode_utf8(word@), bounds, g as int);
        }
        if denotes_opportunity(gaps[g].score) && g >= bounds.0 && g <= bounds.1 && word.is_char_boundary(g) {
            proof {
                breaks@.lemma_push_map_commute(|g: usize| g as int, g);
            }
            breaks.push(g);
        }
        g = g + 1;
    }
    breaks
}

/// A dictionary capable of hyphenating individual words.
///
/// For the purpose of hyphenation, a "word" should not be a compound in
/// hyphenated form (such as "hard-nosed"), but a single run of letters
/// without intervening punctuation or spaces.
pub trait Hyphenator<'h> {
    /// Plain representation of a word break.
    type Opportunity;

    /// An owned opportunity used to specify and store the predetermined
    /// hyphenation of known words.
    type Exact;

    /// The byte offset of a break.
    spec fn place(op: Self::Opportunity) -> usize;

    /// The number of characters at the start and at the end of a word that
    /// stay together.
    spec fn minima(&self) -> (usize, usize);

    /// The breaks known for `word`, as they were given.
    spec fn known(&self, word: Seq<char>) -> Option<Seq<Self::Exact>>;

    /// The breaks known for `word` that lie within the bounds.
    spec fn known_within(&self, word: Seq<char>, bounds: (usize, usize)) -> Option<Seq<Self::Opportunity>>;

    /// The breaks that the patterns find in `word` within the bounds.
    spec fn found_within(&self, word: Seq<char>, bounds: (usize, usize)) -> Seq<Self::Opportunity>;

    /// The breaks of `word`.
    spec fn hyphenated(&self, word: Seq<char>) -> Seq<Self::Opportunity>;

    /// Hyphenate a word, computing appropriate word breaks and preparing it
    /// for iteration.
    ///
    /// Soft hyphens take priority over dictionary hyphenation; if the word
    /// contains any, they will be returned as the only breaks available.
    ///
    /// This method is case-insensitive.
    fn hyphenate<'t>(&'h self, word: &'t str) -> (hyphenated: Word<'t, Self::Opportunity>)
        ensures
            hyphenated.text@ == word@,
            hyphenated.breaks@ == self.hyphenated(word@),
    ;

    /// The hyphenation opportunities that our dictionary can find in the
    /// given word. The word should be lowercase.
    fn opportunities(&'h self, lowercase_word: &str) -> (found: Vec<Self::Opportunity>)
        ensures
            found@ == match window(lowercase_word@, self.minima()) {
                None => Seq::empty(),
                Some(bounds) => match self.known_within(lowercase_word@, bounds) {
                    Some(known) => known,
                    None => self.found_within(lowercase_word@, bounds),
                },
            },
            forall|i: int| 0 <= i < found@.len() ==> (window(lowercase_word@, self.minima()) matches Some(bounds) && bounds.0
                <= Self::place(#[trigger] found@[i]) <= bounds.1),
    {
        match self.boundaries(lowercase_word) {
            None => Vec::new(),
            Some(bounds) => match self.exact_within(lowercase_word, bounds) {
                None => self.opportunities_within(lowercase_word, bounds),
                Some(known) => known,
            },
        }
    }

    /// The hyphenation opportunities that arise between the specified
    /// indices.
    ///
    /// No attempt is made to retrieve a known exact hyphenation.
    fn opportunities_within(&'h self, lowercase_word: &str, bounds: (usize, usize)) -> (found: Vec<Self::Opportunity>)
        ensures
            found@ == self.found_within(lowercase_word@, bounds),
            forall|i: int| 0 <= i < found@.len() ==> bounds.0 <= Self::place(#[trigger] found@[i]) <= bounds.1,
    ;

    /// Retrieve the known exact hyphenation for this word, if any, between
    /// the specified indices.
    fn exact_within(&'h self, lowercase_word: &str, bounds: (usize, usize)) -> (known: Option<Vec<Self::Opportunity>>)
        ensures
            match known {
                Some(breaks) => self.known_within(lowercase_word@, bounds) == Some(breaks@),
                None => self.known_within(lowercase_word@, bounds) is None,
            },
            known matches Some(breaks) ==> forall|i: int| 0 <= i < breaks@.len() ==> bounds.0 <= Self::place(#[trigger] breaks@[i]) <= bounds.1,
    ;

    /// Specify the hyphenation of the given word with an exact sequence of
    /// opportunities. Subsequent calls to `hyphenate` or `opportunities`
    /// will yield this hyphenation instead of generating one from patterns.
    ///
    /// If the word already has an exact hyphenation, the old opportunities
    /// are returned.
    fn add_exact(&mut self, word: String, ops: Vec<Self::Exact>) -> (previous: Option<Vec<Self::Exact>>)
        ensures
            match previous {
                Some(breaks) => old(self).known(word@) == Some(breaks@),
                None => old(self).known(word@) is None,
            },
            final(self).known(word@) == Some(ops@),
            forall|other: Seq<char>| other != word@ ==> #[trigger] final(self).known(other) == old(self).known(other),
            final(self).minima() == old(self).minima(),
            forall|other: Seq<char>, bounds: (usize, usize)| #[trigger] final(self).found_within(other, bounds) == old(self).found_within(other, bounds),
    ;

    /// The number of `char`s from the start and end of a word where breaks
    /// may not occur.
    fn unbreakable_chars(&self) -> (minima: (usize, usize))
        ensures
            minima == self.minima(),
    ;

    /// The byte indices delimiting the substring where breaks may occur,
    /// unless the word is too short to be hyphenated.
    fn boundaries(&self, word: &str) -> (bounds: Option<(usize, usize)>)
        ensures
            bounds == window(word@, self.minima()),
    {
        window_of(word, self.unbreakable_chars())
    }
}

} // verus!
