use vstd::prelude::*;

verus! {

/// What a pattern says of the gaps around its letters: one score for each
/// gap, and whatever else its kind of dictionary attaches to it.
///
/// Two tallies with the same view are the same tally: a dictionary stores
/// only one of them.
pub trait Tally: View + Sized {
    /// The scores of a tally with the view `v`, gap by gap.
    spec fn scores(v: Self::V) -> Seq<u8>;

    /// A number by which tallies are told apart quickly: the same for the
    /// same tally, mostly another for another.
    spec fn digest(v: Self::V) -> u32;

    /// The digest of this tally.
    fn digested(&self) -> (d: u32)
        ensures
            d == Self::digest(self@),
    ;

    /// Whether both are the same tally.
    fn same(&self, other: &Self) -> (b: bool)
        ensures
            b == (self@ == other@),
    ;

    /// A copy of this tally.
    fn duplicate(&self) -> (t: Self)
        ensures
            t@ == self@,
    ;

    /// The number of gaps that this tally scores.
    fn gaps(&self) -> (n: usize)
        ensures
            n == Self::scores(self@).len(),
    ;

    /// The score of the gap of index `k`.
    fn score(&self, k: usize) -> (s: u8)
        requires
            k < Self::scores(self@).len(),
        ensures
            s == Self::scores(self@)[k as int],
    ;
}

/// Whether both hold the same bytes.
pub fn same_bytes(a: &Vec<u8>, b: &Vec<u8>) -> (e: bool)
    ensures
        e == (a@ == b@),
{
    if a.len() != b.len() {
        return false;
    }
    let mut k: usize = 0;
    while k < a.len()
        invariant
            k <= a.len(),
            a.len() == b.len(),
            a@.take(k as int) == b@.take(k as int),
        decreases a.len() - k,
    {
        if a[k] != b[k] {
            return false;
        }
        assert(a@.take(k + 1) == a@.take(k as int).push(a@[k as int]));
        assert(b@.take(k + 1) == b@.take(k as int).push(b@[k as int]));
        k = k + 1;
    }
    assert(a@ == a@.take(k as int));
    assert(b@ == b@.take(k as int));
    true
}

/// A digest of scores: each score in turn is taken into the number so far.
pub open spec fn digest_of(scores: Seq<u8>) -> u32
    decreases scores.len(),
{
    if scores.len() == 0 {
        0
    } else {
        ((digest_of(scores.drop_last()) as int * 31 + scores.last() as int) % 65521) as u32
    }
}

/// The digest of the scores.
pub fn digest(scores: &Vec<u8>) -> (d: u32)
    ensures
        d == digest_of(scores@),
{
    let mut d: u32 = 0;
    let mut k: usize = 0;
    while k < scores.len()
        invariant
            k <= scores.len(),
            d == digest_of(scores@.take(k as int)),
            d < 65521,
        decreases scores.len() - k,
    {
        assert(scores@.take(k + 1).drop_last() == scores@.take(k as int));
        assert(scores@.take(k + 1).last() == scores@[k as int]);
        d = (d * 31 + scores[k] as u32) % 65521;
        k = k + 1;
    }
    assert(scores@.take(k as int) == scores@);
    d
}

/// The tally of a standard pattern: its scores and nothing else.
impl Tally for Vec<u8> {
    open spec fn scores(v: Seq<u8>) -> Seq<u8> {
        v
    }

    open spec fn digest(v: Seq<u8>) -> u32 {
        digest_of(v)
    }

    fn digested(&self) -> (d: u32) {
        digest(self)
    }

    fn same(&self, other: &Self) -> (b: bool) {
        same_bytes(self, other)
    }

    fn duplicate(&self) -> (t: Self) {
        let t = self.clone();
        assert(t@ =~= self@);
        t
    }

    fn gaps(&self) -> (n: usize) {
        self.len()
    }

    fn score(&self, k: usize) -> (s: u8) {
        self[k]
    }
}

/// A change of spelling that goes with a break: the letters from `left`
/// before the break to `right` after it give way to `substitution`, which
/// is broken after `breakpoint` of its bytes.
#[derive(Debug)]
pub struct Subregion {
    pub left: usize,
    pub right: usize,
    pub substitution: String,
    pub breakpoint: usize,
}

impl View for Subregion {
    type V = (usize, usize, Seq<char>, usize);

    open spec fn view(&self) -> Self::V {
        (self.left, self.right, self.substitution@, self.breakpoint)
    }
}

impl Subregion {
    /// Whether both are the same change of spelling.
    pub fn same(&self, other: &Subregion) -> (b: bool)
        ensures
            b == (self@ == other@),
    {
        self.left == other.left && self.right == other.right && self.breakpoint == other.breakpoint
            && self.substitution == other.substitution
    }

    /// A copy of this change of spelling.
    pub fn duplicate(&self) -> (s: Subregion)
        ensures
            s == *self,
    {
        Subregion {
            left: self.left,
            right: self.right,
            substitution: self.substitution.clone(),
            breakpoint: self.breakpoint,
        }
    }
}

/// The tally of an extended pattern: its scores and, for at most one of its
/// gaps, the change of spelling that a break there asks for.
#[derive(Debug)]
pub struct ExtendedTally {
    pub scores: Vec<u8>,
    pub subregion: Option<(usize, Subregion)>,
}

impl View for ExtendedTally {
    type V = (Seq<u8>, Option<(usize, (usize, usize, Seq<char>, usize))>);

    open spec fn view(&self) -> Self::V {
        (
            self.scores@,
            match self.subregion {
                Some((gap, region)) => Some((gap, region@)),
                None => None,
            },
        )
    }
}

impl Tally for ExtendedTally {
    open spec fn scores(v: Self::V) -> Seq<u8> {
        v.0
    }

    open spec fn digest(v: Self::V) -> u32 {
        digest_of(v.0)
    }

    fn digested(&self) -> (d: u32) {
        digest(&self.scores)
    }

    fn same(&self, other: &Self) -> (b: bool) {
        if !same_bytes(&self.scores, &other.scores) {
            return false;
        }
        match (&self.subregion, &other.subregion) {
            (Some((gap, region)), Some((other_gap, other_region))) => *gap == *other_gap && region.same(
                other_region,
            ),
            (None, None) => true,
            _ => false,
        }
    }

    fn duplicate(&self) -> (t: Self) {
        let scores = self.scores.clone();
        assert(scores@ =~= self.scores@);
        let subregion = match &self.subregion {
            Some((gap, region)) => Some((*gap, region.duplicate())),
            None => None,
        };
        ExtendedTally { scores, subregion }
    }

    fn gaps(&self) -> (n: usize) {
        self.scores.len()
    }

    fn score(&self, k: usize) -> (s: u8) {
        self.scores[k]
    }
}

} // verus!
