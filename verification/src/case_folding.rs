use vstd::prelude::*;
use vstd::std_specs::iter::IteratorSpec;
use vstd::utf8::*;
use crate::text::{
    lemma_encode_concat, lemma_encode_one, lemma_offset_bound, lemma_offset_step, lemma_width_bounds,
    offset_of, span, utf8_width, width,
};

verus! {

/// A place where the folded word and the original part ways: from the byte
/// of index `index` of the folded word on, the original is `delta` bytes
/// further (or, where `delta` is negative, less far).
#[derive(Clone, Copy, Debug)]
pub struct Shift {
    pub index: usize,
    pub delta: isize,
}

/// A word made ready for the patterns: folded to lower case, with the shifts
/// that lead from its byte offsets back to those of the original.
#[derive(Debug)]
pub struct Prepared {
    pub word: String,
    pub shifts: Vec<Shift>,
}

/// The lowercase mapping that `char::to_lowercase` gives for `c`.
pub uninterp spec fn lowercase_of(c: char) -> Seq<char>;

/// Calls `char::to_lowercase` and collects the characters that it yields:
/// the lowercase mapping of `c`, which depends on `c` alone.
#[verifier::external_body]
fn lowercase(c: char) -> (lower: String)
    ensures
        lower@ == lowercase_of(c),
{
    c.to_lowercase().collect()
}

/// `String::push` appends the character to the string.
pub assume_specification[ String::push ](s: &mut String, c: char)
    ensures
        final(s)@ == old(s)@.push(c),
;

/// What `c` folds to where `lower` is its lowercase mapping: the mapping, or
/// `c` itself where the mapping is empty.
pub open spec fn image_of(c: char, lower: Seq<char>) -> Seq<char> {
    if lower.len() >= 1 {
        lower
    } else {
        seq![c]
    }
}

/// What `c` folds to.
pub open spec fn folded_char(c: char) -> Seq<char> {
    image_of(c, lowercase_of(c))
}

/// The folded word: each character folded, in order.
pub open spec fn fold(chars: Seq<char>) -> Seq<char>
    decreases chars.len(),
{
    if chars.len() == 0 {
        Seq::empty()
    } else {
        fold(chars.drop_last()) + folded_char(chars.last())
    }
}

/// Each character of the word folds to one character.
pub open spec fn folds_singly(chars: Seq<char>) -> bool {
    forall|k: int| 0 <= k < chars.len() ==> folded_char(#[trigger] chars[k]).len() == 1
}

/// The shifts behind the characters `part`, which stand from the byte
/// offset `at` on and belong to what one character folds to without ending
/// it: behind each, a shift back by its bytes, so that the offset behind it
/// still leads to the start of the character that was folded.
pub open spec fn inner_shifts(part: Seq<char>, at: int) -> Seq<Shift>
    decreases part.len(),
{
    if part.len() == 0 {
        Seq::empty()
    } else {
        inner_shifts(part.drop_last(), at).push(
            Shift { index: (at + span(part)) as usize, delta: (-width(part.last())) as isize },
        )
    }
}

/// The shifts of one character of `own` bytes that folds to `image`, which
/// stands from the byte offset `at` on: the inner shifts of all but the last
/// character of `image`, and behind the last one a shift by what leads to
/// the end of the folded character, unless that is nothing.
pub open spec fn image_shifts(own: int, image: Seq<char>, at: int) -> Seq<Shift> {
    if image.len() == 0 {
        Seq::empty()
    } else if own == width(image.last()) {
        inner_shifts(image.drop_last(), at)
    } else {
        inner_shifts(image.drop_last(), at).push(
            Shift { index: (at + span(image)) as usize, delta: (own - width(image.last())) as isize },
        )
    }
}

/// The shifts of a word: those of each of its characters, in order. They
/// lead from the start of what a character folds to, and from any character
/// boundary within it, to the start of that character, and from the end of
/// the folded word to the end of the word.
pub open spec fn shifts_of(chars: Seq<char>) -> Seq<Shift>
    decreases chars.len(),
{
    if chars.len() == 0 {
        Seq::empty()
    } else {
        shifts_of(chars.drop_last()) + image_shifts(
            width(chars.last()),
            folded_char(chars.last()),
            span(fold(chars.drop_last())),
        )
    }
}

/// The character of the word in what the character of index `j` of the
/// folded word belongs to; for `j` the length of the folded word, the length
/// of the word.
pub open spec fn origin(chars: Seq<char>, j: int) -> int
    decreases chars.len(),
{
    if chars.len() == 0 {
        0
    } else if j <= fold(chars.drop_last()).len() {
        origin(chars.drop_last(), j)
    } else if j < fold(chars).len() {
        chars.len() - 1
    } else {
        chars.len() as int
    }
}

/// The sum of the shifts that lie at or before the byte offset `position`.
pub open spec fn shift_sum(shifts: Seq<Shift>, position: int) -> int
    decreases shifts.len(),
{
    if shifts.len() == 0 {
        0
    } else {
        shift_sum(shifts.drop_last(), position) + if shifts.last().index <= position {
            shifts.last().delta as int
        } else {
            0
        }
    }
}

/// The byte offset in the original that the byte offset `position` of the
/// folded word stands for: `position` and the shifts at or before it, kept
/// within what a byte offset can be.
pub open spec fn realigned(position: int, shifts: Seq<Shift>) -> int {
    let at = position + shift_sum(shifts, position);
    if at < 0 {
        0
    } else if at > usize::MAX {
        usize::MAX as int
    } else {
        at
    }
}

/// The byte offset that `position` in a folded word has in the original.
pub fn realign(position: usize, shifts: &[Shift]) -> (original: usize)
    ensures
        original == realigned(position as int, shifts@),
{
    let mut sum: i128 = 0;
    let mut k: usize = 0;
    while k < shifts.len()
        invariant
            k <= shifts.len(),
            sum == shift_sum(shifts@.take(k as int), position as int),
            -(k as int) * 0x8000_0000_0000_0000 <= sum <= (k as int) * 0x8000_0000_0000_0000,
        decreases shifts.len() - k,
    {
        proof {
            assert(shifts@.take(k + 1).drop_last() == shifts@.take(k as int));
            assert(shifts@.take(k + 1).last() == shifts@[k as int]);
        }
        if shifts[k].index <= position {
            sum = sum + shifts[k].delta as i128;
        }
        k = k + 1;
    }
    proof {
        assert(shifts@.take(k as int) == shifts@);
    }
    if sum >= 0 {
        if sum > (usize::MAX - position) as i128 {
            usize::MAX
        } else {
            position + sum as usize
        }
    } else {
        let back: i128 = -sum;
        if back > position as i128 {
            0
        } else {
            position - back as usize
        }
    }
}

/// A character folds to at least one character.
pub proof fn lemma_folded_char(c: char)
    ensures
        folded_char(c).len() >= 1,
        span(folded_char(c)) >= 1,
{
    lemma_span_positive(folded_char(c));
}

/// Characters take at least a byte each.
pub proof fn lemma_span_positive(chars: Seq<char>)
    ensures
        span(chars) >= chars.len(),
    decreases chars.len(),
{
    if chars.len() > 0 {
        lemma_span_positive(chars.drop_last());
        lemma_span_push(chars.drop_last(), chars.last());
        assert(chars.drop_last().push(chars.last()) == chars);
    }
}

/// One character more takes its bytes more.
pub proof fn lemma_span_push(chars: Seq<char>, c: char)
    ensures
        span(chars.push(c)) == span(chars) + width(c),
        1 <= width(c) <= 4,
{
    lemma_encode_concat(chars, seq![c]);
    assert(chars + seq![c] == chars.push(c));
    lemma_encode_one(c);
    lemma_width_bounds(c);
}

/// Folding a word and one character more.
pub proof fn lemma_fold_push(chars: Seq<char>, c: char)
    ensures
        fold(chars.push(c)) == fold(chars) + folded_char(c),
        span(fold(chars.push(c))) == span(fold(chars)) + span(folded_char(c)),
{
    assert(chars.push(c).drop_last() == chars);
    lemma_encode_concat(fold(chars), folded_char(c));
}

/// The folded word is no shorter, in characters, than the original.
pub proof fn lemma_fold_len(chars: Seq<char>)
    ensures
        fold(chars).len() >= chars.len(),
    decreases chars.len(),
{
    if chars.len() > 0 {
        lemma_fold_len(chars.drop_last());
        lemma_folded_char(chars.last());
    }
}

/// Where each character folds to one character, the folded word has as many
/// characters as the word; and only there.
pub proof fn lemma_fold_len_exact(chars: Seq<char>)
    ensures
        folds_singly(chars) <==> fold(chars).len() == chars.len(),
    decreases chars.len(),
{
    if chars.len() > 0 {
        let init = chars.drop_last();
        lemma_fold_len_exact(init);
        lemma_fold_len(init);
        lemma_folded_char(chars.last());
        assert(chars.last() == chars[chars.len() - 1]);
        if folds_singly(chars) {
            assert forall|k: int| 0 <= k < init.len() implies folded_char(#[trigger] init[k]).len() == 1 by {
                assert(init[k] == chars[k]);
            }
        }
        if fold(chars).len() == chars.len() {
            assert(folds_singly(init));
            assert forall|k: int| 0 <= k < chars.len() implies folded_char(#[trigger] chars[k]).len() == 1 by {
                if k < init.len() {
                    assert(init[k] == chars[k]);
                }
            }
        }
    }
}

/// A word that folding leaves as it is has no shifts.
pub proof fn lemma_unaffected_no_shifts(chars: Seq<char>)
    requires
        fold(chars) == chars,
    ensures
        shifts_of(chars) == Seq::<Shift>::empty(),
    decreases chars.len(),
{
    if chars.len() > 0 {
        let before = chars.drop_last();
        lemma_fold_len(before);
        lemma_folded_char(chars.last());
        let image = folded_char(chars.last());
        assert(fold(chars).len() == fold(before).len() + image.len());
        assert(image.len() == 1);
        assert(fold(before) =~= fold(chars).take(before.len() as int));
        assert(fold(before) == before);
        assert(image[0] == fold(chars)[before.len() as int]);
        assert(image =~= seq![chars.last()]);
        assert(image.drop_last() =~= Seq::<char>::empty());
        lemma_unaffected_no_shifts(before);
        assert(shifts_of(chars) =~= Seq::<Shift>::empty());
    }
}

/// Without shifts, a byte offset stands for itself.
pub proof fn lemma_realigned_without_shifts(position: int)
    requires
        0 <= position <= usize::MAX,
    ensures
        realigned(position, Seq::<Shift>::empty()) == position,
{
}

/// The sum over shifts put one after the other.
pub proof fn lemma_shift_sum_concat(a: Seq<Shift>, b: Seq<Shift>, position: int)
    ensures
        shift_sum(a + b, position) == shift_sum(a, position) + shift_sum(b, position),
    decreases b.len(),
{
    if b.len() == 0 {
        assert(a + b == a);
    } else {
        lemma_shift_sum_concat(a, b.drop_last(), position);
        assert((a + b).drop_last() == a + b.drop_last());
        assert((a + b).last() == b.last());
    }
}

/// Of the inner shifts, those behind the first `t` characters count at a
/// byte offset that lies behind these and before the end of the next.
pub proof fn lemma_inner_sum(part: Seq<char>, at: int, t: int, position: int)
    requires
        0 <= at,
        at + span(part) <= usize::MAX,
        0 <= t <= part.len(),
        at + span(part.take(t)) <= position,
        t < part.len() ==> position < at + span(part.take(t + 1)),
    ensures
        shift_sum(inner_shifts(part, at), position) == -span(part.take(t)),
    decreases part.len(),
{
    if part.len() == 0 {
        assert(part.take(0) == part);
    } else {
        let init = part.drop_last();
        assert(init.push(part.last()) == part);
        lemma_span_push(init, part.last());
        assert(inner_shifts(part, at).drop_last() == inner_shifts(init, at));
        if t == part.len() {
            assert(part.take(t) == part);
            assert(init.take(init.len() as int) == init);
            lemma_inner_sum(init, at, init.len() as int, position);
        } else {
            assert(init.take(t) == part.take(t));
            if t < init.len() {
                assert(init.take(t + 1) == part.take(t + 1));
            } else {
                assert(part.take(t + 1) == part);
            }
            lemma_offset_bound(part, t + 1);
            lemma_inner_sum(init, at, t, position);
        }
    }
}

/// Of the shifts of one character, none counts at or before the start of
/// what the character folds to.
pub proof fn lemma_image_sum_before(own: int, image: Seq<char>, at: int, position: int)
    requires
        0 <= at,
        at + span(image) <= usize::MAX,
        position <= at,
    ensures
        shift_sum(image_shifts(own, image, at), position) == 0,
{
    if image.len() > 0 {
        let init = image.drop_last();
        assert(init.push(image.last()) == image);
        lemma_span_push(init, image.last());
        lemma_span_positive(image);
        lemma_inner_sum_before(init, at, position);
        if own != width(image.last()) {
            let all = image_shifts(own, image, at);
            assert(all.drop_last() == inner_shifts(init, at));
            assert(all.last().index == at + span(image));
        }
    }
}

/// No inner shift counts before the start of its characters.
pub proof fn lemma_inner_sum_before(part: Seq<char>, at: int, position: int)
    requires
        0 <= at,
        at + span(part) <= usize::MAX,
        position <= at,
    ensures
        shift_sum(inner_shifts(part, at), position) == 0,
    decreases part.len(),
{
    if part.len() > 0 {
        let init = part.drop_last();
        assert(init.push(part.last()) == part);
        lemma_span_push(init, part.last());
        lemma_span_positive(part);
        lemma_inner_sum_before(init, at, position);
        assert(inner_shifts(part, at).drop_last() == inner_shifts(init, at));
        assert(inner_shifts(part, at).last().index == at + span(part));
    }
}

/// Of the shifts of one character, at a character boundary within what it
/// folds to those count that lead back to the start; at or behind the end,
/// all count, and they come to the difference in bytes.
pub proof fn lemma_image_sum(own: int, image: Seq<char>, at: int, t: int, position: int)
    requires
        0 <= at,
        at + span(image) <= usize::MAX,
        1 <= own <= 4,
        image.len() >= 1,
        0 <= t <= image.len(),
        at + span(image.take(t)) <= position,
        t < image.len() ==> position < at + span(image.take(t + 1)),
    ensures
        shift_sum(image_shifts(own, image, at), position) == if t == image.len() {
            own - span(image)
        } else {
            -span(image.take(t))
        },
{
    let init = image.drop_last();
    assert(init.push(image.last()) == image);
    lemma_span_push(init, image.last());
    if own != width(image.last()) {
        assert(image_shifts(own, image, at).drop_last() == inner_shifts(init, at));
    }
    if t == image.len() {
        assert(image.take(t) == image);
        assert(init.take(init.len() as int) == init);
        lemma_inner_sum(init, at, init.len() as int, position);
    } else {
        assert(init.take(t) == image.take(t));
        if t < init.len() {
            assert(init.take(t + 1) == image.take(t + 1));
        } else {
            assert(image.take(t + 1) == image);
        }
        lemma_offset_bound(image, t + 1);
        lemma_inner_sum(init, at, t, position);
    }
}

/// At or behind the end of the folded word all shifts count: together they
/// are the difference in bytes between the word and what it folds to.
pub proof fn lemma_shift_sum_full(chars: Seq<char>, position: int)
    requires
        span(fold(chars)) <= usize::MAX,
        span(fold(chars)) <= position,
    ensures
        shift_sum(shifts_of(chars), position) == span(chars) - span(fold(chars)),
    decreases chars.len(),
{
    if chars.len() > 0 {
        let before = chars.drop_last();
        let image = folded_char(chars.last());
        assert(before.push(chars.last()) == chars);
        lemma_fold_push(before, chars.last());
        lemma_folded_char(chars.last());
        lemma_span_push(before, chars.last());
        lemma_shift_sum_full(before, position);
        assert(image.take(image.len() as int) == image);
        lemma_image_sum(width(chars.last()), image, span(fold(before)), image.len() as int, position);
        lemma_shift_sum_concat(
            shifts_of(before),
            image_shifts(width(chars.last()), image, span(fold(before))),
            position,
        );
    }
}

/// From each character boundary of the folded word the shifts lead to the
/// start of a character of the word, or to its end: to the character in what
/// the character behind the boundary belongs to.
pub proof fn lemma_realigned_boundary(chars: Seq<char>, j: int)
    requires
        span(chars) <= usize::MAX,
        span(fold(chars)) <= usize::MAX,
        0 <= j <= fold(chars).len(),
    ensures
        0 <= origin(chars, j) <= chars.len(),
        realigned(offset_of(fold(chars), j), shifts_of(chars)) == offset_of(chars, origin(chars, j)),
    decreases chars.len(),
{
    let folded = fold(chars);
    if chars.len() == 0 {
        lemma_offset_bound(folded, 0);
        lemma_offset_bound(chars, 0);
    } else {
        let before = chars.drop_last();
        let last = chars.last();
        let image = folded_char(last);
        let start = span(fold(before));
        let at = offset_of(folded, j);
        assert(before.push(last) == chars);
        lemma_fold_push(before, last);
        lemma_folded_char(last);
        lemma_span_push(before, last);
        let added = image_shifts(width(last), image, start);
        lemma_shift_sum_concat(shifts_of(before), added, at);
        if j <= fold(before).len() {
            assert(folded.take(j) == fold(before).take(j));
            lemma_offset_bound(fold(before), j);
            lemma_image_sum_before(width(last), image, start, at);
            lemma_realigned_boundary(before, j);
            let k = origin(before, j);
            assert(before.take(k) == chars.take(k));
        } else if j < folded.len() {
            let t = j - fold(before).len();
            assert(folded.take(j) == fold(before) + image.take(t));
            lemma_encode_concat(fold(before), image.take(t));
            lemma_offset_step(image, t);
            lemma_offset_bound(image, t);
            lemma_shift_sum_full(before, at);
            lemma_image_sum(width(last), image, start, t, at);
            assert(chars.take(chars.len() - 1) == before);
            lemma_offset_bound(chars, chars.len() - 1);
        } else {
            assert(folded.take(j) == folded);
            lemma_shift_sum_full(chars, at);
            assert(chars.take(chars.len() as int) == chars);
        }
    }
}

/// A later character of the folded word belongs to no earlier character of
/// the word.
pub proof fn lemma_origin_ascends(chars: Seq<char>, i: int, j: int)
    requires
        0 <= i <= j <= fold(chars).len(),
    ensures
        0 <= origin(chars, i) <= origin(chars, j) <= chars.len(),
    decreases chars.len(),
{
    if chars.len() > 0 {
        let before = chars.drop_last();
        lemma_fold_len(before);
        if j <= fold(before).len() {
            lemma_origin_ascends(before, i, j);
        } else if i <= fold(before).len() {
            lemma_origin_ascends(before, i, i);
        }
    }
}

/// Where each character folds to one character, each character of the
/// folded word belongs to the character of the same index.
pub proof fn lemma_origin_singly(chars: Seq<char>, j: int)
    requires
        folds_singly(chars),
        0 <= j <= chars.len(),
    ensures
        fold(chars).len() == chars.len(),
        origin(chars, j) == j,
    decreases chars.len(),
{
    lemma_fold_len_exact(chars);
    if chars.len() > 0 {
        let before = chars.drop_last();
        assert forall|k: int| 0 <= k < before.len() implies folded_char(#[trigger] before[k]).len() == 1 by {
            assert(before[k] == chars[k]);
        }
        lemma_fold_len_exact(before);
        if j <= before.len() {
            lemma_origin_singly(before, j);
        }
    }
}

/// Appends to `word` what `c` folds to, where `lower` is its lowercase
/// mapping, and notes in `shifts` the shifts of `c`.
pub fn fold_into(word: &mut String, shifts: &mut Vec<Shift>, c: char, lower: &str)
    ensures
        final(word)@ == old(word)@ + image_of(c, lower@),
        final(shifts)@ == old(shifts)@ + image_shifts(width(c), image_of(c, lower@), span(old(word)@)),
{
    let ghost start = span(word@);
    let ghost image = image_of(c, lower@);
    let own = utf8_width(c);
    let mut it = lower.chars();
    let first = it.next();
    let mut pending: char = match first {
        Some(d) => d,
        None => c,
    };
    let ghost mut seen: int = 1;
    proof {
        lemma_width_bounds(c);
        if first is None {
            assert(lower@ =~= Seq::<char>::empty());
        } else {
            assert(lower@.len() >= 1);
            assert(lower@[0] == pending);
        }
        assert(image[0] == pending);
        assert(image.take(0) =~= Seq::<char>::empty());
        assert(word@ + image.take(0) == word@);
        assert(shifts@ + inner_shifts(image.take(0), start) == shifts@);
    }
    loop
        invariant
            1 <= seen <= image.len(),
            image == image_of(c, lower@),
            start == span(old(word)@),
            first is Some ==> lower@.len() >= 1 && it.remaining() == lower@.skip(seen),
            first is None ==> lower@.len() == 0 && it.remaining().len() == 0,
            it.obeys_prophetic_iter_laws(),
            pending == image[seen - 1],
            word@ == old(word)@ + image.take(seen - 1),
            shifts@ == old(shifts)@ + inner_shifts(image.take(seen - 1), start),
            own == width(c),
            1 <= own <= 4,
        decreases image.len() - seen,
    {
        let ghost rest = it.remaining();
        let next = it.next();
        let wide = utf8_width(pending);
        proof {
            if next is Some {
                assert(rest.len() > 0);
                assert(first is Some);
                assert(rest == lower@.skip(seen));
                assert(lower@.skip(seen)[0] == lower@[seen]);
                assert(it.remaining() =~= lower@.skip(seen + 1));
            } else {
                assert(rest.len() == 0);
            }
            lemma_width_bounds(pending);
            assert(image.take(seen).drop_last() == image.take(seen - 1));
            assert(image.take(seen).last() == pending);
            assert(image.take(seen - 1).push(pending) == image.take(seen));
            lemma_span_push(image.take(seen - 1), pending);
            lemma_encode_concat(old(word)@, image.take(seen));
            lemma_encode_concat(old(word)@, image.take(seen - 1));
        }
        word.push(pending);
        let at = word.as_str().as_bytes().len();
        proof {
            assert(word@ == old(word)@ + image.take(seen));
            assert(at == start + span(image.take(seen)));
        }
        match next {
            Some(d) => {
                shifts.push(Shift { index: at, delta: -(wide as isize) });
                proof {
                    assert(shifts@ == old(shifts)@ + inner_shifts(image.take(seen), start));
                    assert(d == image[seen]);
                    seen = seen + 1;
                }
                pending = d;
            },
            None => {
                proof {
                    assert(seen == image.len());
                    assert(image.take(seen) == image);
                    assert(image.take(seen - 1) == image.drop_last());
                    assert(image.last() == pending);
                }
                if own != wide {
                    let delta: isize = if own >= wide {
                        (own - wide) as isize
                    } else {
                        -((wide - own) as isize)
                    };
                    shifts.push(Shift { index: at, delta });
                    proof {
                        assert(shifts@ == old(shifts)@ + image_shifts(width(c), image, start));
                    }
                }
                return ;
            },
        }
    }
}

/// Folds `text` to lower case, character by character, and notes the shifts
/// between the two.
pub fn prepare(text: &str) -> (prepared: Prepared)
    ensures
        prepared.word@ == fold(text@),
        prepared.shifts@ == shifts_of(text@),
{
    let mut word = String::new();
    let mut shifts: Vec<Shift> = Vec::new();
    let ghost mut seen: int = 0;
    let mut it = text.chars();
    loop
        invariant
            0 <= seen <= text@.len(),
            it.remaining() == text@.skip(seen),
            it.obeys_prophetic_iter_laws(),
            word@ == fold(text@.take(seen)),
            shifts@ == shifts_of(text@.take(seen)),
        decreases text@.len() - seen,
    {
        let next = it.next();
        match next {
            None => {
                proof {
                    assert(text@.take(seen) == text@);
                }
                return Prepared { word, shifts };
            },
            Some(c) => {
                proof {
                    assert(text@.take(seen + 1) == text@.take(seen).push(c));
                    assert(text@.take(seen + 1).drop_last() == text@.take(seen));
                    lemma_fold_push(text@.take(seen), c);
                }
                let lower = lowercase(c);
                fold_into(&mut word, &mut shifts, c, lower.as_str());
                proof {
                    seen = seen + 1;
                }
            },
        }
    }
}

/// Whether each character of the word folds to one character: whether the
/// folded word has as many characters as the word.
pub fn folds_one_to_one(word: &str) -> (singly: bool)
    ensures
        singly == folds_singly(word@),
{
    let prepared = prepare(word);
    proof {
        lemma_fold_len_exact(word@);
    }
    crate::hyphenator::char_count(prepared.word.as_str()) == crate::hyphenator::char_count(word)
}

/// Whether folding leaves the word as it is.
pub fn unaffected(word: &str) -> (same: bool)
    ensures
        same == (fold(word@) == word@),
        same ==> shifts_of(word@) == Seq::<Shift>::empty(),
{
    let prepared = prepare(word);
    let same = prepared.word == word.to_owned();
    proof {
        if same {
            lemma_unaffected_no_shifts(word@);
        }
    }
    same
}

} // verus!
