use vstd::prelude::*;
use vstd::std_specs::iter::IteratorSpec;
use vstd::utf8::*;

verus! {

/// The soft hyphen, U+00AD.
pub const SOFT_HYPHEN: char = '\u{ad}';

/// The number of bytes that `c` takes in UTF-8.
pub open spec fn width(c: char) -> int {
    encode_scalar(c as u32).len() as int
}

/// The number of bytes that `chars` take in UTF-8.
pub open spec fn span(chars: Seq<char>) -> int {
    encode_utf8(chars).len() as int
}

/// The byte offset at which the character of index `k` starts; for `k` the
/// number of characters, the offset of the end.
pub open spec fn offset_of(chars: Seq<char>, k: int) -> int {
    span(chars.take(k))
}

/// A character takes one to four bytes.
pub proof fn lemma_width_bounds(c: char)
    ensures
        1 <= width(c) <= 4,
{
}

/// The encoding of a concatenation is the concatenation of the encodings.
pub proof fn lemma_encode_concat(a: Seq<char>, b: Seq<char>)
    ensures
        encode_utf8(a + b) == encode_utf8(a) + encode_utf8(b),
    decreases a.len(),
{
    if a.len() == 0 {
        assert(a + b == b);
        assert(encode_utf8(a) + encode_utf8(b) == encode_utf8(b));
    } else {
        lemma_encode_concat(a.drop_first(), b);
        assert((a + b).drop_first() == a.drop_first() + b);
        assert(encode_utf8(a + b) == encode_scalar(a[0] as u32) + (encode_utf8(a.drop_first()) + encode_utf8(b)));
    }
}

/// One character further, the offset grows by that character's width.
pub proof fn lemma_offset_step(chars: Seq<char>, k: int)
    requires
        0 <= k < chars.len(),
    ensures
        offset_of(chars, k + 1) == offset_of(chars, k) + width(chars[k]),
        offset_of(chars, k) < offset_of(chars, k + 1),
{
    let one = seq![chars[k]];
    assert(chars.take(k + 1) == chars.take(k) + one);
    lemma_encode_concat(chars.take(k), one);
    assert(one.drop_first() == Seq::<char>::empty());
    assert(encode_utf8(one) == encode_scalar(chars[k] as u32) + encode_utf8(one.drop_first()));
    assert(encode_utf8(one) == encode_scalar(chars[k] as u32));
    lemma_width_bounds(chars[k]);
}

/// No offset lies beyond the end.
pub proof fn lemma_offset_bound(chars: Seq<char>, k: int)
    requires
        0 <= k <= chars.len(),
    ensures
        0 <= offset_of(chars, k) <= span(chars),
        offset_of(chars, 0) == 0,
        offset_of(chars, chars.len() as int) == span(chars),
{
    lemma_encode_concat(chars.take(k), chars.skip(k));
    assert(chars.take(k) + chars.skip(k) == chars);
    assert(chars.take(chars.len() as int) == chars);
    assert(chars.take(0) == Seq::<char>::empty());
}

/// The encoding of one character.
pub proof fn lemma_encode_one(c: char)
    ensures
        encode_utf8(seq![c]) == encode_scalar(c as u32),
        span(seq![c]) == width(c),
{
    let one = seq![c];
    assert(one.drop_first() == Seq::<char>::empty());
    assert(encode_utf8(one) == encode_scalar(c as u32) + encode_utf8(one.drop_first()));
}

/// Behind the first character, offsets are those of the rest and the first
/// character's width.
pub proof fn lemma_offset_rest(chars: Seq<char>, k: int)
    requires
        1 <= k <= chars.len(),
    ensures
        offset_of(chars, k) == width(chars[0]) + offset_of(chars.drop_first(), k - 1),
{
    let one = seq![chars[0]];
    assert(chars.take(k) == one + chars.drop_first().take(k - 1));
    lemma_encode_concat(one, chars.drop_first().take(k - 1));
    lemma_encode_one(chars[0]);
}

/// At the offset of each character, and at the end, the bytes of a word
/// have a character boundary.
pub proof fn lemma_offset_is_boundary(chars: Seq<char>, k: int)
    requires
        0 <= k <= chars.len(),
    ensures
        is_char_boundary(encode_utf8(chars), offset_of(chars, k)),
    decreases k,
{
    let bytes = encode_utf8(chars);
    encode_utf8_valid_utf8(chars);
    lemma_offset_bound(chars, k);
    if k > 0 {
        let rest = chars.drop_first();
        encode_utf8_first_scalar(chars);
        assert(pop_first_scalar(bytes) =~= encode_utf8(rest));
        lemma_offset_is_boundary(rest, k - 1);
        lemma_offset_rest(chars, k);
        lemma_offset_step(chars, 0);
        lemma_offset_bound(chars, 0);
    }
}

/// Each character boundary of the bytes of a word is the offset of one of
/// its characters, or the end.
pub proof fn lemma_boundary_is_offset(chars: Seq<char>, at: int)
    requires
        is_char_boundary(encode_utf8(chars), at),
    ensures
        exists|k: int| 0 <= k <= chars.len() && offset_of(chars, k) == at,
    decreases chars.len(),
{
    let bytes = encode_utf8(chars);
    encode_utf8_valid_utf8(chars);
    if at == 0 {
        lemma_offset_bound(chars, 0);
        assert(offset_of(chars, 0) == at);
    } else {
        assert(0 < at <= bytes.len());
        let rest = chars.drop_first();
        encode_utf8_first_scalar(chars);
        assert(pop_first_scalar(bytes) =~= encode_utf8(rest));
        lemma_boundary_is_offset(rest, at - length_of_first_scalar(bytes));
        let j = choose|j: int| 0 <= j <= rest.len() && offset_of(rest, j) == at - length_of_first_scalar(bytes);
        lemma_offset_rest(chars, j + 1);
        assert(offset_of(chars, j + 1) == at);
    }
}

/// A later character starts at a greater offset.
pub proof fn lemma_offset_ascends(chars: Seq<char>, i: int, j: int)
    requires
        0 <= i < j <= chars.len(),
    ensures
        offset_of(chars, i) < offset_of(chars, j),
    decreases j - i,
{
    lemma_offset_step(chars, j - 1);
    if i < j - 1 {
        lemma_offset_ascends(chars, i, j - 1);
    }
}

/// The number of bytes that `c` takes in UTF-8.
pub fn utf8_width(c: char) -> (n: usize)
    ensures
        n == width(c),
{
    let u: u32 = c as u32;
    proof {
        char_is_scalar(c);
    }
    if u < 0x80 {
        1
    } else if u < 0x800 {
        2
    } else if u < 0x10000 {
        3
    } else {
        4
    }
}

/// The byte offset of the character of index `k`.
pub fn offset_at(word: &str, k: usize) -> (at: usize)
    requires
        k <= word@.len(),
    ensures
        at == offset_of(word@, k as int),
{
    let mut at: usize = 0;
    let mut seen: usize = 0;
    let total = word.as_bytes().len();
    let mut it = word.chars();
    assert(it.remaining() == word@);
    while seen < k
        invariant
            seen <= k <= word@.len(),
            it.remaining() == word@.skip(seen as int),
            at == offset_of(word@, seen as int),
            total == span(word@),
        decreases k - seen,
    {
        let next = it.next();
        match next {
            Some(c) => {
                proof {
                    lemma_offset_step(word@, seen as int);
                    lemma_offset_bound(word@, seen + 1);
                }
                at = at + utf8_width(c);
                seen = seen + 1;
            },
            None => {
                assert(false);
            },
        }
    }
    at
}

} // verus!
