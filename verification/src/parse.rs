use vstd::prelude::*;
use vstd::std_specs::iter::IteratorSpec;
use vstd::utf8::*;
use crate::normalize::{normalize, normalized, Normalization};
use crate::text::{span, utf8_width, width};

verus! {

/// The character that marks a break in a word of an exception list.
pub const HYPHEN: char = '-';

/// The character that stands for the start or the end of a word in a
/// pattern.
pub const ANCHOR: char = '.';

/// `c` is one of the digits `0` to `9`.
pub open spec fn is_digit(c: char) -> bool {
    0x30 <= c as u32 <= 0x39
}

/// The number that the digit `c` stands for.
pub open spec fn digit_value(c: char) -> u8 {
    (c as u32 - 0x30) as u8
}

/// The key of a pattern: the pattern without its digits.
pub open spec fn pattern_key(pattern: Seq<char>) -> Seq<char>
    decreases pattern.len(),
{
    if pattern.len() == 0 {
        Seq::empty()
    } else if is_digit(pattern.last()) {
        pattern_key(pattern.drop_last())
    } else {
        pattern_key(pattern.drop_last()).push(pattern.last())
    }
}

/// The tally of a pattern. There is one gap before the pattern's first
/// letter; each letter adds a gap behind each of its bytes; an anchor adds
/// none. A digit is the score of the gap reached: that behind the letter
/// before it. A gap without a digit scores zero.
pub open spec fn pattern_tally(pattern: Seq<char>) -> Seq<u8>
    decreases pattern.len(),
{
    if pattern.len() == 0 {
        seq![0u8]
    } else {
        let before = pattern_tally(pattern.drop_last());
        let c = pattern.last();
        if is_digit(c) {
            before.update(before.len() - 1, digit_value(c))
        } else if c == ANCHOR {
            before
        } else {
            before + Seq::new(width(c) as nat, |j: int| 0u8)
        }
    }
}

/// The word of a line of an exception list: the line without its hyphens.
pub open spec fn exception_word(line: Seq<char>) -> Seq<char>
    decreases line.len(),
{
    if line.len() == 0 {
        Seq::empty()
    } else if line.last() == HYPHEN {
        exception_word(line.drop_last())
    } else {
        exception_word(line.drop_last()).push(line.last())
    }
}

/// The breaks of a line of an exception list: for each hyphen, the byte
/// offset in the word at which it stood.
pub open spec fn exception_breaks(line: Seq<char>) -> Seq<usize>
    decreases line.len(),
{
    if line.len() == 0 {
        Seq::empty()
    } else if line.last() == HYPHEN {
        exception_breaks(line.drop_last()).push(span(exception_word(line.drop_last())) as usize)
    } else {
        exception_breaks(line.drop_last())
    }
}

/// A pattern never has an empty tally.
pub proof fn lemma_pattern_tally_len(pattern: Seq<char>)
    ensures
        pattern_tally(pattern).len() >= 1,
    decreases pattern.len(),
{
    if pattern.len() > 0 {
        lemma_pattern_tally_len(pattern.drop_last());
    }
}

/// Splits a pattern into its key and its tally.
pub fn parse_pattern(pattern: &str) -> (parsed: (String, Vec<u8>))
    ensures
        parsed.0@ == pattern_key(pattern@),
        parsed.1@ == pattern_tally(pattern@),
{
    let mut key = String::new();
    let mut tally: Vec<u8> = Vec::new();
    tally.push(0);
    let ghost mut seen: int = 0;
    let mut it = pattern.chars();
    loop
        invariant
            0 <= seen <= pattern@.len(),
            it.remaining() == pattern@.skip(seen),
            it.obeys_prophetic_iter_laws(),
            key@ == pattern_key(pattern@.take(seen)),
            tally@ == pattern_tally(pattern@.take(seen)),
        decreases pattern@.len() - seen,
    {
        let next = it.next();
        match next {
            None => {
                proof {
                    assert(pattern@.take(seen) == pattern@);
                }
                return (key, tally);
            },
            Some(c) => {
                proof {
                    assert(pattern@.take(seen + 1).drop_last() == pattern@.take(seen));
                    assert(pattern@.take(seen + 1).last() == c);
                    lemma_pattern_tally_len(pattern@.take(seen));
                }
                let code: u32 = c as u32;
                if 0x30 <= code && code <= 0x39 {
                    let last = tally.len() - 1;
                    tally.set(last, (code - 0x30) as u8);
                } else {
                    key.push(c);
                    if c != ANCHOR {
                        let bytes = utf8_width(c);
                        let ghost before = tally@;
                        let mut k: usize = 0;
                        while k < bytes
                            invariant
                                k <= bytes,
                                tally@ == before + Seq::new(k as nat, |j: int| 0u8),
                            decreases bytes - k,
                        {
                            tally.push(0);
                            assert(tally@ =~= before + Seq::new((k + 1) as nat, |j: int| 0u8));
                            k = k + 1;
                        }
                    }
                }
                proof {
                    seen = seen + 1;
                }
            },
        }
    }
}

/// Splits a line of an exception list into the word and its breaks.
pub fn parse_exception(line: &str) -> (parsed: (String, Vec<usize>))
    ensures
        parsed.0@ == exception_word(line@),
        parsed.1@ == exception_breaks(line@),
{
    let mut word = String::new();
    let mut breaks: Vec<usize> = Vec::new();
    let ghost mut seen: int = 0;
    let mut it = line.chars();
    loop
        invariant
            0 <= seen <= line@.len(),
            it.remaining() == line@.skip(seen),
            it.obeys_prophetic_iter_laws(),
            word@ == exception_word(line@.take(seen)),
            breaks@ == exception_breaks(line@.take(seen)),
        decreases line@.len() - seen,
    {
        let next = it.next();
        match next {
            None => {
                proof {
                    assert(line@.take(seen) == line@);
                }
                return (word, breaks);
            },
            Some(c) => {
                proof {
                    assert(line@.take(seen + 1).drop_last() == line@.take(seen));
                    assert(line@.take(seen + 1).last() == c);
                }
                if c == HYPHEN {
                    breaks.push(word.as_str().as_bytes().len());
                } else {
                    word.push(c);
                }
                proof {
                    seen = seen + 1;
                }
            },
        }
    }
}

/// The key and the tally of a pattern as a source file has it, brought to
/// the given form first.
pub fn pattern_pair(pattern: &str, form: Normalization) -> (pair: (String, Vec<u8>))
    ensures
        pair.0@ == pattern_key(normalized(form, pattern@)),
        pair.1@ == pattern_tally(normalized(form, pattern@)),
{
    let normal = normalize(form, pattern);
    parse_pattern(normal.as_str())
}

/// The word and the breaks of a line of an exception list as a source file
/// has it, brought to the given form first.
pub fn exception_pair(line: &str, form: Normalization) -> (pair: (String, Vec<usize>))
    ensures
        pair.0@ == exception_word(normalized(form, line@)),
        pair.1@ == exception_breaks(normalized(form, line@)),
{
    let normal = normalize(form, line);
    parse_exception(normal.as_str())
}

} // verus!
