use hyphenate::exceptions::Exceptions;
use hyphenate::hyphenator::Hyphenator;
use hyphenate::patterns::Patterns;
use hyphenate::score::score_gaps;
use hyphenate::standard::Standard;

fn dictionary(patterns: &[(&str, &[u8])], minima: (usize, usize)) -> Standard {
    let entries: Vec<(String, Vec<u8>)> =
        patterns.iter().map(|p| (p.0.to_string(), p.1.to_vec())).collect();
    Standard {
        language: "und".to_string(),
        patterns: Patterns::try_from_iter(&entries).unwrap(),
        exceptions: Exceptions::new(),
        minima,
    }
}

fn scores(dict: &Standard, word: &str) -> Vec<u8> {
    dict.score(word).iter().map(|gap| gap.score).collect()
}

#[test]
fn a_word_as_long_as_its_margins_gets_no_break_from_these_patterns() {
    let dict = dictionary(&[("ab", &[0, 0, 1]), (".ab", &[2, 0, 0])], (1, 1));
    assert_eq!(scores(&dict, "ab"), vec![2, 0, 1]);
    assert_eq!(dict.hyphenate("ab").breaks, Vec::<usize>::new());
    assert_eq!(dict.opportunities("ab"), Vec::<usize>::new());
}

#[test]
fn without_margins_the_odd_gap_at_the_end_is_a_break() {
    let dict = dictionary(&[("ab", &[0, 0, 1]), (".ab", &[2, 0, 0])], (0, 0));
    assert_eq!(scores(&dict, "ab"), vec![2, 0, 1]);
    let word = dict.hyphenate("ab");
    assert_eq!(word.text, "ab");
    assert_eq!(word.breaks, vec![2]);
}

#[test]
fn a_word_shorter_than_its_margins_is_not_hyphenated() {
    let dict = dictionary(&[("a", &[1, 1])], (1, 2));
    assert_eq!(dict.boundaries("ab"), None);
    assert_eq!(dict.hyphenate("ab").breaks, Vec::<usize>::new());
    assert_eq!(dict.boundaries("abc"), Some((1, 1)));
}

#[test]
fn where_patterns_disagree_the_greater_score_stays() {
    // Both keys lie over the gap between `b` and `c`.
    let dict = dictionary(&[("abc", &[0, 0, 3, 0]), ("bc", &[0, 4, 0])], (1, 1));
    assert_eq!(scores(&dict, "abc"), vec![0, 0, 4, 0]);
    assert_eq!(dict.hyphenate("abc").breaks, Vec::<usize>::new());
    let dict = dictionary(&[("abc", &[0, 0, 5, 0]), ("bc", &[0, 4, 0])], (1, 1));
    assert_eq!(scores(&dict, "abc"), vec![0, 0, 5, 0]);
    assert_eq!(dict.hyphenate("abc").breaks, vec![2]);
    // The order in which the patterns were given does not matter.
    let dict = dictionary(&[("bc", &[0, 4, 0]), ("abc", &[0, 0, 5, 0])], (1, 1));
    assert_eq!(scores(&dict, "abc"), vec![0, 0, 5, 0]);
    // Nor is anything added up.
    let dict = dictionary(&[("bc", &[0, 1, 0]), ("abc", &[0, 0, 1, 0]), ("c", &[1, 0])], (1, 1));
    assert_eq!(scores(&dict, "abc"), vec![0, 0, 1, 0]);
}

#[test]
fn a_score_comes_from_the_first_pattern_that_gives_it() {
    let dict = dictionary(&[("bc", &[0, 3, 0]), ("abc", &[0, 0, 3, 0])], (1, 1));
    let gaps = dict.score("abc");
    // `abc` starts before `bc`, so it is the first to give the 3.
    assert_eq!(gaps[2].score, 3);
    assert_eq!(gaps[2].source, Some((1u16, 2usize)));
    assert_eq!(gaps[0].source, None);
    assert_eq!(gaps[1].score, 0);
    assert_eq!(gaps[1].source, None);
}

#[test]
fn anchors_hold_a_pattern_to_the_start_and_the_end() {
    let dict = dictionary(&[(".ab", &[0, 1, 0]), ("ab.", &[0, 3, 0])], (1, 1));
    assert_eq!(scores(&dict, "abab"), vec![0, 1, 0, 3, 0]);
    assert_eq!(scores(&dict, "xabx"), vec![0, 0, 0, 0, 0]);
    assert_eq!(dict.hyphenate("abab").breaks, vec![1, 3]);
}

#[test]
fn a_pattern_scores_wherever_its_key_stands() {
    let dict = dictionary(&[("an", &[0, 1, 0]), ("na", &[0, 2, 1])], (1, 1));
    // b a n a n a: `an` at 1 and 3, `na` at 2 and 4.
    assert_eq!(scores(&dict, "banana"), vec![0, 0, 1, 2, 1, 2, 1]);
    assert_eq!(dict.hyphenate("banana").breaks, vec![2, 4]);
    assert_eq!(dict.opportunities_within("banana", (0, 6)), vec![2, 4, 6]);
    assert_eq!(dict.opportunities_within("banana", (3, 4)), vec![4]);
}

#[test]
fn scores_beyond_the_word_are_dropped() {
    let dict = dictionary(&[("a", &[1, 1, 1, 1, 1])], (0, 0));
    assert_eq!(scores(&dict, "a"), vec![1, 1]);
    assert_eq!(scores(&dict, "ba"), vec![0, 1, 1]);
}

#[test]
fn an_empty_word_has_one_gap_and_no_break() {
    let dict = dictionary(&[("a", &[1, 1])], (0, 0));
    assert_eq!(scores(&dict, ""), vec![0]);
    assert_eq!(dict.hyphenate("").breaks, Vec::<usize>::new());
    let dict = dictionary(&[("", &[1])], (0, 0));
    assert_eq!(scores(&dict, ""), vec![1]);
    assert_eq!(dict.hyphenate("").breaks, Vec::<usize>::new());
    assert_eq!(dict.opportunities(""), Vec::<usize>::new());
    assert_eq!(dict.opportunities_within("", (0, 0)), Vec::<usize>::new());
    assert_eq!(dict.opportunities_within("", (0, usize::MAX)), Vec::<usize>::new());
    assert_eq!(scores(&dict, "ab"), vec![1, 1, 1]);
    assert_eq!(dict.hyphenate("ab").breaks, vec![0, 1, 2]);
    // A key of the boundary mark alone scores the one gap of the empty word.
    let dict = dictionary(&[(".", &[1])], (0, 0));
    assert_eq!(scores(&dict, ""), vec![1]);
    assert_eq!(dict.boundaries(""), Some((0, 0)));
    assert_eq!(dict.opportunities_within("", (0, 0)), Vec::<usize>::new());
    assert_eq!(dict.opportunities(""), Vec::<usize>::new());
    assert_eq!(dict.hyphenate("").breaks, Vec::<usize>::new());
}

#[test]
fn a_word_of_boundary_marks_alone_has_no_break() {
    let dict = dictionary(&[(".", &[1]), ("", &[1])], (0, 0));
    assert_eq!(scores(&dict, ".."), vec![1, 1, 1]);
    assert_eq!(dict.hyphenate("..").breaks, Vec::<usize>::new());
    assert_eq!(dict.hyphenate(".").breaks, Vec::<usize>::new());
    assert_eq!(dict.opportunities_within("...", (0, 3)), Vec::<usize>::new());
    assert_eq!(dict.hyphenate(".a").breaks, vec![0, 1, 2]);
}

#[test]
fn a_zero_byte_in_a_word_hides_no_pattern_and_makes_none() {
    let dict = dictionary(&[("a", &[0, 1])], (0, 0));
    assert_eq!(scores(&dict, "\0a"), vec![0, 0, 1]);
    assert_eq!(dict.hyphenate("\0a").breaks, vec![2]);
    assert_eq!(scores(&dict, "a\0a\0"), vec![0, 1, 0, 1, 0]);
    assert_eq!(dict.hyphenate("a\0a\0").breaks, vec![1, 3]);
    assert_eq!(scores(&dict, "\0\0"), vec![0, 0, 0]);
}

#[test]
fn no_break_falls_inside_a_character() {
    // The key is the first byte of `é`, the gap behind it lies inside `é`.
    let entries = vec![("c".to_string(), vec![0u8, 1]), ("af".to_string(), vec![0u8, 1, 1])];
    let patterns = Patterns::try_from_iter(&entries).unwrap();
    let dict = Standard {
        language: "und".to_string(),
        patterns,
        exceptions: Exceptions::new(),
        minima: (1, 1),
    };
    assert_eq!(scores(&dict, "café"), vec![0, 1, 1, 1, 0, 0]);
    assert_eq!(dict.boundaries("café"), Some((1, 3)));
    assert_eq!(dict.hyphenate("café").breaks, vec![1, 2, 3]);
    let gaps = score_gaps(&dict.patterns, &[0x61, 0xc3, 0xa9]);
    assert_eq!(gaps.len(), 4);
}
