use hyphenate::exceptions::Exceptions;
use hyphenate::hyphenator::{denotes_opportunity, window_of};
use hyphenate::text::{offset_at, utf8_width};
use hyphenate::{soft_hyphen_indices, BuildError, Extended, ExtendedTally, Hyphenator, Patterns, Standard, Subregion, Word};

fn standard(patterns: &[(&str, &[u8])], minima: (usize, usize)) -> Standard {
    let entries: Vec<(String, Vec<u8>)> =
        patterns.iter().map(|p| (p.0.to_string(), p.1.to_vec())).collect();
    Standard {
        language: "und".to_string(),
        patterns: Patterns::try_from_iter(&entries).unwrap(),
        exceptions: Exceptions::new(),
        minima,
    }
}

fn region(substitution: &str) -> Subregion {
    Subregion { left: 1, right: 2, substitution: substitution.to_string(), breakpoint: 1 }
}

fn extended(minima: (usize, usize)) -> Extended {
    let entries = vec![
        (
            "abc".to_string(),
            ExtendedTally { scores: vec![0, 0, 1, 0], subregion: Some((2, region("bbc"))) },
        ),
        ("cd".to_string(), ExtendedTally { scores: vec![0, 1, 0], subregion: None }),
        (
            "de".to_string(),
            ExtendedTally { scores: vec![0, 2, 0], subregion: Some((1, region("dde"))) },
        ),
    ];
    Extended {
        language: "und".to_string(),
        patterns: Patterns::try_from_iter(&entries).unwrap(),
        exceptions: Exceptions::new(),
        minima,
    }
}

fn places(breaks: &[(usize, Option<&Subregion>)]) -> Vec<usize> {
    breaks.iter().map(|b| b.0).collect()
}

#[test]
fn soft_hyphens_are_found_at_their_byte_offsets() {
    assert_eq!(soft_hyphen_indices("co\u{ad}op\u{ad}erate"), Some(vec![2, 6]));
    assert_eq!(soft_hyphen_indices("\u{ad}"), Some(vec![0]));
    assert_eq!(soft_hyphen_indices("é\u{ad}é\u{ad}"), Some(vec![2, 6]));
    assert_eq!(soft_hyphen_indices("cooperate"), None);
    assert_eq!(soft_hyphen_indices(""), None);
    assert_eq!(soft_hyphen_indices("co-operate"), None);
}

#[test]
fn soft_hyphens_decide_alone() {
    let mut dict = standard(&[("oo", &[0, 1, 0])], (2, 3));
    dict.add_exact("coo\u{ad}perate".to_string(), vec![5]);
    dict.add_exact("cooperate".to_string(), vec![5]);
    let word = dict.hyphenate("coo\u{ad}perate");
    assert_eq!(word.text, "coo\u{ad}perate");
    assert_eq!(word.breaks, vec![3]);
    // Not even the margins count.
    assert_eq!(dict.hyphenate("\u{ad}ab").breaks, vec![0]);
    assert_eq!(dict.hyphenate("cooperate").breaks, vec![5]);
    assert_eq!(dict.hyphenate("cooperates").breaks, vec![2]);
}

#[test]
fn known_breaks_come_before_found_ones() {
    let mut dict = standard(&[("af", &[0, 1, 0])], (1, 1));
    assert_eq!(dict.hyphenate("café").breaks, vec![2]);
    assert_eq!(dict.add_exact("café".to_string(), vec![3]), None);
    assert_eq!(dict.hyphenate("café").breaks, vec![3]);
    assert_eq!(dict.opportunities("café"), vec![3]);
    assert_eq!(dict.exact_within("café", (0, 5)), Some(vec![3]));
    assert_eq!(dict.exact_within("cafe", (0, 5)), None);
    // The patterns still say what they said.
    assert_eq!(dict.opportunities_within("café", (1, 3)), vec![2]);
}

#[test]
fn known_breaks_are_kept_within_the_margins_and_as_given() {
    let mut dict = standard(&[], (2, 2));
    assert_eq!(dict.add_exact("hello".to_string(), vec![1, 2, 4]), None);
    assert_eq!(dict.boundaries("hello"), Some((2, 3)));
    assert_eq!(dict.hyphenate("hello").breaks, vec![2]);
    assert_eq!(dict.add_exact("hello".to_string(), vec![3, 2, 3, 9]), Some(vec![1, 2, 4]));
    assert_eq!(dict.hyphenate("hello").breaks, vec![3, 2, 3]);
    assert_eq!(dict.add_exact("hello".to_string(), vec![]), Some(vec![3, 2, 3, 9]));
    assert_eq!(dict.hyphenate("hello").breaks, Vec::<usize>::new());
    // Too short a word has no breaks, known or not.
    dict.add_exact("abc".to_string(), vec![1, 2]);
    assert_eq!(dict.hyphenate("abc").breaks, Vec::<usize>::new());
}

#[test]
fn adding_known_breaks_leaves_the_rest_alone() {
    let mut dict = standard(&[("ab", &[0, 1, 0])], (1, 1));
    dict.add_exact("abab".to_string(), vec![2]);
    assert_eq!(dict.language, "und");
    assert_eq!(dict.minima, (1, 1));
    assert_eq!(dict.patterns.tallies(), &vec![vec![0u8, 1, 0]]);
    assert_eq!(dict.opportunities_within("abab", (1, 3)), vec![1, 3]);
    assert_eq!(dict.hyphenate("ab").breaks, vec![1]);
    let mut dict = extended((1, 2));
    dict.add_exact("abcde".to_string(), vec![(2, None)]);
    assert_eq!(dict.language, "und");
    assert_eq!(dict.minima, (1, 2));
    assert_eq!(dict.patterns.tallies().len(), 3);
    assert_eq!(places(&dict.opportunities_within("abcde", (1, 3))), vec![2, 3]);
}

#[test]
fn a_known_word_is_found_in_any_case() {
    let mut dict = standard(&[], (1, 1));
    dict.add_exact("table".to_string(), vec![2]);
    assert_eq!(dict.hyphenate("TABLE").breaks, vec![2]);
    assert_eq!(dict.hyphenate("Table").text, "Table");
    // But it is looked up as it folds: an entry with a capital is never met.
    dict.add_exact("Chair".to_string(), vec![2]);
    assert_eq!(dict.hyphenate("Chair").breaks, Vec::<usize>::new());
}

#[test]
fn breaks_are_led_back_to_the_original() {
    let dict = standard(&[("ab", &[0, 1, 0])], (1, 1));
    assert_eq!(dict.hyphenate("AB").breaks, vec![1]);
    // The Kelvin sign has three bytes and folds to one.
    let word = dict.hyphenate("\u{212a}AB");
    assert_eq!(word.text, "\u{212a}AB");
    assert_eq!(word.breaks, vec![4]);
    assert!(word.text.is_char_boundary(4));
    // U+0130 has two bytes and folds to three.
    assert_eq!(dict.hyphenate("\u{130}AB").breaks, vec![3]);
}

#[test]
fn a_break_within_what_a_character_folds_to_leads_to_its_start() {
    // U+0130 folds to `i` and U+0307; the pattern breaks between the two.
    let dict = standard(&[("i", &[0, 1])], (1, 1));
    let text = "\u{130}x";
    let word = dict.hyphenate(text);
    assert_eq!(word.breaks, vec![0]);
    for at in &word.breaks {
        assert!(text.is_char_boundary(*at));
    }
    let mut dict = standard(&[], (1, 1));
    dict.add_exact("i\u{307}x".to_string(), vec![1]);
    assert_eq!(dict.hyphenate(text).breaks, vec![0]);
    let text = "a\u{130}\u{130}x";
    let dict = standard(&[("i", &[0, 1]), ("x", &[1, 0])], (1, 1));
    let word = dict.hyphenate(text);
    assert_eq!(word.breaks, vec![1, 3, 5]);
    for at in &word.breaks {
        assert!(text.is_char_boundary(*at));
    }
}

#[test]
fn breaks_that_lead_to_one_place_are_given_once() {
    // Before the `i` and behind it: both lead to the start of U+0130.
    let dict = standard(&[("i", &[1, 1]), ("x", &[1, 0])], (0, 0));
    let word = dict.hyphenate("\u{130}x");
    assert_eq!(dict.opportunities("i\u{307}x"), vec![0, 1, 3]);
    assert_eq!(word.breaks, vec![0, 2]);
    // Without shifts nothing is left out: known breaks come as they are.
    let mut dict = standard(&[], (0, 0));
    dict.add_exact("abc".to_string(), vec![1, 1, 2]);
    assert_eq!(dict.hyphenate("abc").breaks, vec![1, 1, 2]);
    // With shifts, a known break that repeats the one before it is left out.
    dict.add_exact("kbc".to_string(), vec![1, 1, 2]);
    assert_eq!(dict.hyphenate("\u{212a}bc").breaks, vec![3, 4]);
    let dict = extended((1, 1));
    let word = dict.hyphenate("\u{130}abcde");
    assert_eq!(places(&word.breaks), vec![4, 5]);
    assert_eq!(word.breaks[0].1.map(|r| r.substitution.as_str()), Some("bbc"));
}

#[test]
fn breaks_ascend_and_keep_the_margins() {
    let dict = standard(
        &[("a", &[1, 1]), ("é", &[1, 0, 1]), ("n", &[1, 1]), ("x", &[1, 1])],
        (2, 3),
    );
    let text = "xanÉxanéx";
    let word = dict.hyphenate(text);
    assert_eq!(word.breaks, vec![2, 3, 5, 6, 7]);
    let total = text.chars().count();
    for pair in word.breaks.windows(2) {
        assert!(pair[0] < pair[1]);
    }
    for at in &word.breaks {
        assert!(text.is_char_boundary(*at));
        let before = text[..*at].chars().count();
        assert!(before >= 2);
        assert!(before <= total - 3);
    }
}

#[test]
fn the_window_lies_behind_and_before_the_margins() {
    assert_eq!(window_of("café", (1, 1)), Some((1, 3)));
    assert_eq!(window_of("café", (2, 2)), Some((2, 2)));
    assert_eq!(window_of("café", (2, 3)), None);
    assert_eq!(window_of("café", (0, 0)), Some((0, 5)));
    assert_eq!(window_of("café", (4, 0)), Some((5, 5)));
    assert_eq!(window_of("café", (0, 4)), Some((0, 0)));
    assert_eq!(window_of("éé", (1, 1)), Some((2, 2)));
    assert_eq!(window_of("", (0, 0)), Some((0, 0)));
    assert_eq!(window_of("", (1, 0)), None);
    assert_eq!(window_of("ab", (usize::MAX, usize::MAX)), None);
    assert_eq!(window_of("ab", (usize::MAX, 1)), None);
}

#[test]
fn characters_are_measured_in_bytes() {
    assert_eq!(utf8_width('a'), 1);
    assert_eq!(utf8_width('\u{7f}'), 1);
    assert_eq!(utf8_width('\u{80}'), 2);
    assert_eq!(utf8_width('é'), 2);
    assert_eq!(utf8_width('\u{7ff}'), 2);
    assert_eq!(utf8_width('\u{800}'), 3);
    assert_eq!(utf8_width('\u{212a}'), 3);
    assert_eq!(utf8_width('\u{ffff}'), 3);
    assert_eq!(utf8_width('\u{10000}'), 4);
    assert_eq!(utf8_width('\u{10ffff}'), 4);
    assert_eq!(offset_at("aé\u{212a}\u{10000}z", 0), 0);
    assert_eq!(offset_at("aé\u{212a}\u{10000}z", 1), 1);
    assert_eq!(offset_at("aé\u{212a}\u{10000}z", 2), 3);
    assert_eq!(offset_at("aé\u{212a}\u{10000}z", 3), 6);
    assert_eq!(offset_at("aé\u{212a}\u{10000}z", 4), 10);
    assert_eq!(offset_at("aé\u{212a}\u{10000}z", 5), 11);
}

#[test]
fn odd_scores_speak_for_a_break() {
    assert!(!denotes_opportunity(0));
    assert!(denotes_opportunity(1));
    assert!(!denotes_opportunity(2));
    assert!(denotes_opportunity(9));
    assert!(denotes_opportunity(255));
}

#[test]
fn the_margins_are_those_of_the_dictionary() {
    let dict = standard(&[], (2, 3));
    assert_eq!(dict.unbreakable_chars(), (2, 3));
    assert_eq!(extended((1, 4)).unbreakable_chars(), (1, 4));
}

#[test]
fn a_word_compares_by_text_and_breaks() {
    let dict = standard(&[("ab", &[0, 1, 0])], (1, 1));
    assert_eq!(dict.hyphenate("ab"), Word { text: "ab", breaks: vec![1] });
    assert_ne!(dict.hyphenate("ab"), Word { text: "ab", breaks: vec![] });
}

#[test]
fn an_extended_break_carries_its_change_of_spelling() {
    let dict = extended((1, 1));
    let word = dict.hyphenate("abcde");
    assert_eq!(places(&word.breaks), vec![2, 3]);
    assert_eq!(word.breaks[0].1.map(|r| r.substitution.as_str()), Some("bbc"));
    assert_eq!(word.breaks[0].1.map(|r| (r.left, r.right, r.breakpoint)), Some((1, 2, 1)));
    // The score at 3 comes from `cd`, which has no change of spelling.
    assert!(word.breaks[1].1.is_none());
    // The 2 of `de` at 4 is even: no break, whatever it carries.
    let scores: Vec<u8> = dict.score("abcde").iter().map(|g| g.score).collect();
    assert_eq!(scores, vec![0, 0, 1, 1, 2, 0]);
    assert_eq!(places(&dict.opportunities_within("abcde", (3, 5))), vec![3]);
    assert_eq!(places(&dict.hyphenate("ABCDE").breaks), vec![2, 3]);
}

#[test]
fn a_change_of_spelling_goes_with_its_own_gap_only() {
    let entries = vec![(
        "ab".to_string(),
        ExtendedTally { scores: vec![1, 1, 1], subregion: Some((1, region("xy"))) },
    )];
    let dict = Extended {
        language: "und".to_string(),
        patterns: Patterns::try_from_iter(&entries).unwrap(),
        exceptions: Exceptions::new(),
        minima: (0, 0),
    };
    let word = dict.hyphenate("ab");
    assert_eq!(places(&word.breaks), vec![0, 1, 2]);
    assert!(word.breaks[0].1.is_none());
    assert_eq!(word.breaks[1].1.map(|r| r.substitution.as_str()), Some("xy"));
    assert!(word.breaks[2].1.is_none());
}

#[test]
fn extended_soft_hyphens_and_known_breaks() {
    let mut dict = extended((1, 1));
    let word = dict.hyphenate("ab\u{ad}cde");
    assert_eq!(places(&word.breaks), vec![2]);
    assert!(word.breaks[0].1.is_none());
    let previous = dict.add_exact("abcde".to_string(), vec![(0, None), (1, Some(region("q"))), (4, None)]);
    assert!(previous.is_none());
    {
        let word = dict.hyphenate("abcde");
        assert_eq!(places(&word.breaks), vec![1, 4]);
        assert_eq!(word.breaks[0].1.map(|r| r.substitution.as_str()), Some("q"));
        assert!(word.breaks[1].1.is_none());
        assert_eq!(places(&dict.exact_within("abcde", (0, 0)).unwrap()), vec![0]);
        assert!(dict.exact_within("abcd", (0, 9)).is_none());
    }
    let previous = dict.add_exact("abcde".to_string(), vec![]).unwrap();
    assert_eq!(previous.len(), 3);
    assert_eq!(previous[1].0, 1);
    assert_eq!(previous[1].1.as_ref().map(|r| r.substitution.as_str()), Some("q"));
    assert!(dict.hyphenate("abcde").breaks.is_empty());
}

#[test]
fn extended_tallies_are_stored_once() {
    let entries = vec![
        ("a".to_string(), ExtendedTally { scores: vec![0, 1], subregion: Some((1, region("x"))) }),
        ("b".to_string(), ExtendedTally { scores: vec![0, 1], subregion: Some((1, region("x"))) }),
        ("c".to_string(), ExtendedTally { scores: vec![0, 1], subregion: Some((1, region("y"))) }),
        ("d".to_string(), ExtendedTally { scores: vec![0, 1], subregion: Some((0, region("x"))) }),
        ("e".to_string(), ExtendedTally { scores: vec![0, 1], subregion: None }),
    ];
    let patterns = Patterns::try_from_iter(&entries).unwrap();
    assert_eq!(patterns.tallies().len(), 4);
    assert_eq!(patterns.starts(b"a"), vec![(1, 0)]);
    assert_eq!(patterns.starts(b"b"), vec![(1, 0)]);
    assert_eq!(patterns.starts(b"c"), vec![(1, 1)]);
    assert_eq!(patterns.starts(b"d"), vec![(1, 2)]);
    assert_eq!(patterns.starts(b"e"), vec![(1, 3)]);
}

#[test]
fn a_table_of_exceptions_keeps_what_came_last() {
    let entries = vec![
        ("a".to_string(), vec![1usize]),
        ("b".to_string(), vec![2usize]),
        ("a".to_string(), vec![3usize]),
    ];
    let built: Result<Exceptions<usize>, BuildError> = Exceptions::try_from_iter(entries);
    let mut table = built.unwrap();
    assert_eq!(table.get("a"), Some(&vec![3usize]));
    assert_eq!(table.get("b"), Some(&vec![2usize]));
    assert_eq!(table.get("c"), None);
    table.set("c".to_string(), vec![]);
    assert_eq!(table.get("c"), Some(&vec![]));
    let empty: Exceptions<usize> = Exceptions::new();
    assert_eq!(empty.get("a"), None);
}
