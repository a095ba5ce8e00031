use hyphenate::case_folding::{fold_into, folds_one_to_one, prepare, realign, unaffected, Shift};

fn shifts_of(text: &str) -> Vec<(usize, isize)> {
    prepare(text).shifts.iter().map(|s| (s.index, s.delta)).collect()
}

#[test]
fn a_lowercase_word_stays_and_has_no_shifts() {
    let prepared = prepare("hyphenation");
    assert_eq!(prepared.word, "hyphenation");
    assert!(prepared.shifts.is_empty());
    for position in 0..12 {
        assert_eq!(realign(position, &prepared.shifts), position);
    }
    assert_eq!(realign(usize::MAX, &prepared.shifts), usize::MAX);
}

#[test]
fn capitals_of_the_same_width_give_no_shifts() {
    let prepared = prepare("HyPHEN");
    assert_eq!(prepared.word, "hyphen");
    assert!(prepared.shifts.is_empty());
    let prepared = prepare("ÉCOLE");
    assert_eq!(prepared.word, "école");
    assert!(prepared.shifts.is_empty());
}

#[test]
fn a_character_that_folds_to_more_bytes_shifts_back() {
    // U+0130 has two bytes; it folds to `i` and U+0307, three bytes.
    let prepared = prepare("\u{130}x");
    assert_eq!(prepared.word, "i\u{307}x");
    // The shift lies behind the `i`: from within what U+0130 folds to, the
    // way leads back to the start of U+0130.
    assert_eq!(shifts_of("\u{130}x"), vec![(1, -1)]);
    assert_eq!(realign(0, &prepared.shifts), 0);
    assert_eq!(realign(1, &prepared.shifts), 0);
    assert_eq!(realign(3, &prepared.shifts), 2);
    assert_eq!(realign(4, &prepared.shifts), 3);
    for at in [0usize, 1, 3, 4] {
        assert!("\u{130}x".is_char_boundary(realign(at, &prepared.shifts)));
    }
}

#[test]
fn a_character_that_folds_to_fewer_bytes_shifts_forth() {
    // The Kelvin sign has three bytes; it folds to `k`.
    let prepared = prepare("\u{212a}m\u{212a}");
    assert_eq!(prepared.word, "kmk");
    assert_eq!(shifts_of("\u{212a}m\u{212a}"), vec![(1, 2), (3, 2)]);
    assert_eq!(realign(0, &prepared.shifts), 0);
    assert_eq!(realign(1, &prepared.shifts), 3);
    assert_eq!(realign(2, &prepared.shifts), 4);
    assert_eq!(realign(3, &prepared.shifts), 7);
}

#[test]
fn shifts_at_or_before_a_position_are_summed() {
    let shifts = vec![
        Shift { index: 3, delta: -1 },
        Shift { index: 7, delta: 2 },
        Shift { index: 7, delta: 1 },
    ];
    assert_eq!(realign(2, &shifts), 2);
    assert_eq!(realign(3, &shifts), 2);
    assert_eq!(realign(6, &shifts), 5);
    assert_eq!(realign(7, &shifts), 9);
    assert_eq!(realign(9, &shifts), 11);
}

#[test]
fn realignment_stays_within_what_an_offset_can_be() {
    let back = vec![Shift { index: 0, delta: -5 }];
    assert_eq!(realign(2, &back), 0);
    assert_eq!(realign(5, &back), 0);
    assert_eq!(realign(6, &back), 1);
    let forth = vec![Shift { index: 0, delta: isize::MAX }, Shift { index: 0, delta: isize::MAX }];
    assert_eq!(realign(10, &forth), usize::MAX);
    let far = vec![Shift { index: 0, delta: isize::MIN }];
    assert_eq!(realign(usize::MAX, &far), usize::MAX - (1usize << (usize::BITS - 1)));
}

#[test]
fn an_empty_text_folds_to_an_empty_word() {
    let prepared = prepare("");
    assert_eq!(prepared.word, "");
    assert!(prepared.shifts.is_empty());
}

#[test]
fn a_character_is_folded_by_its_lowercase_mapping() {
    let mut word = String::from("a");
    let mut shifts: Vec<Shift> = Vec::new();
    fold_into(&mut word, &mut shifts, 'B', "b");
    assert_eq!(word, "ab");
    assert!(shifts.is_empty());
    fold_into(&mut word, &mut shifts, '\u{130}', "i\u{307}");
    assert_eq!(word, "abi\u{307}");
    assert_eq!(shifts.len(), 1);
    assert_eq!((shifts[0].index, shifts[0].delta), (3, -1));
    fold_into(&mut word, &mut shifts, '\u{212a}', "k");
    assert_eq!(word, "abi\u{307}k");
    assert_eq!((shifts[1].index, shifts[1].delta), (6, 2));
    // An empty mapping is not taken: the character stays.
    fold_into(&mut word, &mut shifts, 'Z', "");
    assert_eq!(word, "abi\u{307}kZ");
    assert_eq!(shifts.len(), 2);
    // Three characters for one of three bytes: a shift behind each.
    let mut word = String::new();
    let mut shifts: Vec<Shift> = Vec::new();
    fold_into(&mut word, &mut shifts, '\u{212a}', "a\u{e9}b");
    assert_eq!(word, "a\u{e9}b");
    let all: Vec<(usize, isize)> = shifts.iter().map(|s| (s.index, s.delta)).collect();
    assert_eq!(all, vec![(1, -1), (3, -2), (4, 2)]);
    assert_eq!(realign(0, &shifts), 0);
    assert_eq!(realign(1, &shifts), 0);
    assert_eq!(realign(3, &shifts), 0);
    assert_eq!(realign(4, &shifts), 3);
}

#[test]
fn a_word_can_be_asked_how_it_folds() {
    assert!(unaffected("hyphen"));
    assert!(unaffected(""));
    assert!(!unaffected("Hyphen"));
    assert!(!unaffected("\u{130}"));
    assert!(folds_one_to_one("hyphen"));
    assert!(folds_one_to_one("HYPHEN"));
    assert!(folds_one_to_one("\u{212a}m"));
    assert!(folds_one_to_one(""));
    assert!(!folds_one_to_one("\u{130}x"));
}
