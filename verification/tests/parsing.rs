use hyphenate::normalize::{normalize, Normalization};
use hyphenate::parse::{exception_pair, parse_exception, parse_pattern, pattern_pair};

#[test]
fn a_pattern_splits_into_key_and_tally() {
    assert_eq!(parse_pattern("hy3ph"), ("hyph".to_string(), vec![0, 0, 3, 0, 0]));
    assert_eq!(parse_pattern("ab1"), ("ab".to_string(), vec![0, 0, 1]));
    assert_eq!(parse_pattern("1ab"), ("ab".to_string(), vec![1, 0, 0]));
    assert_eq!(parse_pattern("a2b"), ("ab".to_string(), vec![0, 2, 0]));
    assert_eq!(parse_pattern("4a3b2c1"), ("abc".to_string(), vec![4, 3, 2, 1]));
    assert_eq!(parse_pattern("abc"), ("abc".to_string(), vec![0, 0, 0, 0]));
}

#[test]
fn an_anchor_is_part_of_the_key_and_has_no_gap() {
    assert_eq!(parse_pattern(".a2b"), (".ab".to_string(), vec![0, 2, 0]));
    assert_eq!(parse_pattern(".2ab"), (".ab".to_string(), vec![2, 0, 0]));
    assert_eq!(parse_pattern("a1b."), ("ab.".to_string(), vec![0, 1, 0]));
    assert_eq!(parse_pattern("ab3."), ("ab.".to_string(), vec![0, 0, 3]));
    assert_eq!(parse_pattern("."), (".".to_string(), vec![0]));
}

#[test]
fn a_letter_of_several_bytes_has_a_gap_behind_each_byte() {
    assert_eq!(parse_pattern("é1a"), ("éa".to_string(), vec![0, 0, 1, 0]));
    assert_eq!(parse_pattern("1é"), ("é".to_string(), vec![1, 0, 0]));
}

#[test]
fn of_two_digits_for_one_gap_the_second_counts() {
    assert_eq!(parse_pattern("a12b"), ("ab".to_string(), vec![0, 2, 0]));
    assert_eq!(parse_pattern(""), ("".to_string(), vec![0]));
    assert_eq!(parse_pattern("7"), ("".to_string(), vec![7]));
}

#[test]
fn an_exception_splits_into_word_and_breaks() {
    assert_eq!(parse_exception("as-so-ciate"), ("associate".to_string(), vec![2, 4]));
    assert_eq!(parse_exception("table"), ("table".to_string(), vec![]));
    assert_eq!(parse_exception("ca-fé-s"), ("cafés".to_string(), vec![2, 5]));
    assert_eq!(parse_exception("-a--b-"), ("ab".to_string(), vec![0, 1, 1, 2]));
    assert_eq!(parse_exception(""), ("".to_string(), vec![]));
}

#[test]
fn text_is_brought_to_the_form_chosen() {
    assert_eq!(normalize(Normalization::Verbatim, "e\u{301}"), "e\u{301}");
    assert_eq!(normalize(Normalization::Nfc, "e\u{301}"), "\u{e9}");
    assert_eq!(normalize(Normalization::Nfd, "\u{e9}"), "e\u{301}");
    assert_eq!(normalize(Normalization::Nfkc, "\u{fb01}e\u{301}"), "fi\u{e9}");
    assert_eq!(normalize(Normalization::Nfkd, "\u{fb01}\u{e9}"), "fie\u{301}");
    assert_eq!(normalize(Normalization::Nfc, "\u{fb01}"), "\u{fb01}");
    assert_eq!(normalize(Normalization::Nfd, "\u{fb01}"), "\u{fb01}");
}

#[test]
fn a_pattern_is_normalized_before_it_is_split() {
    assert_eq!(
        pattern_pair("e\u{301}1a", Normalization::Nfc),
        ("\u{e9}a".to_string(), vec![0, 0, 1, 0])
    );
    assert_eq!(
        pattern_pair("e\u{301}1a", Normalization::Verbatim),
        ("e\u{301}a".to_string(), vec![0, 0, 0, 1, 0])
    );
    assert_eq!(
        exception_pair("caf-e\u{301}", Normalization::Nfc),
        ("caf\u{e9}".to_string(), vec![3])
    );
}
