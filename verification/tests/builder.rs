use hyphenate::keys::{order_of, Order};
use hyphenate::patterns::{BuildError, Patterns};
use hyphenate::uniques::uniques;

fn entry(key: &str, tally: &[u8]) -> (String, Vec<u8>) {
    (key.to_string(), tally.to_vec())
}

#[test]
fn equal_tallies_are_stored_once() {
    let entries = vec![entry("b", &[0, 1, 0]), entry("a", &[0, 1, 0]), entry("c", &[1, 0])];
    let (pairs, rows) = uniques(&entries).unwrap();
    assert_eq!(rows, vec![vec![0u8, 1, 0], vec![1u8, 0]]);
    assert_eq!(
        pairs,
        vec![("a".to_string(), 0u16), ("b".to_string(), 0u16), ("c".to_string(), 1u16)]
    );
}

#[test]
fn of_two_patterns_with_one_key_the_first_counts() {
    let entries = vec![entry("a", &[1]), entry("a", &[2]), entry("b", &[2])];
    let (pairs, rows) = uniques(&entries).unwrap();
    assert_eq!(rows, vec![vec![1u8], vec![2u8]]);
    assert_eq!(pairs, vec![("a".to_string(), 0u16), ("b".to_string(), 1u16)]);
}

#[test]
fn keys_ascend_byte_by_byte() {
    let entries = vec![
        entry("b", &[0]),
        entry("ab", &[1]),
        entry("é", &[2]),
        entry("a", &[3]),
        entry(".a", &[4]),
        entry("", &[5]),
    ];
    let (pairs, rows) = uniques(&entries).unwrap();
    let keys: Vec<&str> = pairs.iter().map(|p| p.0.as_str()).collect();
    assert_eq!(keys, vec!["", ".a", "a", "ab", "b", "é"]);
    let ids: Vec<u16> = pairs.iter().map(|p| p.1).collect();
    assert_eq!(ids, vec![5, 4, 3, 1, 0, 2]);
    assert_eq!(rows.len(), 6);
}

#[test]
fn no_patterns_compile_to_nothing() {
    let entries: Vec<(String, Vec<u8>)> = Vec::new();
    let (pairs, rows) = uniques(&entries).unwrap();
    assert!(pairs.is_empty());
    assert!(rows.is_empty());
    let patterns = Patterns::try_from_iter(&entries).unwrap();
    assert!(patterns.starts(b"abc").is_empty());
    assert!(patterns.tallies().is_empty());
}

#[test]
fn the_index_finds_the_keys_that_a_run_starts_with() {
    let entries = vec![
        entry("abd", &[9]),
        entry("ab", &[0, 1, 0]),
        entry("a", &[0, 1]),
        entry("b", &[0, 1]),
        entry("abcde", &[7]),
    ];
    let patterns = Patterns::try_from_iter(&entries).unwrap();
    assert_eq!(
        patterns.tallies(),
        &vec![vec![9u8], vec![0u8, 1, 0], vec![0u8, 1], vec![7u8]]
    );
    assert_eq!(patterns.starts(b"abcd"), vec![(1usize, 2u16), (2usize, 1u16)]);
    assert_eq!(patterns.starts(b"abcde"), vec![(1usize, 2u16), (2usize, 1u16), (5usize, 3u16)]);
    assert_eq!(patterns.starts(b"b"), vec![(1usize, 2u16)]);
    assert_eq!(patterns.starts(b"x"), Vec::<(usize, u16)>::new());
    assert_eq!(patterns.starts(b""), Vec::<(usize, u16)>::new());
}

#[test]
fn the_empty_key_is_found_at_every_start() {
    let entries = vec![entry("", &[3]), entry("a", &[0, 1])];
    let patterns = Patterns::try_from_iter(&entries).unwrap();
    assert_eq!(patterns.starts(b"a"), vec![(0usize, 0u16), (1usize, 1u16)]);
    assert_eq!(patterns.starts(b"zz"), vec![(0usize, 0u16)]);
}

#[test]
fn pairs_out_of_order_are_refused() {
    let pairs = vec![("b".to_string(), 0u16), ("a".to_string(), 0u16)];
    let built = Patterns::<Vec<u8>>::from_uniques(&pairs, vec![vec![1u8]]);
    assert!(matches!(built, Err(BuildError::Index(_))));
}

#[test]
fn pairs_with_a_key_twice_are_refused() {
    let pairs = vec![("a".to_string(), 0u16), ("a".to_string(), 0u16)];
    let built = Patterns::<Vec<u8>>::from_uniques(&pairs, vec![vec![1u8]]);
    assert!(matches!(built, Err(BuildError::Index(_))));
}

#[test]
fn a_key_with_a_zero_byte_is_refused() {
    let pairs = vec![("a".to_string(), 0u16), ("b\0c".to_string(), 0u16)];
    let built = Patterns::<Vec<u8>>::from_uniques(&pairs, vec![vec![1u8]]);
    assert!(matches!(built, Err(BuildError::NulInKey)));
    // Also where the keys are out of order besides.
    let pairs = vec![("b\0".to_string(), 0u16), ("a".to_string(), 0u16)];
    let built = Patterns::<Vec<u8>>::from_uniques(&pairs, vec![vec![1u8]]);
    assert!(matches!(built, Err(BuildError::NulInKey)));
    let entries = vec![entry("a", &[0, 1]), entry("\0", &[1, 0]), entry("b", &[2])];
    assert!(matches!(Patterns::try_from_iter(&entries), Err(BuildError::NulInKey)));
    let entries = vec![entry("a", &[0, 1]), entry("b", &[2])];
    assert!(Patterns::try_from_iter(&entries).is_ok());
}

#[test]
fn a_query_is_followed_up_to_its_first_zero_byte() {
    let entries = vec![entry("a", &[0, 1]), entry("ab", &[2])];
    let patterns = Patterns::try_from_iter(&entries).unwrap();
    assert_eq!(patterns.starts(&[0, 0x61]), Vec::<(usize, u16)>::new());
    assert_eq!(patterns.starts(&[0, 0, 0x61, 0x62]), Vec::<(usize, u16)>::new());
    assert_eq!(patterns.starts(&[0x61, 0, 0x62]), vec![(1usize, 0u16)]);
    assert_eq!(patterns.starts(&[0x61, 0x62, 0]), vec![(1usize, 0u16), (2usize, 1u16)]);
    assert_eq!(patterns.starts(&[0]), Vec::<(usize, u16)>::new());
}

#[test]
fn pairs_in_order_are_taken_as_they_are() {
    let pairs = vec![("a".to_string(), 1u16), ("b".to_string(), 0u16)];
    let patterns = Patterns::<Vec<u8>>::from_uniques(&pairs, vec![vec![1u8], vec![2u8]]).unwrap();
    assert_eq!(patterns.starts(b"a"), vec![(1usize, 1u16)]);
    assert_eq!(patterns.starts(b"b"), vec![(1usize, 0u16)]);
    assert_eq!(patterns.tallies(), &vec![vec![1u8], vec![2u8]]);
}

#[test]
fn more_tallies_than_identifiers_are_refused() {
    let mut entries: Vec<(String, Vec<u8>)> = Vec::new();
    for n in 0..65537u32 {
        entries.push((
            format!("k{:05}", n),
            vec![(n % 256) as u8, ((n / 256) % 256) as u8, (n / 65536) as u8],
        ));
    }
    assert!(uniques(&entries).is_none());
    assert!(matches!(Patterns::try_from_iter(&entries), Err(BuildError::TallyOverflow)));
    // Too many tallies are told first, whatever the keys hold.
    entries[0].0 = "k\0".to_string();
    assert!(matches!(Patterns::try_from_iter(&entries), Err(BuildError::TallyOverflow)));
    entries[0].0 = "k00000".to_string();
    entries.pop();
    let (pairs, rows) = uniques(&entries).unwrap();
    assert_eq!(rows.len(), 65536);
    assert_eq!(pairs.len(), 65536);
    assert_eq!(pairs[65535], ("k65535".to_string(), 65535u16));
}

#[test]
fn keys_are_ordered_as_bytes() {
    assert_eq!(order_of(b"a", b"b"), Order::Before);
    assert_eq!(order_of(b"b", b"a"), Order::After);
    assert_eq!(order_of(b"ab", b"ab"), Order::Same);
    assert_eq!(order_of(b"a", b"ab"), Order::Before);
    assert_eq!(order_of(b"ab", b"a"), Order::After);
    assert_eq!(order_of(b"", b""), Order::Same);
    assert_eq!(order_of(b"", b"a"), Order::Before);
    assert_eq!(order_of(b"Z", b"a"), Order::Before);
    assert_eq!(order_of("é".as_bytes(), b"z"), Order::After);
}
