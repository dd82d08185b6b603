use neardup::{ngram, ngram_rolling, RollingHash};
use std::collections::HashSet;

#[test]
fn test_ngram() {
    let text = vec![1, 2, 3, 4, 5];
    let mut ngrams = HashSet::new();
    ngrams.insert(fxhash::hash(&vec![1, 2]));
    ngrams.insert(fxhash::hash(&vec![2, 3]));
    ngrams.insert(fxhash::hash(&vec![3, 4]));
    ngrams.insert(fxhash::hash(&vec![4, 5]));
    assert_eq!(ngram(&text, 2), ngrams);
}

#[test]
fn test_rolling_hash() {
    let text = vec![1, 2, 3, 4, 5];
    let mut rolling_hash = RollingHash::new();
    for c in text.iter().map(|v| *v as u64) {
        rolling_hash.append(c);
    }
    assert_eq!(
        rolling_hash.get_hash(),
        (1 * u64::pow(31, 4) + 2 * u64::pow(31, 3) + 3 * u64::pow(31, 2) + 4 * 31 + 5)
            % 1_000_000_007
    );
}

#[test]
fn test_update() {
    let text = vec![1, 2, 3, 4, 5];
    let mut rolling_hash = RollingHash::new();
    for c in text.iter().map(|v| *v as u64) {
        rolling_hash.append(c);
    }
    assert_eq!(
        rolling_hash.get_hash(),
        (1 * u64::pow(31, 4) + 2 * u64::pow(31, 3) + 3 * u64::pow(31, 2) + 4 * 31 + 5)
            % 1_000_000_007
    );
    rolling_hash.slide(1, 6);
    assert_eq!(
        rolling_hash.get_hash(),
        (2 * u64::pow(31, 4) + 3 * u64::pow(31, 3) + 4 * u64::pow(31, 2) + 5 * 31 + 6)
            % 1_000_000_007
    );
}

#[test]
fn slide_matches_hash_built_from_scratch() {
    // Sliding [1,2,3,4,5] by one symbol must give the hash of [2,3,4,5,6]
    // primed fresh, symbol by symbol.
    let mut incremental = RollingHash::new();
    for c in [1u64, 2, 3, 4, 5] {
        incremental.append(c);
    }
    incremental.slide(1, 6);
    let mut fresh = RollingHash::new();
    for c in [2u64, 3, 4, 5, 6] {
        fresh.append(c);
    }
    assert_eq!(incremental.get_hash(), fresh.get_hash());
}

#[test]
fn ngram_set_has_at_most_one_fingerprint_per_window() {
    // Five tokens and width two give four windows, all distinct.
    let text = vec![1, 2, 3, 4, 5];
    assert!(ngram(&text, 2).len() <= 4);
    assert!(ngram_rolling(&text, 2).len() <= 4);
    // Identical windows merge: [7,7] four times over gives a single entry.
    let same = vec![7, 7, 7, 7, 7];
    assert_eq!(ngram(&same, 2).len(), 1);
    assert_eq!(ngram_rolling(&same, 2).len(), 1);
}

#[test]
fn ngram_rolling_exact_values() {
    // Width-two windows of [1,2,1,2]: [1,2] -> 1*31+2 = 33, [2,1] -> 63,
    // and [1,2] again merges with the first.
    let text = vec![1, 2, 1, 2];
    let fps = ngram_rolling(&text, 2);
    let mut expected = HashSet::new();
    expected.insert(33usize);
    expected.insert(63usize);
    assert_eq!(fps, expected);
}

#[test]
fn ngram_of_short_sequence_is_empty() {
    let text = vec![1, 2];
    assert!(ngram(&text, 5).is_empty());
    assert!(ngram_rolling(&text, 5).is_empty());
}

#[test]
fn equal_window_contents_fingerprint_equally() {
    // The two fingerprint families are each internally consistent: equal
    // window contents give equal fingerprints, also across two sequences.
    let a = vec![5, 6, 7, 8];
    let b = vec![9, 5, 6, 7];
    let fps_a = ngram(&a, 3);
    let fps_b = ngram(&b, 3);
    // [5,6,7] is a window of both.
    assert!(fps_a.contains(&fxhash::hash(&vec![5, 6, 7])));
    assert!(fps_b.contains(&fxhash::hash(&vec![5, 6, 7])));
    let roll_a = ngram_rolling(&a, 3);
    let roll_b = ngram_rolling(&b, 3);
    let mut w = RollingHash::new();
    for c in [5u64, 6, 7] {
        w.append(c);
    }
    assert!(roll_a.contains(&(w.get_hash() as usize)));
    assert!(roll_b.contains(&(w.get_hash() as usize)));
}

#[test]
fn fingerprinting_twice_gives_identical_sets() {
    let text = vec![4, 7, 1, 7, 4, 2];
    assert_eq!(ngram(&text, 2), ngram(&text, 2));
    assert_eq!(ngram_rolling(&text, 2), ngram_rolling(&text, 2));
}
