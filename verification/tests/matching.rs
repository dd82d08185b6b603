use neardup::{
    has_doc_duplicate, has_doc_duplicate_naive, has_doc_duplicate_rolling, ngram, ngram_rolling,
    weighted_jaccard,
};

fn ratio(weights: (usize, usize)) -> f64 {
    if weights.1 == 0 {
        0.0
    } else {
        weights.0 as f64 / weights.1 as f64
    }
}

#[test]
fn test_weighted_jaccard() {
    let text1 = vec![1, 2, 3, 4, 5];
    let text2 = vec![1, 2, 3, 4, 5];
    assert_eq!(ratio(weighted_jaccard(&text1, &text2)), 1.0);
    let text1 = vec![1, 2, 2];
    let text2 = vec![1, 1, 2];
    assert_eq!(ratio(weighted_jaccard(&text1, &text2)), (2.0) / 4.0);
    let text1 = vec![1, 1, 2, 3];
    let text2 = vec![1, 2, 2, 2];
    assert_eq!(ratio(weighted_jaccard(&text1, &text2)), (2.0) / 6.0);
}

#[test]
fn test_query_contain() {
    let query = vec![1, 2, 3, 4, 5];
    let doc = vec![1, 2, 3, 4, 5, 6, 7, 8, 9, 10];

    let query_ngram = ngram(&query, 3);
    let n = 3;
    // threshold 8/10
    assert_eq!(has_doc_duplicate(doc, &query, &query_ngram, 8, 10, n), true);
}

#[test]
fn identical_span_is_fully_similar() {
    // Equal spans score 1.0 at any length.
    let a = vec![3, 1, 4, 1, 5];
    assert_eq!(weighted_jaccard(&a, &a), (5, 5));
    let b = vec![42];
    assert_eq!(weighted_jaccard(&b, &b), (1, 1));
}

#[test]
fn similarity_is_symmetric() {
    let a = vec![1, 1, 2, 3];
    let b = vec![1, 2, 2, 2];
    assert_eq!(weighted_jaccard(&a, &b), weighted_jaccard(&b, &a));
    let c = vec![9, 9];
    let d = vec![1, 2, 3, 9];
    assert_eq!(weighted_jaccard(&c, &d), weighted_jaccard(&d, &c));
}

#[test]
fn similarity_stays_between_zero_and_one() {
    let pairs: Vec<(Vec<i32>, Vec<i32>)> = vec![
        (vec![], vec![]),
        (vec![1], vec![]),
        (vec![1, 2, 3], vec![4, 5, 6]),
        (vec![1, 2], vec![2, 3]),
        (vec![5, 5, 5], vec![5, 5]),
    ];
    for (a, b) in pairs {
        let (i, u) = weighted_jaccard(&a, &b);
        assert!(i <= u);
        let s = ratio((i, u));
        assert!(0.0 <= s && s <= 1.0);
    }
}

#[test]
fn disjoint_spans_score_zero_and_empty_spans_score_zero() {
    assert_eq!(weighted_jaccard(&[1, 2, 3], &[4, 5, 6]), (0, 6));
    assert_eq!(weighted_jaccard(&[], &[]), (0, 0));
    assert_eq!(ratio(weighted_jaccard(&[], &[])), 0.0);
}

#[test]
fn exact_match_is_found_by_every_scanner() {
    // Document [1..=10], query [1..=5], width 3, threshold 8/10: an exact
    // match sits at offset zero.
    let doc = vec![1, 2, 3, 4, 5, 6, 7, 8, 9, 10];
    let query = vec![1, 2, 3, 4, 5];
    let fps = ngram(&query, 3);
    assert!(has_doc_duplicate(doc.clone(), &query, &fps, 8, 10, 3));
    let fps_roll = ngram_rolling(&query, 3);
    assert!(has_doc_duplicate_rolling(doc.clone(), &query, &fps_roll, 8, 10, 3));
    assert!(has_doc_duplicate_naive(doc, &query, 8, 10));
}

#[test]
fn query_longer_than_document_finds_nothing() {
    // Document of length 10 against a query of length 15: every scanner
    // answers false rather than faulting on the offset arithmetic.
    let doc: Vec<i32> = (0..10).collect();
    let query: Vec<i32> = (0..15).collect();
    let fps = ngram(&query, 3);
    assert_eq!(has_doc_duplicate(doc.clone(), &query, &fps, 6, 10, 3), false);
    let fps_roll = ngram_rolling(&query, 3);
    assert_eq!(
        has_doc_duplicate_rolling(doc.clone(), &query, &fps_roll, 6, 10, 3),
        false
    );
    assert_eq!(has_doc_duplicate_naive(doc, &query, 6, 10), false);
}

#[test]
fn single_window_similarity_exact_value() {
    // Query [1,1,2,3] against the one window [1,2,2,2]: intersection 2,
    // union 6.
    let (i, u) = weighted_jaccard(&[1, 1, 2, 3], &[1, 2, 2, 2]);
    assert_eq!((i, u), (2, 6));
    assert!((ratio((i, u)) - 0.3333333333333333).abs() < 1e-12);
}

#[test]
fn embedded_near_copy_is_found() {
    // A 50-token query embedded in a document with its first 5 tokens
    // altered to an out-of-vocabulary sentinel; width 10, threshold 6/10.
    // 45 of 50 tokens survive, so the similarity is 45/55, and a 10-gram
    // among the unaltered tokens survives intact for the prefilter.
    let query: Vec<i32> = (0..50).collect();
    let mut altered = query.clone();
    for k in 0..5 {
        altered[k] = -1;
    }
    let mut doc: Vec<i32> = vec![1000; 20];
    doc.extend_from_slice(&altered);
    doc.extend(vec![2000; 20]);

    assert!(has_doc_duplicate_naive(doc.clone(), &query, 6, 10));
    let fps = ngram(&query, 10);
    assert!(has_doc_duplicate(doc.clone(), &query, &fps, 6, 10, 10));
    let fps_roll = ngram_rolling(&query, 10);
    assert!(has_doc_duplicate_rolling(doc, &query, &fps_roll, 6, 10, 10));
}

#[test]
fn out_of_range_widths_find_nothing() {
    let doc = vec![1, 2, 3, 4, 5, 6, 7, 8];
    let query = vec![1, 2, 3, 4, 5];
    let fps = ngram(&query, 3);
    // A width of zero is rejected.
    assert_eq!(has_doc_duplicate(doc.clone(), &query, &fps, 1, 10, 0), false);
    assert_eq!(
        has_doc_duplicate_rolling(doc.clone(), &query, &fps, 1, 10, 0),
        false
    );
    // A width above the query length is rejected.
    assert_eq!(has_doc_duplicate(doc.clone(), &query, &fps, 1, 10, 6), false);
    assert_eq!(has_doc_duplicate_rolling(doc, &query, &fps, 1, 10, 6), false);
}

#[test]
fn empty_inputs_find_nothing() {
    let doc = vec![1, 2, 3];
    let empty: Vec<i32> = vec![];
    let fps = ngram(&[1, 2, 3], 2);
    assert_eq!(has_doc_duplicate_naive(doc.clone(), &empty, 0, 10), false);
    assert_eq!(has_doc_duplicate(doc, &empty, &fps, 0, 10, 2), false);
    let empty_doc: Vec<i32> = vec![];
    assert_eq!(has_doc_duplicate_naive(empty_doc, &[1, 2, 3], 5, 10), false);
}

#[test]
fn scanning_twice_gives_identical_answers() {
    let doc = vec![1, 2, 3, 4, 5, 6, 7, 8, 9, 10];
    let query = vec![2, 3, 4];
    let fps = ngram(&query, 2);
    let first = has_doc_duplicate(doc.clone(), &query, &fps, 9, 10, 2);
    let second = has_doc_duplicate(doc.clone(), &query, &fps, 9, 10, 2);
    assert_eq!(first, second);
    assert_eq!(
        weighted_jaccard(&query, &doc[1..4]),
        weighted_jaccard(&query, &doc[1..4])
    );
    assert_eq!(
        has_doc_duplicate_naive(doc.clone(), &query, 9, 10),
        has_doc_duplicate_naive(doc, &query, 9, 10)
    );
}

#[test]
fn prefiltered_scanners_agree_with_naive_on_easy_cases() {
    // Wherever the naive scanner finds a match that shares an exact n-gram
    // with the query, the prefiltered scanners find it too.
    let doc = vec![9, 9, 1, 2, 3, 4, 9, 9];
    let query = vec![1, 2, 3, 4];
    let naive = has_doc_duplicate_naive(doc.clone(), &query, 10, 10);
    assert!(naive);
    let fps = ngram(&query, 2);
    assert_eq!(has_doc_duplicate(doc.clone(), &query, &fps, 10, 10, 2), naive);
    let fps_roll = ngram_rolling(&query, 2);
    assert_eq!(
        has_doc_duplicate_rolling(doc, &query, &fps_roll, 10, 10, 2),
        naive
    );
}
