use fuzzt::{
    bigrams, chars_of, flat_index, DamerauLevenshtein, Hamming, HybridGrowingHashmapChar, Jaro,
    Levenshtein, NormalizedLevenshtein, Ratio, RowId, SequenceMatcher, Similarity,
    SimilarityMetric, SorensenDice, StringWrapper,
};

#[test]
fn bigrams_iterator() {
    let mut bi = bigrams("abcde").into_iter();

    assert_eq!(Some(('a', 'b')), bi.next());
    assert_eq!(Some(('b', 'c')), bi.next());
    assert_eq!(Some(('c', 'd')), bi.next());
    assert_eq!(Some(('d', 'e')), bi.next());
    assert_eq!(None, bi.next());
}

#[test]
fn bigrams_of_short_strings_are_empty() {
    assert!(bigrams("").is_empty());
    assert!(bigrams("a").is_empty());
}

#[test]
fn chars_of_collects_scalar_values() {
    assert_eq!(chars_of("öঙ香"), vec!['ö', 'ঙ', '香']);
    assert!(chars_of("").is_empty());
}

#[test]
fn string_wrapper_yields_chars() {
    let w = StringWrapper("ab");
    assert_eq!(w.chars_vec(), vec!['a', 'b']);
}

#[test]
fn flat_index_is_row_major() {
    assert_eq!(flat_index(2, 3, 10), 32);
    assert_eq!(flat_index(0, 0, 7), 0);
}

#[test]
fn codepoint_map_default_is_minus_one() {
    let map = HybridGrowingHashmapChar::new();
    assert_eq!(map.get('a').val, -1);
    assert_eq!(map.get('香').val, -1);
}

#[test]
fn codepoint_map_stores_ascii_and_wide_keys() {
    let mut map = HybridGrowingHashmapChar::new();
    map.set('a', RowId { val: 4 });
    map.set('香', RowId { val: 9 });
    assert_eq!(map.get('a').val, 4);
    assert_eq!(map.get('香').val, 9);
    assert_eq!(map.get('b').val, -1);
    map.set('a', RowId { val: 7 });
    assert_eq!(map.get('a').val, 7);
}

#[test]
fn codepoint_map_grows_past_initial_capacity() {
    let mut map = HybridGrowingHashmapChar::new();
    let mut expected = Vec::new();
    for i in 0..200u32 {
        let c = char::from_u32(0x4E00 + i).unwrap();
        map.set(c, RowId { val: i as isize });
        expected.push((c, i as isize));
    }
    for (c, v) in expected {
        assert_eq!(map.get(c).val, v);
    }
    assert_eq!(map.get('a').val, -1);
}

#[test]
fn ratio_comparisons_are_exact() {
    let third = Ratio::new(1, 3);
    let half = Ratio::new(1, 2);
    assert!(third.lt(&half));
    assert!(!half.lt(&third));
    assert!(third.le(&half));
    assert!(third.le(&Ratio::new(2, 6)));
    let big_a = Ratio::new(u128::MAX - 1, u128::MAX);
    let big_b = Ratio::new(u128::MAX - 2, u128::MAX - 1);
    assert!(big_b.lt(&big_a));
}

#[test]
fn similarity_metric_trait_dispatch() {
    assert_eq!(Levenshtein.compute_metric("kitten", "sitting"), Similarity::Usize(3));
    assert_eq!(DamerauLevenshtein.compute_metric("ca", "abc"), Similarity::Usize(2));
    assert_eq!(Hamming.compute_metric("karolin", "kathrin"), Similarity::Usize(3));
    match NormalizedLevenshtein.compute_metric("kitten", "kitten") {
        Similarity::Rational(r) => assert_eq!(r.num, r.den),
        Similarity::Usize(_) => panic!("expected a ratio"),
    }
    match Jaro.compute_metric("a", "b") {
        Similarity::Rational(r) => assert_eq!(r.num, 0),
        Similarity::Usize(_) => panic!("expected a ratio"),
    }
    match SorensenDice.compute_metric("iphone", "iphone") {
        Similarity::Rational(r) => assert_eq!(r.num, r.den),
        Similarity::Usize(_) => panic!("expected a ratio"),
    }
    match SequenceMatcher.compute_metric("test", "tent") {
        Similarity::Rational(r) => assert_eq!((r.num, r.den), (6, 8)),
        Similarity::Usize(_) => panic!("expected a ratio"),
    }
}
