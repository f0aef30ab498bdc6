use fuzzt::{generic_levenshtein, levenshtein, normalized_levenshtein, Ratio};

fn to_f64(r: Ratio) -> f64 {
    r.num as f64 / r.den as f64
}

fn assert_delta(expected: f64, actual: f64) {
    assert!((expected - actual).abs() < 1e-5);
}

#[test]
fn levenshtein_empty() {
    assert_eq!(0, levenshtein("", ""));
}

#[test]
fn levenshtein_same() {
    assert_eq!(0, levenshtein("levenshtein", "levenshtein"));
}

#[test]
fn levenshtein_diff_short() {
    assert_eq!(3, levenshtein("kitten", "sitting"));
}

#[test]
fn levenshtein_diff_with_space() {
    assert_eq!(5, levenshtein("hello, world", "bye, world"));
}

#[test]
fn levenshtein_diff_multibyte() {
    assert_eq!(3, levenshtein("öঙ香", "abc"));
    assert_eq!(3, levenshtein("abc", "öঙ香"));
}

#[test]
fn levenshtein_diff_longer() {
    let a = "The quick brown fox jumped over the angry dog.";
    let b = "Lorem ipsum dolor sit amet, dicta latine an eam.";
    assert_eq!(37, levenshtein(a, b));
}

#[test]
fn levenshtein_first_empty() {
    assert_eq!(7, levenshtein("", "sitting"));
}

#[test]
fn levenshtein_second_empty() {
    assert_eq!(6, levenshtein("kitten", ""));
}

#[test]
fn normalized_levenshtein_diff_short() {
    assert_delta(0.57142, to_f64(normalized_levenshtein("kitten", "sitting")));
}

#[test]
fn normalized_levenshtein_for_empty_strings() {
    assert_delta(1.0, to_f64(normalized_levenshtein("", "")));
}

#[test]
fn normalized_levenshtein_first_empty() {
    assert_delta(0.0, to_f64(normalized_levenshtein("", "second")));
}

#[test]
fn normalized_levenshtein_second_empty() {
    assert_delta(0.0, to_f64(normalized_levenshtein("first", "")));
}

#[test]
fn normalized_levenshtein_identical_strings() {
    assert_delta(1.0, to_f64(normalized_levenshtein("identical", "identical")));
}

#[test]
fn generic_levenshtein_slices() {
    assert_eq!(3, generic_levenshtein(&[1, 2, 3], &[1, 2, 3, 4, 5, 6]));
    assert_eq!(0, generic_levenshtein::<u8>(&[], &[]));
}

#[test]
fn levenshtein_symmetry_samples() {
    for (a, b) in [("kitten", "sitting"), ("", "abc"), ("flaw", "lawn"), ("öঙ香", "abc")] {
        assert_eq!(levenshtein(a, b), levenshtein(b, a));
    }
}

#[test]
fn levenshtein_bounded_by_longer_length() {
    for (a, b) in [("kitten", "sitting"), ("", "abc"), ("abcdef", "xyz")] {
        let max = a.chars().count().max(b.chars().count());
        assert!(levenshtein(a, b) <= max);
    }
}
