use fuzzt::{generic_hamming, hamming, FuzztError};

fn assert_hamming_dist(dist: usize, str1: &str, str2: &str) {
    assert_eq!(Ok(dist), hamming(str1, str2));
}

#[test]
fn hamming_empty() {
    assert_hamming_dist(0, "", "")
}

#[test]
fn hamming_same() {
    assert_hamming_dist(0, "hamming", "hamming")
}

#[test]
fn hamming_numbers() {
    assert_eq!(Ok(1), generic_hamming(&[1, 2, 4], &[1, 2, 3]));
}

#[test]
fn hamming_diff() {
    assert_hamming_dist(3, "hamming", "hammers")
}

#[test]
fn hamming_diff_multibyte() {
    assert_hamming_dist(2, "hamming", "h香mmüng");
}

#[test]
fn hamming_unequal_length() {
    let a: Vec<char> = "ham".chars().collect();
    let b: Vec<char> = "hamming".chars().collect();
    assert_eq!(Err(FuzztError::DifferentLengthArgs), generic_hamming(&a, &b));
}

#[test]
fn hamming_names() {
    assert_hamming_dist(14, "Friedrich Nietzs", "Jean-Paul Sartre")
}

#[test]
fn hamming_error_for_different_lengths() {
    assert_eq!(Err(FuzztError::DifferentLengthArgs), hamming("hamming", "ham"));
}

#[test]
fn hamming_symmetry_samples() {
    for (a, b) in [("hamming", "hammers"), ("abc", "abd"), ("", "")] {
        assert_eq!(hamming(a, b), hamming(b, a));
    }
}

#[test]
fn hamming_all_different_is_length() {
    assert_eq!(Ok(4), hamming("abcd", "wxyz"));
}

#[test]
fn fuzzt_error_message() {
    assert_eq!("Differing length arguments provided", FuzztError::DifferentLengthArgs.message());
}
