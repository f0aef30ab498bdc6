use fuzzt::{
    damerau_levenshtein, generic_damerau_levenshtein, normalized_damerau_levenshtein, Ratio,
};

fn to_f64(r: Ratio) -> f64 {
    r.num as f64 / r.den as f64
}

fn assert_delta(expected: f64, actual: f64) {
    assert!((expected - actual).abs() < 1e-5);
}

#[test]
fn damerau_levenshtein_empty() {
    assert_eq!(0, damerau_levenshtein("", ""));
}

#[test]
fn damerau_levenshtein_same() {
    assert_eq!(0, damerau_levenshtein("damerau", "damerau"));
}

#[test]
fn damerau_levenshtein_first_empty() {
    assert_eq!(7, damerau_levenshtein("", "damerau"));
}

#[test]
fn damerau_levenshtein_second_empty() {
    assert_eq!(7, damerau_levenshtein("damerau", ""));
}

#[test]
fn damerau_levenshtein_diff() {
    assert_eq!(2, damerau_levenshtein("ca", "abc"));
}

#[test]
fn damerau_levenshtein_diff_short() {
    assert_eq!(3, damerau_levenshtein("damerau", "aderua"));
}

#[test]
fn damerau_levenshtein_diff_reversed() {
    assert_eq!(3, damerau_levenshtein("aderua", "damerau"));
}

#[test]
fn damerau_levenshtein_diff_multibyte() {
    assert_eq!(3, damerau_levenshtein("öঙ香", "abc"));
    assert_eq!(3, damerau_levenshtein("abc", "öঙ香"));
}

#[test]
fn damerau_levenshtein_diff_unequal_length() {
    assert_eq!(6, damerau_levenshtein("damerau", "aderuaxyz"));
}

#[test]
fn damerau_levenshtein_diff_unequal_length_reversed() {
    assert_eq!(6, damerau_levenshtein("aderuaxyz", "damerau"));
}

#[test]
fn damerau_levenshtein_diff_comedians() {
    assert_eq!(5, damerau_levenshtein("Stewart", "Colbert"));
}

#[test]
fn damerau_levenshtein_many_transpositions() {
    assert_eq!(4, damerau_levenshtein("abcdefghijkl", "bacedfgihjlk"));
}

#[test]
fn damerau_levenshtein_diff_longer() {
    let a = "The quick brown fox jumped over the angry dog.";
    let b = "Lehem ipsum dolor sit amet, dicta latine an eam.";
    assert_eq!(36, damerau_levenshtein(a, b));
}

#[test]
fn damerau_levenshtein_beginning_transposition() {
    assert_eq!(1, damerau_levenshtein("foobar", "ofobar"));
}

#[test]
fn damerau_levenshtein_end_transposition() {
    assert_eq!(1, damerau_levenshtein("specter", "spectre"));
}

#[test]
fn damerau_levenshtein_unrestricted_edit() {
    assert_eq!(3, damerau_levenshtein("a cat", "an abct"));
}

#[test]
fn normalized_damerau_levenshtein_diff_short() {
    assert_delta(
        0.27272,
        to_f64(normalized_damerau_levenshtein("levenshtein", "löwenbräu")),
    );
}

#[test]
fn normalized_damerau_levenshtein_for_empty_strings() {
    assert_delta(1.0, to_f64(normalized_damerau_levenshtein("", "")));
}

#[test]
fn normalized_damerau_levenshtein_first_empty() {
    assert_delta(0.0, to_f64(normalized_damerau_levenshtein("", "flower")));
}

#[test]
fn normalized_damerau_levenshtein_second_empty() {
    assert_delta(0.0, to_f64(normalized_damerau_levenshtein("tree", "")));
}

#[test]
fn normalized_damerau_levenshtein_identical_strings() {
    assert_delta(
        1.0,
        to_f64(normalized_damerau_levenshtein("sunglasses", "sunglasses")),
    );
}

#[test]
fn generic_damerau_levenshtein_slices() {
    assert_eq!(2, generic_damerau_levenshtein(&[1, 2], &[2, 3, 1]));
    assert_eq!(0, generic_damerau_levenshtein::<u8>(&[], &[]));
    assert_eq!(3, generic_damerau_levenshtein(&[1, 2, 3], &[]));
}

#[test]
fn damerau_generic_and_char_agree() {
    for (a, b) in [
        ("ca", "abc"),
        ("damerau", "aderua"),
        ("a cat", "an abct"),
        ("abcdefghijkl", "bacedfgihjlk"),
        ("", "xyz"),
    ] {
        let av: Vec<u32> = a.chars().map(|c| c as u32).collect();
        let bv: Vec<u32> = b.chars().map(|c| c as u32).collect();
        assert_eq!(damerau_levenshtein(a, b), generic_damerau_levenshtein(&av, &bv));
    }
}

#[test]
fn damerau_levenshtein_symmetry_samples() {
    for (a, b) in [("ca", "abc"), ("specter", "spectre"), ("", "abc")] {
        assert_eq!(damerau_levenshtein(a, b), damerau_levenshtein(b, a));
    }
}

#[test]
fn damerau_levenshtein_triangle_inequality_samples() {
    let words = ["ca", "ac", "abc", "a cat", "an abct", "", "cba"];
    for a in words {
        for b in words {
            for c in words {
                let ac = damerau_levenshtein(a, c);
                let ab = damerau_levenshtein(a, b);
                let bc = damerau_levenshtein(b, c);
                assert!(ac <= ab + bc);
            }
        }
    }
}
