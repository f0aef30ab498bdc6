use fuzzt::{damerau_levenshtein, osa_distance};

#[test]
fn osa_distance_empty() {
    assert_eq!(0, osa_distance("", ""));
}

#[test]
fn osa_distance_same() {
    assert_eq!(0, osa_distance("damerau", "damerau"));
}

#[test]
fn osa_distance_first_empty() {
    assert_eq!(7, osa_distance("", "damerau"));
}

#[test]
fn osa_distance_second_empty() {
    assert_eq!(7, osa_distance("damerau", ""));
}

#[test]
fn osa_distance_diff() {
    assert_eq!(3, osa_distance("ca", "abc"));
}

#[test]
fn osa_distance_diff_short() {
    assert_eq!(3, osa_distance("damerau", "aderua"));
}

#[test]
fn osa_distance_diff_reversed() {
    assert_eq!(3, osa_distance("aderua", "damerau"));
}

#[test]
fn osa_distance_diff_multibyte() {
    assert_eq!(3, osa_distance("öঙ香", "abc"));
    assert_eq!(3, osa_distance("abc", "öঙ香"));
}

#[test]
fn osa_distance_diff_unequal_length() {
    assert_eq!(6, osa_distance("damerau", "aderuaxyz"));
}

#[test]
fn osa_distance_diff_unequal_length_reversed() {
    assert_eq!(6, osa_distance("aderuaxyz", "damerau"));
}

#[test]
fn osa_distance_diff_comedians() {
    assert_eq!(5, osa_distance("Stewart", "Colbert"));
}

#[test]
fn osa_distance_many_transpositions() {
    assert_eq!(4, osa_distance("abcdefghijkl", "bacedfgihjlk"));
}

#[test]
fn osa_distance_diff_longer() {
    let a = "The quick brown fox jumped over the angry dog.";
    let b = "Lehem ipsum dolor sit amet, dicta latine an eam.";
    assert_eq!(36, osa_distance(a, b));
}

#[test]
fn osa_distance_beginning_transposition() {
    assert_eq!(1, osa_distance("foobar", "ofobar"));
}

#[test]
fn osa_distance_end_transposition() {
    assert_eq!(1, osa_distance("specter", "spectre"));
}

#[test]
fn osa_distance_restricted_edit() {
    assert_eq!(4, osa_distance("a cat", "an abct"));
}

#[test]
fn osa_distance_symmetry_samples() {
    for (a, b) in [("ca", "abc"), ("a cat", "an abct"), ("", "xy")] {
        assert_eq!(osa_distance(a, b), osa_distance(b, a));
    }
}

#[test]
fn osa_distance_can_break_triangle_inequality() {
    // The restricted variant is not a metric; the unrestricted one is.
    assert!(osa_distance("ca", "abc") > osa_distance("ca", "ac") + osa_distance("ac", "abc"));
    assert!(
        damerau_levenshtein("ca", "abc")
            <= damerau_levenshtein("ca", "ac") + damerau_levenshtein("ac", "abc")
    );
}
