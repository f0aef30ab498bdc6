use fuzzt::{jaro, jaro_winkler, Ratio};

fn jaro_f64(a: &str, b: &str) -> f64 {
    to_f64(jaro(a, b))
}

fn jaro_winkler_f64(a: &str, b: &str) -> f64 {
    to_f64(jaro_winkler(a, b))
}

fn to_f64(r: Ratio) -> f64 {
    r.num as f64 / r.den as f64
}

fn assert_delta(expected: f64, actual: f64, delta: f64) {
    assert!((expected - actual).abs() < delta);
}

#[test]
fn jaro_both_empty() {
    assert_eq!(1.0, jaro_f64("", ""));
}

#[test]
fn jaro_first_empty() {
    assert_eq!(0.0, jaro_f64("", "jaro"));
}

#[test]
fn jaro_second_empty() {
    assert_eq!(0.0, jaro_f64("distance", ""));
}

#[test]
fn jaro_same() {
    assert_eq!(1.0, jaro_f64("jaro", "jaro"));
}

#[test]
fn jaro_multibyte() {
    assert_delta(0.818, jaro_f64("testabctest", "testöঙ香test"), 0.001);
    assert_delta(0.818, jaro_f64("testöঙ香test", "testabctest"), 0.001);
}

#[test]
fn jaro_diff_short() {
    assert_delta(0.767, jaro_f64("dixon", "dicksonx"), 0.001);
}

#[test]
fn jaro_diff_one_character() {
    assert_eq!(0.0, jaro_f64("a", "b"));
}

#[test]
fn jaro_same_one_character() {
    assert_eq!(1.0, jaro_f64("a", "a"));
}

#[test]
fn jaro_diff_one_and_two() {
    assert_delta(0.83, jaro_f64("a", "ab"), 0.01);
}

#[test]
fn jaro_diff_two_and_one() {
    assert_delta(0.83, jaro_f64("ab", "a"), 0.01);
}

#[test]
fn jaro_diff_no_transposition() {
    assert_delta(0.822, jaro_f64("dwayne", "duane"), 0.001);
}

#[test]
fn jaro_diff_with_transposition() {
    assert_delta(0.944, jaro_f64("martha", "marhta"), 0.001);
    assert_delta(0.6, jaro_f64("a jke", "jane a k"), 0.001);
}

#[test]
fn jaro_names() {
    assert_delta(0.392, jaro_f64("Friedrich Nietzsche", "Jean-Paul Sartre"), 0.001);
}

#[test]
fn jaro_winkler_both_empty() {
    assert_eq!(1.0, jaro_winkler_f64("", ""));
}

#[test]
fn jaro_winkler_first_empty() {
    assert_eq!(0.0, jaro_winkler_f64("", "jaro-winkler"));
}

#[test]
fn jaro_winkler_second_empty() {
    assert_eq!(0.0, jaro_winkler_f64("distance", ""));
}

#[test]
fn jaro_winkler_same() {
    assert_eq!(1.0, jaro_winkler_f64("Jaro-Winkler", "Jaro-Winkler"));
}

#[test]
fn jaro_winkler_multibyte() {
    assert_delta(0.89, jaro_winkler_f64("testabctest", "testöঙ香test"), 0.001);
    assert_delta(0.89, jaro_winkler_f64("testöঙ香test", "testabctest"), 0.001);
}

#[test]
fn jaro_winkler_diff_short() {
    assert_delta(0.813, jaro_winkler_f64("dixon", "dicksonx"), 0.001);
    assert_delta(0.813, jaro_winkler_f64("dicksonx", "dixon"), 0.001);
}

#[test]
fn jaro_winkler_diff_one_character() {
    assert_eq!(0.0, jaro_winkler_f64("a", "b"));
}

#[test]
fn jaro_winkler_same_one_character() {
    assert_eq!(1.0, jaro_winkler_f64("a", "a"));
}

#[test]
fn jaro_winkler_diff_no_transposition() {
    assert_delta(0.84, jaro_winkler_f64("dwayne", "duane"), 0.001);
}

#[test]
fn jaro_winkler_diff_with_transposition() {
    assert_delta(0.961, jaro_winkler_f64("martha", "marhta"), 0.001);
    assert_delta(0.6, jaro_winkler_f64("a jke", "jane a k"), 0.001);
}

#[test]
fn jaro_winkler_names() {
    assert_delta(
        0.452,
        jaro_winkler_f64("Friedrich Nietzsche", "Fran-Paul Sartre"),
        0.001,
    );
}

#[test]
fn jaro_winkler_long_prefix() {
    assert_delta(0.866, jaro_winkler_f64("cheeseburger", "cheese fries"), 0.001);
}

#[test]
fn jaro_winkler_more_names() {
    assert_delta(0.868, jaro_winkler_f64("Thorkel", "Thorgier"), 0.001);
}

#[test]
fn jaro_winkler_length_of_one() {
    assert_delta(0.738, jaro_winkler_f64("Dinsdale", "D"), 0.001);
}

#[test]
fn jaro_winkler_very_long_prefix() {
    assert!(
        (0.98519 - jaro_winkler_f64("thequickbrownfoxjumpedoverx", "thequickbrownfoxjumpedovery"))
            .abs()
            < 1e-5
    );
}

#[test]
fn jaro_symmetry_samples() {
    for (a, b) in [("dwayne", "duane"), ("martha", "marhta"), ("", "x")] {
        assert_eq!(jaro(a, b).num * jaro(b, a).den, jaro(b, a).num * jaro(a, b).den);
    }
}

#[test]
fn jaro_scores_stay_in_range() {
    for (a, b) in [("dixon", "dicksonx"), ("a", "b"), ("", ""), ("a jke", "jane a k")] {
        let r = jaro(a, b);
        assert!(r.num <= r.den && r.den > 0);
        let w = jaro_winkler(a, b);
        assert!(w.num <= w.den && w.den > 0);
    }
}
