use fuzzt::{
    damerau_levenshtein, hamming, jaro, jaro_winkler, levenshtein, normalized_damerau_levenshtein,
    normalized_levenshtein, osa_distance, Ratio,
};

fn to_f64(r: Ratio) -> f64 {
    r.num as f64 / r.den as f64
}

fn assert_delta(expected: f64, actual: f64, delta: f64) {
    assert!((expected - actual).abs() < delta);
}

#[test]
fn hamming_works() {
    match hamming("hamming", "hammers") {
        Ok(distance) => assert_eq!(3, distance),
        Err(why) => panic!("{:?}", why),
    }
}

#[test]
fn levenshtein_works() {
    assert_eq!(3, levenshtein("kitten", "sitting"));
}

#[test]
fn normalized_levenshtein_works() {
    assert_delta(0.57142, to_f64(normalized_levenshtein("kitten", "sitting")), 1e-5);
}

#[test]
fn osa_distance_works() {
    assert_eq!(3, osa_distance("ac", "cba"));
}

#[test]
fn damerau_levenshtein_works() {
    assert_eq!(2, damerau_levenshtein("ac", "cba"));
}

#[test]
fn normalized_damerau_levenshtein_works() {
    assert_delta(
        0.27272,
        to_f64(normalized_damerau_levenshtein("levenshtein", "löwenbräu")),
        1e-5,
    );
}

#[test]
fn jaro_works() {
    assert_delta(0.392, to_f64(jaro("Friedrich Nietzsche", "Jean-Paul Sartre")), 0.001);
}

#[test]
fn jaro_winkler_works() {
    assert_delta(0.866, to_f64(jaro_winkler("cheeseburger", "cheese fries")), 0.001);
}
