use fuzzt::{sequence_matcher, sorensen_dice, Ratio};

fn to_f64(r: Ratio) -> f64 {
    r.num as f64 / r.den as f64
}

fn assert_delta(expected: f64, actual: f64) {
    assert!((expected - actual).abs() < 1e-5);
}

#[test]
fn test_quick_ratio() {
    assert_eq!(to_f64(sequence_matcher("test", "test")), 1.0);
    assert_eq!(to_f64(sequence_matcher("test", "tent")), 0.75);
    assert_eq!(to_f64(sequence_matcher("kitten", "sitting")), 0.6153846153846154);
    assert_eq!(to_f64(sequence_matcher("", "")), 1.0);
    assert_eq!(to_f64(sequence_matcher("test", "")), 0.0);
    assert_eq!(to_f64(sequence_matcher("", "test")), 0.0);
}

#[test]
fn sorensen_dice_all() {
    assert_delta(1.0, to_f64(sorensen_dice("a", "a")));
    assert_delta(0.0, to_f64(sorensen_dice("a", "b")));
    assert_delta(1.0, to_f64(sorensen_dice("", "")));
    assert_delta(0.0, to_f64(sorensen_dice("a", "")));
    assert_delta(0.0, to_f64(sorensen_dice("", "a")));
    assert_delta(1.0, to_f64(sorensen_dice("apple event", "apple    event")));
    assert_delta(0.90909, to_f64(sorensen_dice("iphone", "iphone x")));
    assert_delta(0.0, to_f64(sorensen_dice("french", "quebec")));
    assert_delta(1.0, to_f64(sorensen_dice("france", "france")));
    assert_delta(0.2, to_f64(sorensen_dice("fRaNce", "france")));
    assert_delta(0.8, to_f64(sorensen_dice("healed", "sealed")));
    assert_delta(
        0.78788,
        to_f64(sorensen_dice("web applications", "applications of the web")),
    );
    assert_delta(
        0.92,
        to_f64(sorensen_dice(
            "this will have a typo somewhere",
            "this will huve a typo somewhere",
        )),
    );
    assert_delta(
        0.60606,
        to_f64(sorensen_dice(
            "Olive-green table for sale, in extremely good condition.",
            "For sale: table in very good  condition, olive green in colour.",
        )),
    );
    assert_delta(
        0.25581,
        to_f64(sorensen_dice(
            "Olive-green table for sale, in extremely good condition.",
            "For sale: green Subaru Impreza, 210,000 miles",
        )),
    );
    assert_delta(
        0.14118,
        to_f64(sorensen_dice(
            "Olive-green table for sale, in extremely good condition.",
            "Wanted: mountain bike with at least 21 gears.",
        )),
    );
    assert_delta(
        0.77419,
        to_f64(sorensen_dice("this has one extra word", "this has one word")),
    );
}

#[test]
fn gestalt_symmetry_samples() {
    for (a, b) in [("kitten", "sitting"), ("test", "tent"), ("", "ab")] {
        let x = sequence_matcher(a, b);
        let y = sequence_matcher(b, a);
        assert_eq!(x.num * y.den, y.num * x.den);
    }
}

#[test]
fn sorensen_dice_symmetry_samples() {
    for (a, b) in [("iphone", "iphone x"), ("healed", "sealed"), ("ab", "")] {
        let x = sorensen_dice(a, b);
        let y = sorensen_dice(b, a);
        assert_eq!(x.num * y.den, y.num * x.den);
    }
}

#[test]
fn gestalt_and_dice_scores_stay_in_range() {
    for (a, b) in [("kitten", "sitting"), ("", ""), ("a", "b"), ("iphone", "iphone x")] {
        let g = sequence_matcher(a, b);
        assert!(g.num <= g.den && g.den > 0);
        let d = sorensen_dice(a, b);
        assert!(d.num <= d.den && d.den > 0);
    }
}

#[test]
fn gestalt_identity_on_single_byte_text() {
    assert_eq!(to_f64(sequence_matcher("identical", "identical")), 1.0);
}
