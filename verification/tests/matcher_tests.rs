use fuzzt::{
    get_top_n, LowerAlphaNumStringProcessor, NullStringProcessor, Processor, Ratio, Scorer,
    StringProcessor,
};

#[test]
fn test_get_top_n() {
    let choices = &["trazil", "BRA ZIL", "brazil", "spain", "braziu"][..];
    let query = "brazil";
    let matches = get_top_n(query, choices, Some(Ratio::new(7, 10)), Some(3), None, None);
    assert_eq!(matches, ["brazil", "braziu", "trazil"]);
}

#[test]
fn get_top_n_high_cutoff() {
    let choices = &["trazil", "BRA ZIL", "brazil", "spain", "braziu"][..];
    let matches = get_top_n("brazil", choices, Some(Ratio::new(9, 10)), Some(5), None, None);
    assert_eq!(matches, ["brazil"]);
}

#[test]
fn get_top_n_jaro_winkler_scorer() {
    let choices = &["trazil", "BRA ZIL", "brazil", "spain", "braziu"][..];
    let matches = get_top_n(
        "brazil",
        choices,
        Some(Ratio::new(7, 10)),
        Some(2),
        None,
        Some(Scorer::JaroWinkler),
    );
    assert_eq!(matches, ["brazil", "braziu"]);
}

#[test]
fn get_top_n_lower_alnum_processor() {
    let choices = &["trazil", "BRA ZIL", "brazil", "spain", "braziu"][..];
    let matches = get_top_n(
        "brazil",
        choices,
        Some(Ratio::new(7, 10)),
        Some(2),
        Some(Processor::LowerAlphaNum),
        None,
    );
    assert_eq!(matches, ["brazil", "BRA ZIL"]);
}

#[test]
fn get_top_n_defaults() {
    let choices = &["apply", "apples", "ape", "applet", "applesauce"][..];
    let matches = get_top_n("apple", choices, Some(Ratio::new(4, 10)), None, None, None);
    assert_eq!(matches.len(), 3);
    assert_eq!(matches[0], "apples");
}

#[test]
fn get_top_n_empty_choices() {
    let choices: &[&str] = &[];
    let matches = get_top_n("apple", choices, None, None, None, None);
    assert!(matches.is_empty());
}

#[test]
fn get_top_n_no_match_above_cutoff() {
    let choices = &["xyz", "qrs"][..];
    let matches = get_top_n("apple", choices, Some(Ratio::new(9, 10)), Some(3), None, None);
    assert!(matches.is_empty());
}

#[test]
fn null_processor_is_identity() {
    assert_eq!(NullStringProcessor.process("  AbC 12!  "), "  AbC 12!  ");
}

#[test]
fn lower_alnum_processor_cleans_text() {
    assert_eq!(LowerAlphaNumStringProcessor.process("  BRA ZIL!?  "), "bra zil");
    assert_eq!(LowerAlphaNumStringProcessor.process("MiXeD42"), "mixed42");
    assert_eq!(LowerAlphaNumStringProcessor.process("\t \n"), "");
}
