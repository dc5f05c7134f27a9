use minigrep::fold::fold;

#[test]
fn fold_brings_to_lowercase() {
    assert_eq!("rust", fold("rUsT"));
    assert_eq!("rust:", fold("Rust:"));
    assert_eq!("trust me.", fold("Trust me."));
    assert_eq!("already lower", fold("already lower"));
}

#[test]
fn fold_of_the_empty_text_is_empty() {
    assert_eq!("", fold(""));
}

#[test]
fn fold_keeps_what_has_no_case() {
    assert_eq!("1234 !? \t", fold("1234 !? \t"));
    assert_eq!("日本語", fold("日本語"));
}

#[test]
fn fold_is_not_limited_to_ascii() {
    assert_eq!("äöü", fold("ÄÖÜ"));
    assert_eq!("école", fold("École"));
    assert_eq!("straße", fold("Straße"));
}

#[test]
fn fold_may_change_the_number_of_characters() {
    assert_eq!("i\u{307}", fold("\u{130}"));
}

#[test]
fn fold_lowers_capital_sigma_by_its_place() {
    assert_eq!("ὀδυσσεύς", fold("ὈΔΥΣΣΕΎΣ"));
    assert_eq!("ας", fold("ΑΣ"));
    assert_eq!("ασα", fold("ΑΣΑ"));
}

#[test]
fn fold_agrees_with_the_standard_library() {
    let samples = ["", "A", "a", "Hello, World!", "ÀÉÎÕÜ", "ǅ", "ΣΑΣ", "İstanbul", "ß"];
    for sample in samples {
        assert_eq!(sample.to_lowercase(), fold(sample));
    }
}
