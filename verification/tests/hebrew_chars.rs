use phonikud_rs::expander::hebrew_chars::expand_geresh;

#[test]
fn test_foreign_geresh_kept() {
    // ת׳יל → ת'יל (keep geresh for phonemizer)
    let r = expand_geresh("ת׳יל");
    assert_eq!(r, "ת'יל");
}

#[test]
fn test_standalone_letter_geresh() {
    // א׳ → letter name
    let r = expand_geresh("א׳");
    assert!(r.contains("אָלֶף"), "got: {r}");
}

#[test]
fn test_standalone_letter_geresh_in_sentence() {
    let r = expand_geresh("סעיף א׳ בחוק");
    assert!(r.contains("אָלֶף"), "got: {r}");
}

#[test]
fn test_gershayim_two_letters() {
    // ט״ו → tet vav
    let r = expand_geresh("ט״ו");
    assert!(r.contains("טֵית") && r.contains("וָאו"), "got: {r}");
}

#[test]
fn test_gershayim_in_sentence() {
    let r = expand_geresh("ט״ו בשבט");
    assert!(r.contains("טֵית") && r.contains("וָאו"), "got: {r}");
}

#[test]
fn test_no_change_normal_text() {
    let r = expand_geresh("שלום עולם");
    assert_eq!(r, "שלום עולם");
}

#[test]
fn test_ascii_quote_geresh() {
    // ת'יל with ASCII quote — keep geresh for phonemizer
    let r = expand_geresh("ת'יל");
    assert_eq!(r, "ת'יל");
}
