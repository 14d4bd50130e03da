use phonikud_rs::expander::punctuation::expand_punctuation;

#[test]
fn test_square_brackets() {
    let result = expand_punctuation("שלום [עולם] טוב");
    assert!(result.contains("בסוגריים מרובעים"));
    assert!(result.contains("סוגר סוגריים מרובעים"));
}

#[test]
fn test_parens() {
    let result = expand_punctuation("(שלום)");
    assert!(result.contains("בסוגריים"));
    assert!(result.contains("סוגר סוגריים"));
}

#[test]
fn test_quotes() {
    let result = expand_punctuation("הוא אמר \"שלום\" לכולם");
    assert!(result.contains("בגרשיים"));
    assert!(result.contains("סוגר גרשיים"));
}

#[test]
fn test_no_punctuation() {
    assert_eq!(expand_punctuation("שלום עולם"), "שלום עולם");
}
