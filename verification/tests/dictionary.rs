use phonikud_rs::expander::dictionary::{expand_dictionary, lookup};

#[test]
fn test_symbol_lookup() {
    assert_eq!(lookup("₪").as_deref(), Some("ʃˈekel"));
    assert_eq!(lookup("$").as_deref(), Some("dˈolar"));
    assert_eq!(lookup("%").as_deref(), Some("axˈuz"));
}

#[test]
fn test_special_lookup() {
    assert_eq!(lookup("יאללה").as_deref(), Some("jˈala"));
}

#[test]
fn test_abbreviation_lookup() {
    assert_eq!(lookup("צה״ל").as_deref(), Some("tsˈahal"));
}

#[test]
fn test_unknown() {
    assert_eq!(lookup("שלום"), None);
}

#[test]
fn test_expand() {
    let r = expand_dictionary("מחיר 50 ₪");
    assert!(r.contains("ʃˈekel"), "got: {r}");
}
