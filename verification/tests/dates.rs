use phonikud_rs::expander::dates::expand_dates;

#[test]
fn test_ymd() {
    let r = expand_dates("2024-01-15");
    assert!(r.contains("יָ֫נוּאָר"), "got: {r}");
}

#[test]
fn test_dmy() {
    let r = expand_dates("15/01/2024");
    assert!(r.contains("יָ֫נוּאָר"), "got: {r}");
}

#[test]
fn test_not_date() {
    assert_eq!(expand_dates("hello"), "hello");
}
