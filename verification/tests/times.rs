use phonikud_rs::expander::time::expand_times;

#[test]
fn test_time_with_minutes() {
    let r = expand_times("14:30");
    assert!(r.contains("שְׁתַּ֫יִם") && r.contains("דַּקּוֹת"), "got: {r}");
}

#[test]
fn test_time_on_hour() {
    let r = expand_times("8:00");
    assert!(r.contains("שְׁמ֫וֹנֶה"), "got: {r}");
    assert!(!r.contains("דַּקּוֹת"), "got: {r}");
}

#[test]
fn test_midnight() {
    let r = expand_times("0:00");
    // 0 -> 12 -> שתים עשרה
    assert!(r.contains("שְׁתֵּ֫ים"), "got: {r}");
}
