use phonikud_rs::expander::dates::expand_dates;
use phonikud_rs::expander::dictionary::{expand_dictionary, lookup, Dictionary};
use phonikud_rs::expander::hebrew_chars::expand_geresh;
use phonikud_rs::expander::punctuation::expand_punctuation;
use phonikud_rs::expander::time::expand_times;

#[test]
fn dates_exact_and_rejected() {
    assert_eq!(expand_dates("2024-01-15"), "חָמֵשׁעֶשְׂרֵה בֵּיָ֫נוּאָר אַלְפַּאיִם עֶשְׂרִ֫ים וֵאַ֫רְבַּע");
    assert_eq!(expand_dates("2024-13-01"), "2024-13-01");
    assert_eq!(expand_dates("10/10/10"), "10/10/10");
}

#[test]
fn times_exact_and_rejected() {
    assert_eq!(expand_times("14:30"), "שְׁתַּ֫יִם וֵשְׁלוֹשִׁים דַּקּוֹת");
    assert_eq!(expand_times("8:00"), "שְׁמ֫וֹנֶה");
    assert_eq!(expand_times("25:00"), "25:00");
    assert_eq!(expand_times("no time"), "no time");
}

#[test]
fn punctuation_exact() {
    assert_eq!(expand_punctuation("\"a\""), " בגרשיים a סוגר גרשיים ");
    assert_eq!(expand_punctuation("{x}"), " בסוגריים מסולסלים x סוגר סוגריים מסולסלים ");
}

#[test]
fn geresh_foreign_sound_and_plain_text() {
    assert_eq!(expand_geresh("ג׳ירפה"), "ג'ירפה");
    assert_eq!(expand_geresh("ט״ו"), "טֵית וָאו");
    assert_eq!(expand_geresh("hello world"), "hello world");
}

#[test]
fn dictionary_exact_expansion() {
    assert_eq!(expand_dictionary("מחיר 50 ₪"), "מחיר 50 ʃˈekel");
    assert_eq!(lookup("צה״ל").as_deref(), Some("tsˈahal"));
}

#[test]
fn dictionary_later_entries_override() {
    let mut d = Dictionary::builtin();
    let n = d.extend_from_json("{\"₪\": \"ʃekel2\", \"ביבי\": \"bˈibi\"}");
    assert_eq!(n, 2);
    assert_eq!(d.get("₪").as_deref(), Some("ʃekel2"));
    assert_eq!(d.get("ביבי").as_deref(), Some("bˈibi"));
    assert_eq!(d.get("$").as_deref(), Some("dˈolar"));
}

#[test]
fn dictionary_bad_json_is_ignored() {
    let mut d = Dictionary::new();
    assert_eq!(d.extend_from_json("not json"), 0);
    assert_eq!(d.extend_from_json("{\"a\": 1}"), 0);
    assert_eq!(d.get("a"), None);
    d.insert("a".to_string(), "b".to_string());
    assert_eq!(d.get("a").as_deref(), Some("b"));
}

#[test]
fn dictionary_extend_pairs_in_order() {
    let mut d = Dictionary::new();
    let pairs = vec![
        ("a".to_string(), "1".to_string()),
        ("b".to_string(), "2".to_string()),
        ("a".to_string(), "3".to_string()),
    ];
    d.extend_pairs(&pairs);
    assert_eq!(d.get("a").as_deref(), Some("3"));
    assert_eq!(d.get("b").as_deref(), Some("2"));
    assert_eq!(d.get("c"), None);
}
