use phonikud_rs::expander::dictionary::Dictionary;
use phonikud_rs::expander::hebrew_chars::letter_name;
use phonikud_rs::expander::numbers::{hundreds_to_word, tens_units_to_word, thousands_to_word};

#[test]
fn tens_and_units_join_with_ve() {
    for n in 21..=99u64 {
        if n % 10 != 0 {
            let expected = format!("{} וֵ{}", tens_units_to_word(n / 10 * 10), tens_units_to_word(n % 10));
            assert_eq!(tens_units_to_word(n), expected);
        }
    }
}

#[test]
fn thousands_above_ten_end_with_elef() {
    assert_eq!(thousands_to_word(20), "עֶשְׂרִ֫ים אֶ֫לֶף");
    assert_eq!(thousands_to_word(2), "אַלְפַּאיִם");
    for n in 11..=999u64 {
        assert_eq!(thousands_to_word(n), format!("{} אֶ֫לֶף", hundreds_to_word(n)));
    }
}

#[test]
fn letter_names_cover_the_alphabet() {
    for u in 0x5C0u32..0x600 {
        let c = char::from_u32(u).unwrap();
        assert_eq!(letter_name(c).is_some(), ('\u{05D0}'..='\u{05EA}').contains(&c), "{u:x}");
    }
    for (fin, base) in [('ך', 'כ'), ('ם', 'מ'), ('ן', 'נ'), ('ף', 'פ'), ('ץ', 'צ')] {
        assert_eq!(letter_name(fin), letter_name(base));
    }
    assert_eq!(letter_name('a'), None);
}

#[test]
fn extend_from_jsons_counts_and_merges_in_order() {
    let mut d = Dictionary::builtin();
    let texts = vec![
        "{\"₪\": \"x1\", \"ביבי\": \"bˈibi\"}".to_string(),
        "not json".to_string(),
        "{\"₪\": \"x2\"}".to_string(),
    ];
    assert_eq!(d.extend_from_jsons(&texts), 3);
    assert_eq!(d.get("₪").as_deref(), Some("x2"));
    assert_eq!(d.get("ביבי").as_deref(), Some("bˈibi"));
    assert_eq!(d.get("$").as_deref(), Some("dˈolar"));
    assert_eq!(Dictionary::new().extend_from_jsons(&vec![]), 0);
}
