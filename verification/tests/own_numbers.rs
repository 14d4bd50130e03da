use phonikud_rs::expander::numbers::{expand_numbers, num_to_word};

#[test]
fn num_to_word_exact_values() {
    assert_eq!(num_to_word(21), "עֶשְׂרִ֫ים וֵאַחַת");
    assert_eq!(num_to_word(100), "מֵ֫אָה");
    assert_eq!(num_to_word(115), "מֵ֫אָה חָמֵשׁעֶשְׂרֵה");
    assert_eq!(num_to_word(2000), "אַלְפַּאיִם");
    assert_eq!(num_to_word(11000), "אַחַתעֶשְׂרֵה אֶ֫לֶף");
    assert_eq!(num_to_word(1_000_000), "מִילְיוֹן");
    assert_eq!(num_to_word(2_000_001), "שְׁתַּ֫יִם מִילְיוֹן אַחַת");
    assert_eq!(num_to_word(1_000_000_000), "מִילְיַארְד");
}

#[test]
fn num_to_word_ignores_sign() {
    assert_eq!(num_to_word(-42), num_to_word(42));
    let w = num_to_word(i64::MIN);
    assert!(w.starts_with("תֵּשַׁע"), "got: {w}");
    assert!(w.ends_with("שְׁמ֫וֹנֶה"), "got: {w}");
}

#[test]
fn num_to_word_large_numbers_digit_by_digit() {
    let expected = format!("אַחַת{}", " אֶ֫פֶס".repeat(12));
    assert_eq!(num_to_word(1_000_000_000_000), expected);
}

#[test]
fn expand_numbers_exact_values() {
    assert_eq!(expand_numbers("-5"), "מִ֫ינּוּס חָמֵשׁ");
    assert_eq!(expand_numbers("3.5"), "שָׁלוֹשׁ נְֽקֻדָּה חָמֵשׁ");
    assert_eq!(expand_numbers("ו-15"), "וחָמֵשׁעֶשְׂרֵה");
    assert_eq!(expand_numbers("מ-0 ל-1."), "מאֶ֫פֶס לאַחַת.");
}

#[test]
fn expand_numbers_leaves_non_numbers() {
    assert_eq!(expand_numbers("שלום  עולם"), "שלום  עולם");
    assert_eq!(expand_numbers("1,000,000"), "1,000,000");
    assert_eq!(expand_numbers("12a3"), "12a3");
    assert_eq!(expand_numbers("99999999999999999999"), "99999999999999999999");
    assert_eq!(expand_numbers(""), "");
}

fn is_hebrew_or_space(c: char) -> bool {
    ('\u{0590}'..='\u{05FF}').contains(&c) || c == ' '
}

#[test]
fn number_words_are_hebrew() {
    assert_eq!(num_to_word(14), "אַרְבַּעעֶשְׂרֵה");
    let mut samples: Vec<i64> = (0..=20_000).collect();
    samples.extend([
        114, 14_000, 99_999, 123_456, 1_000_000, 14_014_014, 999_999_999, 1_000_000_000,
        999_999_999_999, 1_000_000_000_000, -14, i64::MAX, i64::MIN + 1,
    ]);
    for n in samples {
        let w = num_to_word(n);
        assert!(!w.is_empty(), "{n}");
        assert!(w.chars().all(is_hebrew_or_space), "{n}: {w}");
    }
}

#[test]
fn thousands_group_then_rest_reads_as_both() {
    for (a, b) in [(1000, 1), (14_000, 14), (2_000_000, 999), (5_000_000_000, 21)] {
        assert_eq!(num_to_word(a + b), format!("{} {}", num_to_word(a), num_to_word(b)));
    }
}
