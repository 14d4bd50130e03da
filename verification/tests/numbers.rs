use phonikud_rs::expander::numbers::{expand_numbers, num_to_word};

#[test]
fn test_number_formats() {
    for n in [15, 22, 92, 300, 512, 1992, 3000, 5000, 10000, 20000] {
        println!("{n} => {}", num_to_word(n));
    }
}

#[test]
fn test_zero() { assert!(num_to_word(0).contains("אֶ֫פֶס")); }

#[test]
fn test_single() { assert!(num_to_word(3).contains("שָׁלוֹשׁ")); }

#[test]
fn test_teens() {
    let r = num_to_word(15);
    assert!(r.contains("חָמֵשׁ") && r.contains("עֶשְׂרֵה"), "got: {r}");
}

#[test]
fn test_thousands() { assert!(num_to_word(2000).contains("אַלְפַּאיִם")); }

#[test]
fn test_expand_in_text() {
    let r = expand_numbers("יש לי 3 חתולים");
    assert!(r.contains("שָׁלוֹשׁ") && r.contains("חתולים"), "got: {r}");
}

#[test]
fn test_decimal() {
    assert!(expand_numbers("3.5").contains("נְֽקֻדָּה"));
}

#[test]
fn test_negative() {
    let r = expand_numbers("-5");
    assert!(r.contains("מִ֫ינּוּס") && r.contains("חָמֵשׁ"), "got: {r}");
}

#[test]
fn test_prefix() {
    let r = expand_numbers("ו15");
    assert!(r.contains("ו") && r.contains("חָמֵשׁ"), "got: {r}");
}

#[test]
fn test_hyphen_prefix_not_negative() {
    // ו-15 should be "ו" + "15" (not minus 15)
    let r = expand_numbers("ו-15");
    assert!(!r.contains("מִ֫ינּוּס"), "should not be negative, got: {r}");
    assert!(r.contains("חָמֵשׁ"), "got: {r}");
}

#[test]
fn test_multi_letter_prefix() {
    // מכ-20 = "from about 20"
    let r = expand_numbers("מכ-20");
    assert!(r.contains("עֶשְׂרִ֫ים"), "should contain 'esrim' (20), got: {r}");
    assert!(r.starts_with("מכ"), "should keep prefix, got: {r}");
}

#[test]
fn test_prefix_number_with_sentence_punctuation() {
    let r = expand_numbers("מ-0 ל-1.");
    assert!(r.contains("אֶ֫פֶס"), "got: {r}");
    assert!(r.contains("אַחַת."), "got: {r}");
}
