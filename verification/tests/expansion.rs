use phonikud_rs::expander::{expand_text, expand_text_with_spans};

#[test]
fn expand_text_readme_example() {
    let r = expand_text("התאריך הוא 14/03/2026 והמחיר 50 ₪");
    assert!(r.contains("מֵ֫רְץ"), "got: {r}");
    assert!(r.contains("חֲמִשִּׁים"), "got: {r}");
    assert!(r.contains("ʃˈekel"), "got: {r}");
    assert!(!r.contains("50"), "got: {r}");
}

#[test]
fn expand_text_single_number() {
    assert_eq!(expand_text("יש 3"), "יש שָׁלוֹשׁ");
}

#[test]
fn expand_text_empty_and_blank() {
    assert_eq!(expand_text(""), "");
    let r = expand_text_with_spans(" \n\t ");
    assert_eq!(r.text, "");
    assert!(r.tokens.is_empty());
}

fn chars_at(text: &str, start: usize, end: usize) -> String {
    text.chars().skip(start).take(end - start).collect()
}

#[test]
fn spans_locate_words_in_both_texts() {
    let input = "בתאריך 14/03/2026 המחיר הוא 50 ₪ ולא 100 $.";
    let r = expand_text_with_spans(input);
    assert!(!r.tokens.is_empty());
    for t in &r.tokens {
        assert_eq!(chars_at(input, t.original_span.start, t.original_span.end), t.original_text);
        assert_eq!(
            &r.text.as_bytes()[t.expanded_span.start..t.expanded_span.end],
            t.expanded_text.as_bytes()
        );
    }
    for w in r.tokens.windows(2) {
        assert_eq!(w[0].expanded_span.end + 1, w[1].expanded_span.start);
        assert!(w[0].original_span.end < w[1].original_span.start);
    }
    let joined: Vec<&str> = r.tokens.iter().map(|t| t.expanded_text.as_str()).collect();
    assert_eq!(r.text, joined.join(" "));
}

#[test]
fn spans_are_character_positions_in_the_input() {
    let r = expand_text_with_spans("מחיר 50");
    assert_eq!(r.tokens.len(), 2);
    assert_eq!((r.tokens[1].original_span.start, r.tokens[1].original_span.end), (5, 7));
    assert_eq!(r.tokens[1].original_text, "50");

    let r = expand_text_with_spans("  50");
    assert_eq!((r.tokens[0].original_span.start, r.tokens[0].original_span.end), (2, 4));

    let r = expand_text_with_spans("  שלום\n\nעולם  ");
    assert_eq!(r.text, "שלום עולם");
    assert_eq!(r.tokens.len(), 2);
    assert_eq!((r.tokens[0].original_span.start, r.tokens[0].original_span.end), (2, 6));
    assert_eq!((r.tokens[1].original_span.start, r.tokens[1].original_span.end), (8, 12));
    assert_eq!(r.tokens[1].original_text, "עולם");
    // Expanded spans are byte ranges of the expanded text.
    assert_eq!((r.tokens[1].expanded_span.start, r.tokens[1].expanded_span.end), (9, 17));
}

#[test]
fn spans_cover_characters_that_normalization_changes() {
    // The ellipsis becomes three dots, the zero-width space vanishes and the
    // en dash becomes a hyphen; the spans still point at the input.
    let input = "a\u{2013}b c\u{200B}d e\u{2026}";
    let r = expand_text_with_spans(input);
    assert_eq!(r.tokens.len(), 3);
    assert_eq!((r.tokens[0].original_span.start, r.tokens[0].original_span.end), (0, 3));
    assert_eq!(r.tokens[0].original_text, "a\u{2013}b");
    assert_eq!((r.tokens[1].original_span.start, r.tokens[1].original_span.end), (4, 7));
    assert_eq!(r.tokens[1].original_text, "c\u{200B}d");
    assert_eq!((r.tokens[2].original_span.start, r.tokens[2].original_span.end), (8, 10));
    assert_eq!(r.tokens[2].original_text, "e\u{2026}");
    for t in &r.tokens {
        assert_eq!(chars_at(input, t.original_span.start, t.original_span.end), t.original_text);
    }
}

#[test]
fn normalization_of_special_characters() {
    // Smart quotes, an en dash and an ellipsis become ASCII; zero-width spaces vanish.
    let r = expand_text("a\u{2013}b c\u{200B}d e\u{2026}");
    assert_eq!(r, "a-b cd e...");
}

#[test]
fn dictionary_word_token_is_replaced_whole() {
    let r = expand_text_with_spans("צה״ל");
    assert_eq!(r.text, "tsˈahal");
    assert_eq!(r.tokens[0].original_text, "צה״ל");
}

#[test]
fn punctuation_spaces_kept_inside_a_token() {
    let r = expand_text_with_spans("(שלום)");
    assert_eq!(r.tokens.len(), 1);
    assert!(r.text.contains("בסוגריים"), "got: {}", r.text);
}
