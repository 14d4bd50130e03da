//! Hebrew geresh (׳ or ') and gershayim (״ or ") conventions.
//!
//! - A standalone letter with a geresh is read as the letter's name.
//! - A letter with a geresh before more letters (a foreign sound) keeps an
//!   ASCII apostrophe.
//! - Two standalone letters around a gershayim are read as both letter names.

use vstd::prelude::*;

use crate::text::{push_char, str_chars};

verus! {

/// Name (with nikud) of a Hebrew letter; final forms share the name of the
/// letter.
pub open spec fn letter_name_spec(c: char) -> Option<Seq<char>> {
    let u = c as u32;
    if u == 0x5D0 {
        Some("אָלֶף"@)
    } else if u == 0x5D1 {
        Some("בֵּית"@)
    } else if u == 0x5D2 {
        Some("גִּימֶל"@)
    } else if u == 0x5D3 {
        Some("דָּלֶת"@)
    } else if u == 0x5D4 {
        Some("הֵא"@)
    } else if u == 0x5D5 {
        Some("וָאו"@)
    } else if u == 0x5D6 {
        Some("זַ֫יִן"@)
    } else if u == 0x5D7 {
        Some("חֵית"@)
    } else if u == 0x5D8 {
        Some("טֵית"@)
    } else if u == 0x5D9 {
        Some("יוֹד"@)
    } else if u == 0x5DB || u == 0x5DA {
        Some("כָּף"@)
    } else if u == 0x5DC {
        Some("לָ֫מֶד"@)
    } else if u == 0x5DE || u == 0x5DD {
        Some("מֵם"@)
    } else if u == 0x5E0 || u == 0x5DF {
        Some("נוּן"@)
    } else if u == 0x5E1 {
        Some("סָ֫מֶך"@)
    } else if u == 0x5E2 {
        Some("עַ֫יִן"@)
    } else if u == 0x5E4 || u == 0x5E3 {
        Some("פֵּא"@)
    } else if u == 0x5E6 || u == 0x5E5 {
        Some("צָדִי"@)
    } else if u == 0x5E7 {
        Some("קוֹף"@)
    } else if u == 0x5E8 {
        Some("רֵישׁ"@)
    } else if u == 0x5E9 {
        Some("שִׁין"@)
    } else if u == 0x5EA {
        Some("תָּו"@)
    } else {
        None
    }
}

/// Hebrew letter names with nikud for phonikud.
pub fn letter_name(c: char) -> (r: Option<&'static str>)
    ensures
        match r {
            Some(s) => letter_name_spec(c) == Some(s@),
            None => letter_name_spec(c) is None,
        },
{
    let u = c as u32;
    if u == 0x5D0 {
        Some("אָלֶף")
    } else if u == 0x5D1 {
        Some("בֵּית")
    } else if u == 0x5D2 {
        Some("גִּימֶל")
    } else if u == 0x5D3 {
        Some("דָּלֶת")
    } else if u == 0x5D4 {
        Some("הֵא")
    } else if u == 0x5D5 {
        Some("וָאו")
    } else if u == 0x5D6 {
        Some("זַ֫יִן")
    } else if u == 0x5D7 {
        Some("חֵית")
    } else if u == 0x5D8 {
        Some("טֵית")
    } else if u == 0x5D9 {
        Some("יוֹד")
    } else if u == 0x5DB || u == 0x5DA {
        Some("כָּף")
    } else if u == 0x5DC {
        Some("לָ֫מֶד")
    } else if u == 0x5DE || u == 0x5DD {
        Some("מֵם")
    } else if u == 0x5E0 || u == 0x5DF {
        Some("נוּן")
    } else if u == 0x5E1 {
        Some("סָ֫מֶך")
    } else if u == 0x5E2 {
        Some("עַ֫יִן")
    } else if u == 0x5E4 || u == 0x5E3 {
        Some("פֵּא")
    } else if u == 0x5E6 || u == 0x5E5 {
        Some("צָדִי")
    } else if u == 0x5E7 {
        Some("קוֹף")
    } else if u == 0x5E8 {
        Some("רֵישׁ")
    } else if u == 0x5E9 {
        Some("שִׁין")
    } else if u == 0x5EA {
        Some("תָּו")
    } else {
        None
    }
}

/// Hebrew letters א..ת, final forms included.
pub open spec fn is_hebrew_letter_spec(c: char) -> bool {
    0x5D0 <= (c as u32) <= 0x5EA
}

fn is_hebrew_letter(c: char) -> (b: bool)
    ensures
        b == is_hebrew_letter_spec(c),
{
    let u = c as u32;
    0x5D0 <= u && u <= 0x5EA
}

/// ׳, ' or ’.
pub open spec fn is_geresh_spec(c: char) -> bool {
    c == '\u{05F3}' || c == '\'' || c == '\u{2019}'
}

fn is_geresh(c: char) -> (b: bool)
    ensures
        b == is_geresh_spec(c),
{
    c == '\u{05F3}' || c == '\'' || c == '\u{2019}'
}

/// ״, " or ”.
pub open spec fn is_gershayim_spec(c: char) -> bool {
    c == '\u{05F4}' || c == '"' || c == '\u{201D}'
}

fn is_gershayim(c: char) -> (b: bool)
    ensures
        b == is_gershayim_spec(c),
{
    c == '\u{05F4}' || c == '"' || c == '\u{201D}'
}

/// No Hebrew letter at position `j` (positions outside the text count as
/// no letter).
pub open spec fn no_letter_at(cs: Seq<char>, j: int) -> bool {
    j < 0 || j >= cs.len() || !is_hebrew_letter_spec(cs[j])
}

/// What is emitted at position `i` and the position that follows.
pub open spec fn geresh_step(cs: Seq<char>, i: int) -> (Seq<char>, int) {
    let len = cs.len();
    if i + 2 < len && is_hebrew_letter_spec(cs[i]) && is_gershayim_spec(cs[i + 1])
        && is_hebrew_letter_spec(cs[i + 2]) && no_letter_at(cs, i - 1) && no_letter_at(cs, i + 3)
        && letter_name_spec(cs[i]) is Some && letter_name_spec(cs[i + 2]) is Some {
        // Two letters around a gershayim: both names.
        (
            letter_name_spec(cs[i])->0 + seq![' '] + letter_name_spec(cs[i + 2])->0,
            i + 3,
        )
    } else if i + 1 < len && is_hebrew_letter_spec(cs[i]) && is_geresh_spec(cs[i + 1]) {
        if no_letter_at(cs, i - 1) && no_letter_at(cs, i + 2) && letter_name_spec(cs[i]) is Some {
            // Standalone letter and geresh: the letter's name.
            (letter_name_spec(cs[i])->0, i + 2)
        } else if !no_letter_at(cs, i + 2) {
            // Geresh before more letters: kept as an ASCII apostrophe.
            (seq![cs[i], '\''], i + 2)
        } else {
            (seq![cs[i]], i + 1)
        }
    } else {
        (seq![cs[i]], i + 1)
    }
}

/// The reading of `cs` from position `i` on.
pub open spec fn geresh_from(cs: Seq<char>, i: int) -> Seq<char>
    decreases cs.len() - i,
{
    if i < 0 || i >= cs.len() {
        Seq::empty()
    } else {
        geresh_step(cs, i).0 + geresh_from(cs, geresh_step(cs, i).1)
    }
}

/// `text` with its geresh and gershayim conventions read out.
pub open spec fn geresh_spec(text: Seq<char>) -> Seq<char> {
    geresh_from(text, 0)
}

/// Process geresh and gershayim in text.
pub fn expand_geresh(text: &str) -> (r: String)
    ensures
        r@ == geresh_spec(text@),
{
    let chars = str_chars(text);
    let ghost cs = chars@;
    let len = chars.len();
    let mut result = String::new();
    let mut i: usize = 0;
    while i < len
        invariant
            i <= len == cs.len(),
            cs == chars@,
            cs == text@,
            result@ + geresh_from(cs, i as int) == geresh_from(cs, 0),
        decreases len - i,
    {
        let ghost before = result@;
        let ghost step = geresh_step(cs, i as int);
        // Two letters around a gershayim, e.g. ט״ו.
        if len - i > 2 && is_hebrew_letter(chars[i]) && is_gershayim(chars[i + 1])
            && is_hebrew_letter(chars[i + 2]) {
            let before_ok = i == 0 || !is_hebrew_letter(chars[i - 1]);
            let after_ok = len - i <= 3 || !is_hebrew_letter(chars[i + 3]);
            if before_ok && after_ok {
                match (letter_name(chars[i]), letter_name(chars[i + 2])) {
                    (Some(name1), Some(name2)) => {
                        result.append(name1);
                        push_char(&mut result, ' ');
                        result.append(name2);
                        i = i + 3;
                        assert(result@ =~= before + step.0);
                        continue ;
                    },
                    _ => {},
                }
            }
        }
        // A letter and a geresh.

        if len - i > 1 && is_hebrew_letter(chars[i]) && is_geresh(chars[i + 1]) {
            let before_ok = i == 0 || !is_hebrew_letter(chars[i - 1]);
            let after_ok = len - i <= 2 || !is_hebrew_letter(chars[i + 2]);
            if before_ok && after_ok {
                // Standalone letter and geresh: the letter's name.
                match letter_name(chars[i]) {
                    Some(name) => {
                        result.append(name);
                        i = i + 2;
                        continue ;
                    },
                    None => {},
                }
            } else if !after_ok {
                // Letter, geresh and more letters (a foreign sound such as ג׳ירפה):
                // the geresh stays, as an ASCII apostrophe, for the phonemizer.
                push_char(&mut result, chars[i]);
                push_char(&mut result, '\'');
                i = i + 2;
                assert(result@ =~= before + step.0);
                continue ;
            }
        }
        push_char(&mut result, chars[i]);
        i = i + 1;
        assert(result@ =~= before + step.0);
    }
    assert(geresh_from(cs, len as int) == Seq::<char>::empty());
    assert(result@ =~= result@ + geresh_from(cs, len as int));
    result
}

/// Text with no geresh and no gershayim is left unchanged.
pub proof fn lemma_geresh_identity(text: Seq<char>)
    requires
        forall|i: int|
            0 <= i < text.len() ==> !is_geresh_spec(#[trigger] text[i]) && !is_gershayim_spec(
                text[i],
            ),
    ensures
        geresh_spec(text) == text,
{
    lemma_geresh_from_identity(text, 0);
    assert(text.skip(0) =~= text);
}

proof fn lemma_geresh_from_identity(text: Seq<char>, i: int)
    requires
        0 <= i <= text.len(),
        forall|j: int|
            0 <= j < text.len() ==> !is_geresh_spec(#[trigger] text[j]) && !is_gershayim_spec(
                text[j],
            ),
    ensures
        geresh_from(text, i) == text.skip(i),
    decreases text.len() - i,
{
    if i < text.len() {
        assert(!is_gershayim_spec(text[i + 1]) || i + 1 >= text.len());
        lemma_geresh_from_identity(text, i + 1);
        assert(text.skip(i) =~= seq![text[i]] + text.skip(i + 1));
    } else {
        assert(text.skip(i) =~= Seq::<char>::empty());
    }
}

/// Exactly the Hebrew letters א..ת have a name, and each final form has
/// the name of its letter.
pub proof fn lemma_letter_names(c: char)
    ensures
        letter_name_spec(c) is Some <==> 0x5D0 <= (c as u32) <= 0x5EA,
        letter_name_spec('\u{05DA}') == letter_name_spec('\u{05DB}'),
        letter_name_spec('\u{05DD}') == letter_name_spec('\u{05DE}'),
        letter_name_spec('\u{05DF}') == letter_name_spec('\u{05E0}'),
        letter_name_spec('\u{05E3}') == letter_name_spec('\u{05E4}'),
        letter_name_spec('\u{05E5}') == letter_name_spec('\u{05E6}'),
{
}

/// The name of each Hebrew letter (final forms with their letter's name).
pub proof fn lemma_letter_name_table()
    ensures
        letter_name_spec('\u{05D0}') == Some("אָלֶף"@),
        letter_name_spec('\u{05D1}') == Some("בֵּית"@),
        letter_name_spec('\u{05D2}') == Some("גִּימֶל"@),
        letter_name_spec('\u{05D3}') == Some("דָּלֶת"@),
        letter_name_spec('\u{05D4}') == Some("הֵא"@),
        letter_name_spec('\u{05D5}') == Some("וָאו"@),
        letter_name_spec('\u{05D6}') == Some("זַ֫יִן"@),
        letter_name_spec('\u{05D7}') == Some("חֵית"@),
        letter_name_spec('\u{05D8}') == Some("טֵית"@),
        letter_name_spec('\u{05D9}') == Some("יוֹד"@),
        letter_name_spec('\u{05DB}') == Some("כָּף"@),
        letter_name_spec('\u{05DA}') == Some("כָּף"@),
        letter_name_spec('\u{05DC}') == Some("לָ֫מֶד"@),
        letter_name_spec('\u{05DE}') == Some("מֵם"@),
        letter_name_spec('\u{05DD}') == Some("מֵם"@),
        letter_name_spec('\u{05E0}') == Some("נוּן"@),
        letter_name_spec('\u{05DF}') == Some("נוּן"@),
        letter_name_spec('\u{05E1}') == Some("סָ֫מֶך"@),
        letter_name_spec('\u{05E2}') == Some("עַ֫יִן"@),
        letter_name_spec('\u{05E4}') == Some("פֵּא"@),
        letter_name_spec('\u{05E3}') == Some("פֵּא"@),
        letter_name_spec('\u{05E6}') == Some("צָדִי"@),
        letter_name_spec('\u{05E5}') == Some("צָדִי"@),
        letter_name_spec('\u{05E7}') == Some("קוֹף"@),
        letter_name_spec('\u{05E8}') == Some("רֵישׁ"@),
        letter_name_spec('\u{05E9}') == Some("שִׁין"@),
        letter_name_spec('\u{05EA}') == Some("תָּו"@),
{
}

} // verus!
