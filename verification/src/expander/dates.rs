//! Date expansion: `YYYY-MM-DD`, `DD.MM.YYYY`, `DD/MM/YYYY` and the like
//! become Hebrew words with nikud.

use vstd::prelude::*;

use crate::expander::numbers::{num_to_word, num_word};
use crate::pattern::{
    captured_view, regex_captures, regex_captures_of, replace_matches, replaced, well_placed, Captured,
};
use crate::text::{byte_len, utf8_len, parse_u32_or_zero, parse_u32_or_zero_range, push_char, str_chars, views};

verus! {

/// The date pattern: three runs of digits separated by `.`, `/` or `-`.
pub const DATE_PATTERN: &'static str = r"\b(\d{1,4})[./\-](\d{1,2})[./\-](\d{1,4})\b";

/// Month names with nikud, 1 to 12.
pub open spec fn month_name(b: int) -> Seq<char> {
    if b == 1 {
        "יָ֫נוּאָר"@
    } else if b == 2 {
        "פֶ֫בְרוּאָר"@
    } else if b == 3 {
        "מֵ֫רְץ"@
    } else if b == 4 {
        "אֵפְרִיל"@
    } else if b == 5 {
        "מַאי"@
    } else if b == 6 {
        "י֫וּנִי"@
    } else if b == 7 {
        "י֫וּלִי"@
    } else if b == 8 {
        "א֫וֹגֻסְט"@
    } else if b == 9 {
        "סֶפְּטֶ֫מְבֶּר"@
    } else if b == 10 {
        "אוֹקְט֫וֹבֶּר"@
    } else if b == 11 {
        "נוֹבֶ֫מְבֶּר"@
    } else {
        "דֶּצֶ֫מְבֶּר"@
    }
}

fn month(b: u32) -> (r: &'static str)
    requires
        1 <= b <= 12,
    ensures
        r@ == month_name(b as int),
{
    match b {
        1 => "יָ֫נוּאָר",
        2 => "פֶ֫בְרוּאָר",
        3 => "מֵ֫רְץ",
        4 => "אֵפְרִיל",
        5 => "מַאי",
        6 => "י֫וּנִי",
        7 => "י֫וּלִי",
        8 => "א֫וֹגֻסְט",
        9 => "סֶפְּטֶ֫מְבֶּר",
        10 => "אוֹקְט֫וֹבֶּר",
        11 => "נוֹבֶ֫מְבֶּר",
        _ => "דֶּצֶ֫מְבֶּר",
    }
}

/// Capture group `i`, or nothing when there is no such group.
pub open spec fn group_of(gs: Seq<Seq<char>>, i: int) -> Seq<char> {
    if 0 <= i < gs.len() {
        gs[i]
    } else {
        Seq::empty()
    }
}

/// The characters of capture group `i` of a match.
pub(crate) fn group_chars(m: &Captured, i: usize) -> (r: Vec<char>)
    ensures
        r@ == group_of(captured_view(*m).2, i as int),
{
    if i < m.groups.len() {
        str_chars(m.groups[i].as_str())
    } else {
        Vec::new()
    }
}

/// "day בֵּmonth year".
pub open spec fn date_words(day: nat, month: nat, year: nat) -> Seq<char> {
    num_word(day as int) + " בֵּ"@ + month_name(month as int) + seq![' '] + num_word(year as int)
}

/// What a date match is read as: year-month-day when the first number is
/// above 31, day-month-year when the last one is, with a month in 1..=12
/// and a day in 1..=31; otherwise the match itself.
pub open spec fn date_replacement_spec(gs: Seq<Seq<char>>) -> Seq<char> {
    let a = parse_u32_or_zero(group_of(gs, 1));
    let b = parse_u32_or_zero(group_of(gs, 2));
    let c = parse_u32_or_zero(group_of(gs, 3));
    if a > 31 && 1 <= b <= 12 && 1 <= c <= 31 {
        date_words(c, b, a)
    } else if c > 31 && 1 <= b <= 12 && 1 <= a <= 31 {
        date_words(a, b, c)
    } else {
        group_of(gs, 0)
    }
}

/// `text` with each of the matches `ms` read as a date.
pub open spec fn dates_in(text: Seq<char>, ms: Seq<(nat, nat, Seq<Seq<char>>)>) -> Seq<char> {
    replaced(text, ms, ms.map_values(|m: (nat, nat, Seq<Seq<char>>)| date_replacement_spec(m.2)))
}

/// `text` with every match of `DATE_PATTERN` read as a date.
pub open spec fn dates_spec(text: Seq<char>) -> Seq<char> {
    match regex_captures_of(DATE_PATTERN@, text) {
        None => text,
        Some(ms) => dates_in(text, ms),
    }
}

fn date_phrase(day: u32, mon: u32, year: u32) -> (r: String)
    requires
        1 <= mon <= 12,
    ensures
        r@ == date_words(day as nat, mon as nat, year as nat),
{
    let mut r = num_to_word(day as i64);
    r.append(" בֵּ");
    r.append(month(mon));
    push_char(&mut r, ' ');
    let y = num_to_word(year as i64);
    r.append(y.as_str());
    r
}

fn date_replacement(m: &Captured) -> (r: String)
    ensures
        r@ == date_replacement_spec(captured_view(*m).2),
{
    let g1 = group_chars(m, 1);
    let g2 = group_chars(m, 2);
    let g3 = group_chars(m, 3);
    let a = parse_u32_or_zero_range(&g1, 0, g1.len());
    let b = parse_u32_or_zero_range(&g2, 0, g2.len());
    let c = parse_u32_or_zero_range(&g3, 0, g3.len());
    assert(g1@.subrange(0, g1@.len() as int) =~= g1@);
    assert(g2@.subrange(0, g2@.len() as int) =~= g2@);
    assert(g3@.subrange(0, g3@.len() as int) =~= g3@);
    // YYYY-MM-DD (year > 31)
    if a > 31 && 1 <= b && b <= 12 && 1 <= c && c <= 31 {
        return date_phrase(c, b, a);
    }
    // DD-MM-YYYY (c > 31)
    if c > 31 && 1 <= b && b <= 12 && 1 <= a && a <= 31 {
        return date_phrase(a, b, c);
    }
    if 0 < m.groups.len() {
        m.groups[0].clone()
    } else {
        String::new()
    }
}

/// `text` with each of `matches` (the matches of `DATE_PATTERN` in it) read as a date.
pub fn replace_dates(text: &str, matches: &Vec<Captured>) -> (r: String)
    requires
        well_placed(matches@.map_values(|c: Captured| captured_view(c)), utf8_len(text@)),
    ensures
        r@ == dates_in(text@, matches@.map_values(|c: Captured| captured_view(c))),
{
    let chars = str_chars(text);
    // Its byte length fits in `usize`.
    let _bytes: usize = byte_len(text);
    let ghost mv = matches@.map_values(|c: Captured| captured_view(c));
    let mut reps: Vec<String> = Vec::new();
    let mut i: usize = 0;
    while i < matches.len()
        invariant
            i <= matches@.len(),
            mv == matches@.map_values(|c: Captured| captured_view(c)),
            views(reps@) =~= mv.take(i as int).map_values(
                |m: (nat, nat, Seq<Seq<char>>)| date_replacement_spec(m.2),
            ),
        decreases matches@.len() - i,
    {
        let ghost old_r = reps@;
        reps.push(date_replacement(&matches[i]));
        assert(views(reps@) =~= views(old_r).push(date_replacement_spec(mv[i as int].2)));
        assert(mv.take(i + 1) =~= mv.take(i as int).push(mv[i as int]));
        i = i + 1;
    }
    assert(mv.take(matches@.len() as int) =~= mv);
    replace_matches(&chars, matches, &reps)
}

/// Reads the dates of `text` out loud.
pub fn expand_dates(text: &str) -> (r: String)
    ensures
        r@ == dates_spec(text@),
{
    match regex_captures(DATE_PATTERN, text) {
        None => String::from_str(text),
        Some(ms) => replace_dates(text, &ms),
    }
}

/// A text in which the date pattern finds no match is left as it is.
pub proof fn lemma_no_date_unchanged(text: Seq<char>)
    requires
        regex_captures_of(DATE_PATTERN@, text) == Some(Seq::<(nat, nat, Seq<Seq<char>>)>::empty()),
    ensures
        dates_spec(text) == text,
{
    let ms = Seq::<(nat, nat, Seq<Seq<char>>)>::empty();
    crate::pattern::lemma_no_match_unchanged(text);
    assert(ms.map_values(|m: (nat, nat, Seq<Seq<char>>)| date_replacement_spec(m.2)) =~= Seq::<Seq<char>>::empty());
}

/// A date written year first (a year above 31, a month 1..=12, a day
/// 1..=31) reads as "day בֵּmonth year".
pub proof fn lemma_date_year_first(w: Seq<char>, ys: Seq<char>, ms: Seq<char>, ds: Seq<char>)
    requires
        parse_u32_or_zero(ys) > 31,
        1 <= parse_u32_or_zero(ms) <= 12,
        1 <= parse_u32_or_zero(ds) <= 31,
    ensures
        date_replacement_spec(seq![w, ys, ms, ds]) == num_word(parse_u32_or_zero(ds) as int) + " בֵּ"@
            + month_name(parse_u32_or_zero(ms) as int) + seq![' '] + num_word(
            parse_u32_or_zero(ys) as int,
        ),
{
    let gs = seq![w, ys, ms, ds];
    assert(group_of(gs, 1) == ys && group_of(gs, 2) == ms && group_of(gs, 3) == ds);
}

/// A date written day first (a day 1..=31, a month 1..=12, a year above 31)
/// reads as "day בֵּmonth year".
pub proof fn lemma_date_day_first(w: Seq<char>, ds: Seq<char>, ms: Seq<char>, ys: Seq<char>)
    requires
        1 <= parse_u32_or_zero(ds) <= 31,
        1 <= parse_u32_or_zero(ms) <= 12,
        parse_u32_or_zero(ys) > 31,
    ensures
        date_replacement_spec(seq![w, ds, ms, ys]) == num_word(parse_u32_or_zero(ds) as int) + " בֵּ"@
            + month_name(parse_u32_or_zero(ms) as int) + seq![' '] + num_word(
            parse_u32_or_zero(ys) as int,
        ),
{
    let gs = seq![w, ds, ms, ys];
    assert(group_of(gs, 1) == ds && group_of(gs, 2) == ms && group_of(gs, 3) == ys);
}

/// The twelve Gregorian months, in order, read with their Hebrew names:
/// month 1 is January (יָ֫נוּאָר), ..., month 9 September, month 10 October,
/// month 12 December.
pub proof fn lemma_month_names()
    ensures
        month_name(1) == "יָ֫נוּאָר"@,
        month_name(2) == "פֶ֫בְרוּאָר"@,
        month_name(3) == "מֵ֫רְץ"@,
        month_name(4) == "אֵפְרִיל"@,
        month_name(5) == "מַאי"@,
        month_name(6) == "י֫וּנִי"@,
        month_name(7) == "י֫וּלִי"@,
        month_name(8) == "א֫וֹגֻסְט"@,
        month_name(9) == "סֶפְּטֶ֫מְבֶּר"@,
        month_name(10) == "אוֹקְט֫וֹבֶּר"@,
        month_name(11) == "נוֹבֶ֫מְבֶּר"@,
        month_name(12) == "דֶּצֶ֫מְבֶּר"@,
{
}

} // verus!
