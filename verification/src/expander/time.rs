//! Time expansion: `HH:MM` becomes Hebrew words with nikud (twelve-hour
//! reading).

use vstd::prelude::*;

use crate::expander::dates::{group_chars, group_of};
use crate::expander::numbers::{lemma_number_word_table, num_to_word, num_word};
use crate::pattern::{
    captured_view, regex_captures, regex_captures_of, replace_matches, replaced, well_placed, Captured,
};
use crate::text::{byte_len, utf8_len, parse_u32_or_zero, parse_u32_or_zero_range, str_chars, views};

verus! {

/// The time pattern: one or two digits, a colon, two digits.
pub const TIME_PATTERN: &'static str = r"(\d{1,2}):(\d{2})";

/// Hour words, 0 to 12.
pub open spec fn hour_name(h: int) -> Seq<char> {
    if h == 0 {
        "אֶ֫פֶס"@
    } else if h == 1 {
        "אַחַת"@
    } else if h == 2 {
        "שְׁתַּ֫יִם"@
    } else if h == 3 {
        "שָׁלוֹשׁ"@
    } else if h == 4 {
        "אַ֫רְבַּע"@
    } else if h == 5 {
        "חָמֵשׁ"@
    } else if h == 6 {
        "שֵׁשׁ"@
    } else if h == 7 {
        "שֶׁ֫בַע"@
    } else if h == 8 {
        "שְׁמ֫וֹנֶה"@
    } else if h == 9 {
        "תֵּשַׁע"@
    } else if h == 10 {
        "עֶ֫שֶׂר"@
    } else if h == 11 {
        "אַחַת עֶשְׂרֵה"@
    } else {
        "שְׁתֵּ֫ים עֶשְׂרֵה"@
    }
}

fn hour(h: u32) -> (r: &'static str)
    requires
        h <= 12,
    ensures
        r@ == hour_name(h as int),
{
    match h {
        0 => "אֶ֫פֶס",
        1 => "אַחַת",
        2 => "שְׁתַּ֫יִם",
        3 => "שָׁלוֹשׁ",
        4 => "אַ֫רְבַּע",
        5 => "חָמֵשׁ",
        6 => "שֵׁשׁ",
        7 => "שֶׁ֫בַע",
        8 => "שְׁמ֫וֹנֶה",
        9 => "תֵּשַׁע",
        10 => "עֶ֫שֶׂר",
        11 => "אַחַת עֶשְׂרֵה",
        _ => "שְׁתֵּ֫ים עֶשְׂרֵה",
    }
}

/// The hour on a twelve-hour clock: 0 reads as 12, 13..23 as 1..11.
pub open spec fn twelve_hour(h: nat) -> nat {
    if h == 0 {
        12
    } else if h > 12 {
        (h - 12) as nat
    } else {
        h
    }
}

/// What a time match is read as: the hour alone on the hour, otherwise
/// "hour וֵminutes דַּקּוֹת"; a match with an hour above 23 or minutes above
/// 59 stays as it is.
pub open spec fn time_replacement_spec(gs: Seq<Seq<char>>) -> Seq<char> {
    let h = parse_u32_or_zero(group_of(gs, 1));
    let m = parse_u32_or_zero(group_of(gs, 2));
    if h > 23 || m > 59 {
        group_of(gs, 0)
    } else if m == 0 {
        hour_name(twelve_hour(h) as int)
    } else {
        hour_name(twelve_hour(h) as int) + " וֵ"@ + num_word(m as int)
            + " דַּקּוֹת"@
    }
}

/// `text` with each of the matches `ms` read as a time.
pub open spec fn times_in(text: Seq<char>, ms: Seq<(nat, nat, Seq<Seq<char>>)>) -> Seq<char> {
    replaced(text, ms, ms.map_values(|m: (nat, nat, Seq<Seq<char>>)| time_replacement_spec(m.2)))
}

/// `text` with every match of `TIME_PATTERN` read as a time.
pub open spec fn times_spec(text: Seq<char>) -> Seq<char> {
    match regex_captures_of(TIME_PATTERN@, text) {
        None => text,
        Some(ms) => times_in(text, ms),
    }
}

fn time_replacement(mt: &Captured) -> (r: String)
    ensures
        r@ == time_replacement_spec(captured_view(*mt).2),
{
    let g1 = group_chars(mt, 1);
    let g2 = group_chars(mt, 2);
    let h = parse_u32_or_zero_range(&g1, 0, g1.len());
    let m = parse_u32_or_zero_range(&g2, 0, g2.len());
    assert(g1@.subrange(0, g1@.len() as int) =~= g1@);
    assert(g2@.subrange(0, g2@.len() as int) =~= g2@);
    if h > 23 || m > 59 {
        return if 0 < mt.groups.len() {
            mt.groups[0].clone()
        } else {
            String::new()
        };
    }
    let h12 = if h == 0 {
        12
    } else if h > 12 {
        h - 12
    } else {
        h
    };
    let mut r = String::from_str(hour(h12));
    if m == 0 {
        return r;
    }
    r.append(" וֵ");
    let mw = num_to_word(m as i64);
    r.append(mw.as_str());
    r.append(" דַּקּוֹת");
    r
}

/// `text` with each of `matches` (the matches of `TIME_PATTERN` in it) read as a time.
pub fn replace_times(text: &str, matches: &Vec<Captured>) -> (r: String)
    requires
        well_placed(matches@.map_values(|c: Captured| captured_view(c)), utf8_len(text@)),
    ensures
        r@ == times_in(text@, matches@.map_values(|c: Captured| captured_view(c))),
{
    let chars = str_chars(text);
    // Its byte length fits in `usize`.
    let _bytes: usize = byte_len(text);
    let ghost mv = matches@.map_values(|c: Captured| captured_view(c));
    let mut reps: Vec<String> = Vec::new();
    let mut i: usize = 0;
    while i < matches.len()
        invariant
            i <= matches@.len(),
            mv == matches@.map_values(|c: Captured| captured_view(c)),
            views(reps@) =~= mv.take(i as int).map_values(
                |m: (nat, nat, Seq<Seq<char>>)| time_replacement_spec(m.2),
            ),
        decreases matches@.len() - i,
    {
        let ghost old_r = reps@;
        reps.push(time_replacement(&matches[i]));
        assert(views(reps@) =~= views(old_r).push(time_replacement_spec(mv[i as int].2)));
        assert(mv.take(i + 1) =~= mv.take(i as int).push(mv[i as int]));
        i = i + 1;
    }
    assert(mv.take(matches@.len() as int) =~= mv);
    replace_matches(&chars, matches, &reps)
}

/// Reads the times of `text` out loud.
pub fn expand_times(text: &str) -> (r: String)
    ensures
        r@ == times_spec(text@),
{
    match regex_captures(TIME_PATTERN, text) {
        None => String::from_str(text),
        Some(ms) => replace_times(text, &ms),
    }
}

/// A text in which the time pattern finds no match is left as it is.
pub proof fn lemma_no_time_unchanged(text: Seq<char>)
    requires
        regex_captures_of(TIME_PATTERN@, text) == Some(Seq::<(nat, nat, Seq<Seq<char>>)>::empty()),
    ensures
        times_spec(text) == text,
{
    let ms = Seq::<(nat, nat, Seq<Seq<char>>)>::empty();
    crate::pattern::lemma_no_match_unchanged(text);
    assert(ms.map_values(|m: (nat, nat, Seq<Seq<char>>)| time_replacement_spec(m.2)) =~= Seq::<Seq<char>>::empty());
}

/// Hours are read on a twelve-hour clock: an afternoon hour 13..=23 reads
/// as the hour twelve less, and hour 0 as hour 12.
pub proof fn lemma_twelve_hour_clock(
    w1: Seq<char>,
    h1: Seq<char>,
    w2: Seq<char>,
    h2: Seq<char>,
    ms: Seq<char>,
)
    requires
        parse_u32_or_zero(ms) <= 59,
        (1 <= parse_u32_or_zero(h1) <= 11 && parse_u32_or_zero(h2) == parse_u32_or_zero(h1) + 12)
            || (parse_u32_or_zero(h1) == 12 && parse_u32_or_zero(h2) == 0),
    ensures
        time_replacement_spec(seq![w1, h1, ms]) == time_replacement_spec(seq![w2, h2, ms]),
{
    let g1 = seq![w1, h1, ms];
    let g2 = seq![w2, h2, ms];
    assert(group_of(g1, 1) == h1 && group_of(g1, 2) == ms);
    assert(group_of(g2, 1) == h2 && group_of(g2, 2) == ms);
    assert(twelve_hour(parse_u32_or_zero(h1)) == twelve_hour(parse_u32_or_zero(h2)));
}

/// Hours 0 to 10 are read with the number words of their values, and
/// hours 11 and 12 with their own words.
pub proof fn lemma_hour_words()
    ensures
        forall|h: int| 0 <= h <= 10 ==> #[trigger] hour_name(h) == num_word(h),
        hour_name(11) == "אַחַת עֶשְׂרֵה"@,
        hour_name(12) == "שְׁתֵּ֫ים עֶשְׂרֵה"@,
{
    lemma_number_word_table();
}

/// A time on the hour whose twelve-hour value is at most ten reads as the
/// number word of that value: 17:00 and 5:00 both read as five.
pub proof fn lemma_time_on_the_hour(w: Seq<char>, hs: Seq<char>, ms: Seq<char>)
    requires
        parse_u32_or_zero(hs) <= 23,
        parse_u32_or_zero(ms) == 0,
        twelve_hour(parse_u32_or_zero(hs)) <= 10,
    ensures
        time_replacement_spec(seq![w, hs, ms]) == num_word(twelve_hour(parse_u32_or_zero(hs)) as int),
{
    let g = seq![w, hs, ms];
    assert(group_of(g, 1) == hs && group_of(g, 2) == ms);
    lemma_hour_words();
    assert(hour_name(twelve_hour(parse_u32_or_zero(hs)) as int) == num_word(
        twelve_hour(parse_u32_or_zero(hs)) as int,
    ));
}

/// A time with minutes reads as the hour word, " וֵ", the number word of
/// the minutes and " דַּקּוֹת".
pub proof fn lemma_time_with_minutes(w: Seq<char>, hs: Seq<char>, ms: Seq<char>)
    requires
        parse_u32_or_zero(hs) <= 23,
        1 <= parse_u32_or_zero(ms) <= 59,
    ensures
        time_replacement_spec(seq![w, hs, ms]) == hour_name(twelve_hour(parse_u32_or_zero(hs)) as int)
            + " וֵ"@ + num_word(parse_u32_or_zero(ms) as int) + " דַּקּוֹת"@,
{
    let g = seq![w, hs, ms];
    assert(group_of(g, 1) == hs && group_of(g, 2) == ms);
}

} // verus!
