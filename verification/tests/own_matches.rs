use phonikud_rs::expander::dates::{expand_dates, replace_dates};
use phonikud_rs::expander::numbers::num_to_word;
use phonikud_rs::expander::time::{expand_times, replace_times};
use phonikud_rs::model::remove_matches;
use phonikud_rs::pattern::Captured;

fn captured(start: usize, end: usize, groups: &[&str]) -> Captured {
    Captured { start, end, groups: groups.iter().map(|g| g.to_string()).collect() }
}

#[test]
fn replace_dates_reads_day_month_year() {
    let text = "ב 15/01/2024 בבוקר";
    let start = "ב ".len();
    let m = captured(start, start + 10, &["15/01/2024", "15", "01", "2024"]);
    let expected = format!(
        "ב {} בֵּיָ֫נוּאָר {} בבוקר",
        num_to_word(15),
        num_to_word(2024)
    );
    assert_eq!(replace_dates(text, &vec![m]), expected);
    assert_eq!(expand_dates(text), expected);
}

#[test]
fn replace_dates_reads_year_first_and_keeps_non_dates() {
    // Year first (first number above 31), from a hand-made match.
    let m = captured(1, 2, &["b", "40", "2", "3"]);
    let expected = format!("a{} בֵּפֶ֫בְרוּאָר {}c", num_to_word(3), num_to_word(40));
    assert_eq!(replace_dates("abc", &vec![m]), expected);
    // Month 13 is no month: the match stays as it is.
    let m = captured(0, 8, &["01.13.99", "01", "13", "99"]);
    assert_eq!(replace_dates("01.13.99", &vec![m]), "01.13.99");
    // No matches: nothing changes.
    assert_eq!(replace_dates("שלום", &vec![]), "שלום");
}

#[test]
fn replace_times_reads_hours_and_minutes() {
    let m = captured(0, 5, &["14:30", "14", "30"]);
    let expected = format!("שְׁתַּ֫יִם וֵ{} דַּקּוֹת", num_to_word(30));
    assert_eq!(replace_times("14:30", &vec![m]), expected);
    assert_eq!(expand_times("14:30"), expected);
    let m = captured(2, 6, &["0:00", "0", "00"]);
    assert_eq!(replace_times("x 0:00 y", &vec![m]), "x שְׁתֵּ֫ים עֶשְׂרֵה y");
    // Hour 25 is no time: the match stays as it is.
    let m = captured(0, 5, &["25:10", "25", "10"]);
    assert_eq!(replace_times("25:10", &vec![m]), "25:10");
}

#[test]
fn remove_matches_drops_matched_ranges() {
    let ms = vec![captured(1, 3, &["bc"]), captured(4, 5, &["e"])];
    assert_eq!(remove_matches("abcdef", &ms), "adf");
    // Byte ranges over two-byte letters.
    let ms = vec![captured(2, 4, &["ל"])];
    assert_eq!(remove_matches("שלום", &ms), "שום");
}

#[test]
fn dates_read_the_same_either_way_round() {
    assert_eq!(expand_dates("2024-01-15"), expand_dates("15/01/2024"));
    assert_eq!(expand_dates("1999.12.31"), expand_dates("31.12.1999"));
}

#[test]
fn hours_read_on_a_twelve_hour_clock() {
    assert_eq!(expand_times("14:30"), expand_times("2:30"));
    assert_eq!(expand_times("23:05"), expand_times("11:05"));
    assert_eq!(expand_times("0:15"), expand_times("12:15"));
}
