//! Number expansion: digits become Hebrew number words with nikud.
//!
//! Handles integers, decimals, negative numbers, and Hebrew prefix letters
//! (ב, ו, ה, ל, מ, כ, ש) attached to a number, optionally through a hyphen.

use vstd::prelude::*;

use crate::text::{
    all_ascii_digits, ascii_digit, has_no_ascii_digit, lemma_join_split, lemma_split_pieces_chars, chars_to_string, is_ascii_digit, join, join_strings,
    parse_i64, parse_i64_spec, push_range, split_at_char, split_on, str_chars, views,
};

verus! {

// ---------------------------------------------------------------------------
// Word tables
// ---------------------------------------------------------------------------

pub open spec fn tens_units_table(n: int) -> Option<Seq<char>> {
    if n == 1 {
        Some("אַחַת"@)
    } else if n == 2 {
        Some("שְׁתַּ֫יִם"@)
    } else if n == 3 {
        Some("שָׁלוֹשׁ"@)
    } else if n == 4 {
        Some("אַ֫רְבַּע"@)
    } else if n == 5 {
        Some("חָמֵשׁ"@)
    } else if n == 6 {
        Some("שֵׁשׁ"@)
    } else if n == 7 {
        Some("שֶׁ֫בַע"@)
    } else if n == 8 {
        Some("שְׁמ֫וֹנֶה"@)
    } else if n == 9 {
        Some("תֵּשַׁע"@)
    } else if n == 10 {
        Some("עֶ֫שֶׂר"@)
    } else if n == 11 {
        Some("אַחַתעֶשְׂרֵה"@)
    } else if n == 12 {
        Some("שְׁתֵּ֫ימעֶשְׂרֵה"@)
    } else if n == 13 {
        Some("שְׁלוֹשׁעֶשְׂרֵה"@)
    } else if n == 14 {
        Some("אַרְבַּעעֶשְׂרֵה"@)
    } else if n == 15 {
        Some("חָמֵשׁעֶשְׂרֵה"@)
    } else if n == 16 {
        Some("שֵׁשׁעֶשְׂרֵה"@)
    } else if n == 17 {
        Some("שֶׁ֫בַעעֶשְׂרֵה"@)
    } else if n == 18 {
        Some("שְׁמ֫וֹנֶהעֶשְׂרֵה"@)
    } else if n == 19 {
        Some("תֵּשַׁעעֶשְׂרֵה"@)
    } else if n == 20 {
        Some("עֶשְׂרִ֫ים"@)
    } else if n == 30 {
        Some("שְׁלוֹשִׁים"@)
    } else if n == 40 {
        Some("אַרְבָּעִים"@)
    } else if n == 50 {
        Some("חֲמִשִּׁים"@)
    } else if n == 60 {
        Some("שִׁשִּׁים"@)
    } else if n == 70 {
        Some("שִׁבְעִים"@)
    } else if n == 80 {
        Some("שְׁמוֹנִים"@)
    } else if n == 90 {
        Some("תִּשְׁעִים"@)
    } else {
        None
    }
}

pub open spec fn hundreds_table(n: int) -> Option<Seq<char>> {
    if n == 1 {
        Some("מֵ֫אָה"@)
    } else if n == 2 {
        Some("מָאתַ֫יִם"@)
    } else if n == 3 {
        Some("שְׁלוֹשׁמֵאוֹת"@)
    } else if n == 4 {
        Some("אַרְבַּעמֵאוֹת"@)
    } else if n == 5 {
        Some("חָמֵשׁמֵאוֹת"@)
    } else if n == 6 {
        Some("שֵׁשׁמֵאוֹת"@)
    } else if n == 7 {
        Some("שֶׁ֫בַעמֵאוֹת"@)
    } else if n == 8 {
        Some("שְׁמ֫וֹנֶהמֵאוֹת"@)
    } else if n == 9 {
        Some("תֵּשַׁעמֵאוֹת"@)
    } else {
        None
    }
}

pub open spec fn thousands_table(n: int) -> Option<Seq<char>> {
    if n == 1 {
        Some("אֶ֫לֶף"@)
    } else if n == 2 {
        Some("אַלְפַּאיִם"@)
    } else if n == 3 {
        Some("שְׁלֹ֫שֶׁתאֲלָפִים"@)
    } else if n == 4 {
        Some("אַרְבַּ֫עַתאֲלָפִים"@)
    } else if n == 5 {
        Some("חֲמֵ֫שֶׁתאֲלָפִים"@)
    } else if n == 6 {
        Some("שֵׁ֫שֶׁתאֲלָפִים"@)
    } else if n == 7 {
        Some("שִׁבְעַ֫תאֲלָפִים"@)
    } else if n == 8 {
        Some("שְׁמוֹנַ֫תאֲלָפִים"@)
    } else if n == 9 {
        Some("תִּשְׁעַ֫תאֲלָפִים"@)
    } else if n == 10 {
        Some("עֲשֶׂ֫רֶתאֲלָפִים"@)
    } else {
        None
    }
}

/// The word of a table entry, or nothing.
pub open spec fn word_of(o: Option<Seq<char>>) -> Seq<char> {
    match o {
        Some(w) => w,
        None => Seq::empty(),
    }
}

/// Name of the digit `c`, or nothing for any other character.
pub open spec fn digit_word(c: char) -> Seq<char> {
    if c == '0' {
        "אֶ֫פֶס"@
    } else if c == '1' {
        "אַחַת"@
    } else if c == '2' {
        "שְׁתַּ֫יִם"@
    } else if c == '3' {
        "שָׁלוֹשׁ"@
    } else if c == '4' {
        "אַ֫רְבַּע"@
    } else if c == '5' {
        "חָמֵשׁ"@
    } else if c == '6' {
        "שֵׁשׁ"@
    } else if c == '7' {
        "שֶׁ֫בַע"@
    } else if c == '8' {
        "שְׁמ֫וֹנֶה"@
    } else if c == '9' {
        "תֵּשַׁע"@
    } else {
        Seq::empty()
    }
}

/// The ASCII digit of a value below ten.
pub open spec fn digit_char(d: int) -> char {
    if d == 0 {
        '0'
    } else if d == 1 {
        '1'
    } else if d == 2 {
        '2'
    } else if d == 3 {
        '3'
    } else if d == 4 {
        '4'
    } else if d == 5 {
        '5'
    } else if d == 6 {
        '6'
    } else if d == 7 {
        '7'
    } else if d == 8 {
        '8'
    } else {
        '9'
    }
}

/// Decimal representation of a natural number, without leading zeros.
pub open spec fn decimal_digits(a: nat) -> Seq<char>
    decreases a,
{
    if a < 10 {
        seq![digit_char(a as int)]
    } else {
        decimal_digits(a / 10).push(digit_char((a % 10) as int))
    }
}

// ---------------------------------------------------------------------------
// Number words
// ---------------------------------------------------------------------------

/// Words for 1..=99: a table entry, or "tens וֵ units".
pub open spec fn tens_units_word(n: int) -> Seq<char> {
    match tens_units_table(n) {
        Some(w) => w,
        None => word_of(tens_units_table(n / 10 * 10)) + " וֵ"@ + word_of(
            tens_units_table(n % 10),
        ),
    }
}

/// A one-element list when `c` holds, else the empty list.
pub open spec fn part_if(c: bool, w: Seq<char>) -> Seq<Seq<char>> {
    if c {
        seq![w]
    } else {
        Seq::empty()
    }
}

/// Words for 0..=999: the hundreds word and the tens-and-units words,
/// each only when non-zero, separated by a space.
pub open spec fn hundreds_word(n: int) -> Seq<char> {
    join(
        part_if(n / 100 > 0, word_of(hundreds_table(n / 100))) + part_if(
            n % 100 > 0,
            tens_units_word(n % 100),
        ),
        seq![' '],
    )
}

/// Words for a count of thousands: a table entry for 1..=10, otherwise
/// the count followed by "אֶ֫לֶף".
pub open spec fn thousands_word(n: int) -> Seq<char> {
    match thousands_table(n) {
        Some(w) => w,
        None => hundreds_word(n) + " אֶ֫לֶף"@,
    }
}

pub open spec fn abs(n: int) -> int {
    if n < 0 {
        -n
    } else {
        n
    }
}

/// The billions, millions, thousands and remainder groups of `a`, each
/// present only when non-zero.
pub open spec fn num_parts(a: int) -> Seq<Seq<char>> {
    let b = a / 1_000_000_000;
    let m = (a % 1_000_000_000) / 1_000_000;
    let t = (a % 1_000_000) / 1000;
    let r = a % 1000;
    part_if(
        b > 0,
        if b == 1 {
            "מִילְיַארְד"@
        } else {
            hundreds_word(b) + " מִילְיַארְד"@
        },
    ) + part_if(
        m > 0,
        if m == 1 {
            "מִילְיוֹן"@
        } else {
            hundreds_word(m) + " מִילְיוֹן"@
        },
    ) + part_if(t > 0, thousands_word(t)) + part_if(r > 0, hundreds_word(r))
}

/// The Hebrew words of `n` (sign ignored): "אֶ֫פֶס" for zero, the groups of
/// `num_parts` up to 999 999 999 999, and digit by digit above that.
pub open spec fn num_word(n: int) -> Seq<char> {
    let a = abs(n);
    if a == 0 {
        "אֶ֫פֶס"@
    } else if a > 999_999_999_999 {
        join(decimal_digits(a as nat).map_values(|c: char| digit_word(c)), seq![' '])
    } else {
        join(num_parts(a), seq![' '])
    }
}

fn tens_units_literal(n: u64) -> (r: Option<&'static str>)
    ensures
        match r {
            Some(s) => tens_units_table(n as int) == Some(s@),
            None => tens_units_table(n as int) is None,
        },
{
    match n {
        1 => Some("אַחַת"),
        2 => Some("שְׁתַּ֫יִם"),
        3 => Some("שָׁלוֹשׁ"),
        4 => Some("אַ֫רְבַּע"),
        5 => Some("חָמֵשׁ"),
        6 => Some("שֵׁשׁ"),
        7 => Some("שֶׁ֫בַע"),
        8 => Some("שְׁמ֫וֹנֶה"),
        9 => Some("תֵּשַׁע"),
        10 => Some("עֶ֫שֶׂר"),
        11 => Some("אַחַתעֶשְׂרֵה"),
        12 => Some("שְׁתֵּ֫ימעֶשְׂרֵה"),
        13 => Some("שְׁלוֹשׁעֶשְׂרֵה"),
        14 => Some("אַרְבַּעעֶשְׂרֵה"),
        15 => Some("חָמֵשׁעֶשְׂרֵה"),
        16 => Some("שֵׁשׁעֶשְׂרֵה"),
        17 => Some("שֶׁ֫בַעעֶשְׂרֵה"),
        18 => Some("שְׁמ֫וֹנֶהעֶשְׂרֵה"),
        19 => Some("תֵּשַׁעעֶשְׂרֵה"),
        20 => Some("עֶשְׂרִ֫ים"),
        30 => Some("שְׁלוֹשִׁים"),
        40 => Some("אַרְבָּעִים"),
        50 => Some("חֲמִשִּׁים"),
        60 => Some("שִׁשִּׁים"),
        70 => Some("שִׁבְעִים"),
        80 => Some("שְׁמוֹנִים"),
        90 => Some("תִּשְׁעִים"),
        _ => None,
    }
}

fn hundreds_literal(n: u64) -> (r: Option<&'static str>)
    ensures
        match r {
            Some(s) => hundreds_table(n as int) == Some(s@),
            None => hundreds_table(n as int) is None,
        },
{
    match n {
        1 => Some("מֵ֫אָה"),
        2 => Some("מָאתַ֫יִם"),
        3 => Some("שְׁלוֹשׁמֵאוֹת"),
        4 => Some("אַרְבַּעמֵאוֹת"),
        5 => Some("חָמֵשׁמֵאוֹת"),
        6 => Some("שֵׁשׁמֵאוֹת"),
        7 => Some("שֶׁ֫בַעמֵאוֹת"),
        8 => Some("שְׁמ֫וֹנֶהמֵאוֹת"),
        9 => Some("תֵּשַׁעמֵאוֹת"),
        _ => None,
    }
}

fn thousands_literal(n: u64) -> (r: Option<&'static str>)
    ensures
        match r {
            Some(s) => thousands_table(n as int) == Some(s@),
            None => thousands_table(n as int) is None,
        },
{
    match n {
        1 => Some("אֶ֫לֶף"),
        2 => Some("אַלְפַּאיִם"),
        3 => Some("שְׁלֹ֫שֶׁתאֲלָפִים"),
        4 => Some("אַרְבַּ֫עַתאֲלָפִים"),
        5 => Some("חֲמֵ֫שֶׁתאֲלָפִים"),
        6 => Some("שֵׁ֫שֶׁתאֲלָפִים"),
        7 => Some("שִׁבְעַ֫תאֲלָפִים"),
        8 => Some("שְׁמוֹנַ֫תאֲלָפִים"),
        9 => Some("תִּשְׁעַ֫תאֲלָפִים"),
        10 => Some("עֲשֶׂ֫רֶתאֲלָפִים"),
        _ => None,
    }
}

fn digit_to_word(c: char) -> (r: &'static str)
    ensures
        r@ == digit_word(c),
{
    proof {
        reveal_strlit("");
    }
    match c {
        '0' => "אֶ֫פֶס",
        '1' => "אַחַת",
        '2' => "שְׁתַּ֫יִם",
        '3' => "שָׁלוֹשׁ",
        '4' => "אַ֫רְבַּע",
        '5' => "חָמֵשׁ",
        '6' => "שֵׁשׁ",
        '7' => "שֶׁ֫בַע",
        '8' => "שְׁמ֫וֹנֶה",
        '9' => "תֵּשַׁע",
        _ => "",
    }
}

fn digit_char_of(d: u64) -> (c: char)
    requires
        d < 10,
    ensures
        c == digit_char(d as int),
{
    match d {
        0 => '0',
        1 => '1',
        2 => '2',
        3 => '3',
        4 => '4',
        5 => '5',
        6 => '6',
        7 => '7',
        8 => '8',
        _ => '9',
    }
}

/// Appends the decimal digits of `a`.
fn push_decimal_digits(out: &mut Vec<char>, a: u64)
    ensures
        final(out)@ == old(out)@ + decimal_digits(a as nat),
    decreases a,
{
    if a >= 10 {
        push_decimal_digits(out, a / 10);
    }
    out.push(digit_char_of(a % 10));
}

/// Words for 1..=99.
pub fn tens_units_to_word(n: u64) -> (r: String)
    requires
        1 <= n <= 99,
    ensures
        r@ == tens_units_word(n as int),
    decreases n,
{
    match tens_units_literal(n) {
        Some(w) => String::from_str(w),
        None => {
            let tens = (n / 10) * 10;
            let units = n % 10;
            assert(tens_units_table(tens as int) is Some);
            assert(tens_units_table(units as int) is Some);
            let mut r = tens_units_to_word(tens);
            r.append(" וֵ");
            let u = tens_units_to_word(units);
            r.append(u.as_str());
            r
        },
    }
}

/// Words for 0..=999 (nothing for 0).
pub fn hundreds_to_word(n: u64) -> (r: String)
    requires
        n <= 999,
    ensures
        r@ == hundreds_word(n as int),
{
    proof {
        reveal_strlit(" ");
        assert(" "@ =~= seq![' ']);
    }
    let mut parts: Vec<String> = Vec::new();
    let h = n / 100;
    let tu = n % 100;
    if h > 0 {
        match hundreds_literal(h) {
            Some(w) => parts.push(String::from_str(w)),
            None => {},
        }
    }
    let ghost first = views(parts@);
    assert(first =~= part_if(h > 0, word_of(hundreds_table(h as int))));
    if tu > 0 {
        parts.push(tens_units_to_word(tu));
    }
    assert(views(parts@) =~= first + part_if(tu > 0, tens_units_word(tu as int)));
    join_strings(&parts, " ")
}

/// Words for a count of thousands, 0..=999.
pub fn thousands_to_word(n: u64) -> (r: String)
    requires
        n <= 999,
    ensures
        r@ == thousands_word(n as int),
{
    match thousands_literal(n) {
        Some(w) => String::from_str(w),
        None => {
            let mut r = hundreds_to_word(n);
            r.append(" אֶ֫לֶף");
            r
        },
    }
}

/// Convert a number to Hebrew words with nikud; the sign is ignored.
pub fn num_to_word(n: i64) -> (r: String)
    ensures
        r@ == num_word(n as int),
{
    proof {
        reveal_strlit(" ");
        assert(" "@ =~= seq![' ']);
    }
    let a: u64 = if n < 0 {
        ((-(n + 1)) as u64) + 1
    } else {
        n as u64
    };
    assert(a == abs(n as int));
    if a == 0 {
        return String::from_str("אֶ֫פֶס");
    }
    if a > 999_999_999_999 {
        return spell_digits(a);
    }
    group_words(a)
}

/// The digits of `a`, each named, separated by spaces.
fn spell_digits(a: u64) -> (r: String)
    ensures
        r@ == join(decimal_digits(a as nat).map_values(|c: char| digit_word(c)), seq![' ']),
{
    proof {
        reveal_strlit(" ");
        assert(" "@ =~= seq![' ']);
    }
    let mut digits: Vec<char> = Vec::new();
    push_decimal_digits(&mut digits, a);
    assert(digits@ =~= decimal_digits(a as nat));
    let mut words: Vec<String> = Vec::new();
    let mut i: usize = 0;
    while i < digits.len()
        invariant
            i <= digits@.len(),
            digits@ == decimal_digits(a as nat),
            views(words@) =~= digits@.take(i as int).map_values(|c: char| digit_word(c)),
        decreases digits@.len() - i,
    {
        let ghost old_w = words@;
        words.push(String::from_str(digit_to_word(digits[i])));
        assert(views(words@) =~= views(old_w).push(digit_word(digits@[i as int])));
        assert(digits@.take(i + 1) =~= digits@.take(i as int).push(digits@[i as int]));
        i = i + 1;
    }
    assert(digits@.take(digits@.len() as int) =~= digits@);
    join_strings(&words, " ")
}

/// The billions, millions, thousands and remainder of `a`, joined by spaces.
fn group_words(a: u64) -> (r: String)
    requires
        0 < a <= 999_999_999_999,
    ensures
        r@ == join(num_parts(a as int), seq![' ']),
{
    proof {
        reveal_strlit(" ");
        assert(" "@ =~= seq![' ']);
    }
    let b = a / 1_000_000_000;
    let m = (a % 1_000_000_000) / 1_000_000;
    let t = (a % 1_000_000) / 1000;
    let r = a % 1000;
    assert(b <= 999) by (nonlinear_arith)
        requires
            b == a / 1_000_000_000,
            a <= 999_999_999_999,
    ;
    let mut parts: Vec<String> = Vec::new();
    if b > 0 {
        if b == 1 {
            parts.push(String::from_str("מִילְיַארְד"));
        } else {
            let mut w = hundreds_to_word(b);
            w.append(" מִילְיַארְד");
            parts.push(w);
        }
    }
    let ghost p1 = views(parts@);
    if m > 0 {
        if m == 1 {
            parts.push(String::from_str("מִילְיוֹן"));
        } else {
            let mut w = hundreds_to_word(m);
            w.append(" מִילְיוֹן");
            parts.push(w);
        }
    }
    let ghost p2 = views(parts@);
    if t > 0 {
        parts.push(thousands_to_word(t));
    }
    let ghost p3 = views(parts@);
    if r > 0 {
        parts.push(hundreds_to_word(r));
    }
    proof {
        let ai = a as int;
        assert(p1 =~= part_if(
            b > 0,
            if b == 1 {
                "מִילְיַארְד"@
            } else {
                hundreds_word(b as int) + " מִילְיַארְד"@
            },
        ));
        assert(p2 =~= p1 + part_if(
            m > 0,
            if m == 1 {
                "מִילְיוֹן"@
            } else {
                hundreds_word(m as int) + " מִילְיוֹן"@
            },
        ));
        assert(p3 =~= p2 + part_if(t > 0, thousands_word(t as int)));
        assert(views(parts@) =~= p3 + part_if(r > 0, hundreds_word(r as int)));
        assert(views(parts@) =~= num_parts(ai));
    }
    join_strings(&parts, " ")
}

// ---------------------------------------------------------------------------
// Numbers inside words
// ---------------------------------------------------------------------------

/// Hebrew prefix letters that may stand before a number: ב ו ה ל מ כ ש.
pub open spec fn is_prefix_letter(c: char) -> bool {
    c == '\u{05D1}' || c == '\u{05D5}' || c == '\u{05D4}' || c == '\u{05DC}' || c == '\u{05DE}'
        || c == '\u{05DB}' || c == '\u{05E9}'
}

fn prefix_letter(c: char) -> (b: bool)
    ensures
        b == is_prefix_letter(c),
{
    c == '\u{05D1}' || c == '\u{05D5}' || c == '\u{05D4}' || c == '\u{05DC}' || c == '\u{05DE}'
        || c == '\u{05DB}' || c == '\u{05E9}'
}

/// Number of leading prefix letters of `w`.
pub open spec fn prefix_run(w: Seq<char>) -> nat
    decreases w.len(),
{
    if w.len() > 0 && is_prefix_letter(w[0]) {
        1 + prefix_run(w.drop_first())
    } else {
        0
    }
}

/// Splits a word into its prefix letters and the part that may be a number:
/// prefix letters count only when followed by a digit, or by a hyphen and a
/// digit (the hyphen is then dropped).
pub open spec fn split_number_prefix(w: Seq<char>) -> (Seq<char>, Seq<char>) {
    let p = prefix_run(w) as int;
    if 0 < p < w.len() {
        let after = w.skip(p);
        if after[0] == '-' && after.len() > 1 && is_ascii_digit(after[1]) {
            (w.take(p), w.skip(p + 1))
        } else if is_ascii_digit(after[0]) {
            (w.take(p), w.skip(p))
        } else {
            (Seq::empty(), w)
        }
    } else {
        (Seq::empty(), w)
    }
}

/// Position just after the last ASCII digit of `s`, or 0 when there is none.
pub open spec fn end_of_last_digit(s: Seq<char>) -> nat
    decreases s.len(),
{
    if s.len() == 0 {
        0
    } else if is_ascii_digit(s.last()) {
        s.len()
    } else {
        end_of_last_digit(s.drop_last())
    }
}

pub open spec fn is_decimal_sep(c: char) -> bool {
    c == '.' || c == ','
}

/// No decimal separator in `s[a..b]`.
pub open spec fn no_sep_in(s: Seq<char>, a: int, b: int) -> bool {
    forall|i: int| a <= i < b ==> !is_decimal_sep(#[trigger] s[i])
}

/// `s[k]` is the only decimal separator of `s`.
pub open spec fn single_sep_at(s: Seq<char>, k: int) -> bool {
    &&& 0 <= k < s.len()
    &&& is_decimal_sep(s[k])
    &&& no_sep_in(s, 0, k)
    &&& no_sep_in(s, k + 1, s.len() as int)
}

/// "מִ֫ינּוּס " for a negative number, nothing otherwise.
pub open spec fn sign_word(neg: bool) -> Seq<char> {
    if neg {
        "מִ֫ינּוּס "@
    } else {
        Seq::empty()
    }
}

/// The words of a number that starts with a digit: an `i64`, or two `i64`s
/// around a single decimal separator; `None` for anything else.
pub open spec fn spelled_number(abs_part: Seq<char>) -> Option<Seq<char>> {
    if no_sep_in(abs_part, 0, abs_part.len() as int) {
        match parse_i64_spec(abs_part) {
            Some(n) => Some(num_word(n)),
            None => None,
        }
    } else if exists|k: int| single_sep_at(abs_part, k) {
        let k = choose|k: int| single_sep_at(abs_part, k);
        match (parse_i64_spec(abs_part.take(k)), parse_i64_spec(abs_part.skip(k + 1))) {
            (Some(i), Some(d)) => Some(num_word(i) + " נְֽקֻדָּה "@ + num_word(d)),
            _ => None,
        }
    } else {
        None
    }
}

/// A word with its number, if any, spelled out; any other word unchanged.
///
/// The number is what follows the prefix letters, up to its last ASCII digit
/// (what comes after is kept as a suffix); it may start with `-`, must then
/// start with a digit, and is spelled by `spelled_number`.
pub open spec fn expand_number_word(w: Seq<char>) -> Seq<char> {
    if w.len() == 0 {
        w
    } else {
        let prefix = split_number_prefix(w).0;
        let np = split_number_prefix(w).1;
        let t = end_of_last_digit(np) as int;
        if t == 0 {
            w
        } else {
            let core = np.take(t);
            let suffix = np.skip(t);
            let neg = core[0] == '-';
            let abs_part = if neg {
                core.drop_first()
            } else {
                core
            };
            if abs_part.len() == 0 || !is_ascii_digit(abs_part[0]) {
                w
            } else {
                match spelled_number(abs_part) {
                    Some(x) => prefix + sign_word(neg) + x + suffix,
                    None => w,
                }
            }
        }
    }
}

/// Positions of the end of the prefix and of the start of the number part.
fn number_prefix(word: &[char]) -> (r: (usize, usize))
    requires
        word@.len() > 0,
    ensures
        r.0 <= r.1 <= word@.len(),
        word@.take(r.0 as int) == split_number_prefix(word@).0,
        word@.skip(r.1 as int) == split_number_prefix(word@).1,
{
    let len = word.len();
    let ghost w = word@;
    let mut p: usize = 0;
    assert(w.skip(0) =~= w);
    while p < len && prefix_letter(word[p])
        invariant
            p <= len == w.len(),
            w == word@,
            prefix_run(w) == p + prefix_run(w.skip(p as int)),
        decreases len - p,
    {
        assert(w.skip(p as int).drop_first() =~= w.skip(p + 1));
        p = p + 1;
    }
    assert(prefix_run(w.skip(p as int)) == 0) by {
        if p < len {
            assert(w.skip(p as int)[0] == w[p as int]);
        }
    }
    let mut pre_end: usize = 0;
    let mut num_start: usize = 0;
    if p > 0 && p < len {
        assert(w.skip(p as int)[0] == w[p as int]);
        if word[p] == '-' && len - p > 1 && ascii_digit(word[p + 1]) {
            assert(w.skip(p as int)[1] == w[p + 1]);
            pre_end = p;
            num_start = p + 1;
        } else if ascii_digit(word[p]) {
            pre_end = p;
            num_start = p;
        }
    }
    assert(w.take(pre_end as int) =~= split_number_prefix(w).0);
    assert(w.skip(num_start as int) =~= split_number_prefix(w).1);
    (pre_end, num_start)
}

/// Position just after the last ASCII digit of `word[from..]`, or `from`.
fn last_digit_end(word: &[char], from: usize) -> (t: usize)
    requires
        from <= word@.len(),
    ensures
        from <= t <= word@.len(),
        t - from == end_of_last_digit(word@.skip(from as int)),
{
    let len = word.len();
    let ghost w = word@;
    let ghost np = w.skip(from as int);
    let mut t: usize = len;
    assert(w.subrange(from as int, len as int) =~= np);
    while t > from && !ascii_digit(word[t - 1])
        invariant
            from <= t <= len == w.len(),
            w == word@,
            np == w.skip(from as int),
            end_of_last_digit(np) == end_of_last_digit(w.subrange(from as int, t as int)),
        decreases t,
    {
        assert(w.subrange(from as int, t as int).drop_last() =~= w.subrange(from as int, t - 1));
        t = t - 1;
    }
    t
}

/// Spells `word[from..to]`, a number starting with a digit.
fn spell_number(word: &[char], from: usize, to: usize) -> (r: Option<String>)
    requires
        from <= to <= word@.len(),
    ensures
        match r {
            Some(s) => spelled_number(word@.subrange(from as int, to as int)) == Some(s@),
            None => spelled_number(word@.subrange(from as int, to as int)) is None,
        },
{
    let ghost w = word@;
    let ghost abs_part = w.subrange(from as int, to as int);
    let mut k = from;
    while k < to && !(word[k] == '.' || word[k] == ',')
        invariant
            from <= k <= to <= w.len(),
            w == word@,
            abs_part == w.subrange(from as int, to as int),
            no_sep_in(abs_part, 0, k - from),
        decreases to - k,
    {
        assert(abs_part[k - from] == w[k as int]);
        k = k + 1;
    }
    if k == to {
        return match parse_i64(word, from, to) {
            Some(n) => Some(num_to_word(n)),
            None => None,
        };
    }
    assert(abs_part[k - from] == w[k as int]);
    assert(!no_sep_in(abs_part, 0, abs_part.len() as int));
    let mut k2 = k + 1;
    while k2 < to && !(word[k2] == '.' || word[k2] == ',')
        invariant
            from <= k < k2 <= to <= w.len(),
            w == word@,
            abs_part == w.subrange(from as int, to as int),
            no_sep_in(abs_part, k - from + 1, k2 - from),
        decreases to - k2,
    {
        assert(abs_part[k2 - from] == w[k2 as int]);
        k2 = k2 + 1;
    }
    let ghost kk = k - from;
    if k2 < to {
        proof {
            assert(abs_part[k2 - from] == w[k2 as int]);
            assert forall|j: int| !single_sep_at(abs_part, j) by {
                if single_sep_at(abs_part, j) {
                    if j < kk {
                        assert(!is_decimal_sep(abs_part[kk]));
                    } else if j > kk {
                    } else {
                        assert(!is_decimal_sep(abs_part[k2 - from]));
                    }
                }
            }
        }
        return None;
    }
    proof {
        assert(single_sep_at(abs_part, kk));
        assert forall|j: int| single_sep_at(abs_part, j) implies j == kk by {
            if j < kk {
                assert(!is_decimal_sep(abs_part[j]));
            } else if j > kk {
                assert(!is_decimal_sep(abs_part[kk]));
            }
        }
        assert(abs_part.take(kk) =~= w.subrange(from as int, k as int));
        assert(abs_part.skip(kk + 1) =~= w.subrange(k + 1, to as int));
        assert((choose|j: int| single_sep_at(abs_part, j)) == kk);
    }
    match (parse_i64(word, from, k), parse_i64(word, k + 1, to)) {
        (Some(i), Some(d)) => {
            let mut out = num_to_word(i);
            out.append(" נְֽקֻדָּה ");
            let dw = num_to_word(d);
            out.append(dw.as_str());
            Some(out)
        },
        _ => None,
    }
}

/// Try to expand a single word as a number. Returns the original word if not a number.
fn try_expand_number(word: &[char]) -> (r: String)
    ensures
        r@ == expand_number_word(word@),
{
    let len = word.len();
    let ghost w = word@;
    if len == 0 {
        return chars_to_string(word);
    }
    let (pre_end, num_start) = number_prefix(word);
    let ghost prefix = w.take(pre_end as int);
    let ghost np = w.skip(num_start as int);
    let t = last_digit_end(word, num_start);
    if t == num_start {
        return chars_to_string(word);
    }
    let ghost core = np.take(t - num_start);
    let ghost suffix = np.skip(t - num_start);
    assert(core =~= w.subrange(num_start as int, t as int));
    assert(suffix =~= w.subrange(t as int, len as int));
    let neg = word[num_start] == '-';
    let abs_start = if neg {
        num_start + 1
    } else {
        num_start
    };
    let ghost abs_part = w.subrange(abs_start as int, t as int);
    assert(abs_part =~= if neg {
        core.drop_first()
    } else {
        core
    });
    if abs_start >= t || !ascii_digit(word[abs_start]) {
        return chars_to_string(word);
    }
    assert(abs_part[0] == word[abs_start as int]);
    match spell_number(word, abs_start, t) {
        Some(x) => {
            let mut out = String::new();
            push_range(&mut out, word, 0, pre_end);
            if neg {
                out.append("מִ֫ינּוּס ");
            }
            out.append(x.as_str());
            push_range(&mut out, word, t, len);
            out
        },
        None => chars_to_string(word),
    }
}

/// `text` with the words between its single spaces read by
/// `expand_number_word`.
pub open spec fn numbers_spec(text: Seq<char>) -> Seq<char> {
    join(split_on(text, ' ').map_values(|w: Seq<char>| expand_number_word(w)), seq![' '])
}

/// Expand numbers in text word by word (words are separated by single spaces).
pub fn expand_numbers(text: &str) -> (r: String)
    ensures
        r@ == numbers_spec(text@),
{
    proof {
        reveal_strlit(" ");
        assert(" "@ =~= seq![' ']);
    }
    let chars = str_chars(text);
    let pieces = split_at_char(&chars, ' ');
    let ghost pv = pieces@.map_values(|p: Vec<char>| p@);
    let mut words: Vec<String> = Vec::new();
    let mut i: usize = 0;
    while i < pieces.len()
        invariant
            i <= pieces@.len(),
            pv == pieces@.map_values(|p: Vec<char>| p@),
            views(words@) =~= pv.take(i as int).map_values(|w: Seq<char>| expand_number_word(w)),
        decreases pieces@.len() - i,
    {
        let ghost old_w = words@;
        words.push(try_expand_number(pieces[i].as_slice()));
        assert(views(words@) =~= views(old_w).push(expand_number_word(pv[i as int])));
        assert(pv.take(i + 1) =~= pv.take(i as int).push(pv[i as int]));
        i = i + 1;
    }
    assert(pv.take(pieces@.len() as int) =~= pv);
    join_strings(&words, " ")
}

// ---------------------------------------------------------------------------
// Laws
// ---------------------------------------------------------------------------

/// The words of a number do not depend on its sign.
pub proof fn lemma_num_word_ignores_sign(n: int)
    ensures
        num_word(n) == num_word(-n),
{
}

/// A word without ASCII digits is no number: it stays as it is.
pub proof fn lemma_word_without_digits_unchanged(w: Seq<char>)
    requires
        has_no_ascii_digit(w),
    ensures
        expand_number_word(w) == w,
{
    if w.len() > 0 {
        let p = prefix_run(w) as int;
        if 0 < p < w.len() {
            let after = w.skip(p);
            assert(after[0] == w[p]);
            if after.len() > 1 {
                assert(after[1] == w[p + 1]);
            }
        }
        lemma_end_of_last_digit_none(w);
    }
}

proof fn lemma_end_of_last_digit_none(s: Seq<char>)
    requires
        has_no_ascii_digit(s),
    ensures
        end_of_last_digit(s) == 0,
    decreases s.len(),
{
    if s.len() > 0 {
        assert(s.last() == s[s.len() - 1]);
        lemma_end_of_last_digit_none(s.drop_last());
    }
}

/// Text without ASCII digits is left unchanged by number expansion.
pub proof fn lemma_numbers_identity(text: Seq<char>)
    requires
        has_no_ascii_digit(text),
    ensures
        numbers_spec(text) == text,
{
    let pieces = split_on(text, ' ');
    assert forall|i: int| 0 <= i < pieces.len() implies has_no_ascii_digit(#[trigger] pieces[i]) by {
        assert forall|j: int| 0 <= j < pieces[i].len() implies !crate::text::is_ascii_digit(
            #[trigger] pieces[i][j],
        ) by {
            lemma_split_pieces_chars(text, ' ', i, j);
        }
    }
    assert forall|i: int| 0 <= i < pieces.len() implies expand_number_word(#[trigger] pieces[i])
        == pieces[i] by {
        lemma_word_without_digits_unchanged(pieces[i]);
    }
    assert(pieces.map_values(|w: Seq<char>| expand_number_word(w)) =~= pieces);
    lemma_join_split(text, ' ');
}

/// Words for 21..=99 that are not a multiple of ten read as the tens word,
/// " וֵ" and the units word.
pub proof fn lemma_tens_and_units(n: int)
    requires
        21 <= n <= 99,
        n % 10 != 0,
    ensures
        tens_units_word(n) == tens_units_word(n / 10 * 10) + " וֵ"@ + tens_units_word(n % 10),
{
    assert(tens_units_table(n) is None);
    assert(tens_units_table(n / 10 * 10) is Some);
    assert(tens_units_table(n % 10) is Some);
}

/// A count of thousands above ten reads as the count followed by "אֶ֫לֶף".
pub proof fn lemma_thousands_above_ten(n: int)
    requires
        11 <= n <= 999,
    ensures
        thousands_word(n) == hundreds_word(n) + " אֶ֫לֶף"@,
{
}

/// Adding less than a thousand to a multiple of a thousand changes only its
/// last group.
proof fn lemma_groups_of_sum(a: int, b: int)
    requires
        a > 0,
        a % 1000 == 0,
        0 < b < 1000,
    ensures
        (a + b) / 1_000_000_000 == a / 1_000_000_000,
        (a + b) % 1_000_000_000 / 1_000_000 == a % 1_000_000_000 / 1_000_000,
        (a + b) % 1_000_000 / 1000 == a % 1_000_000 / 1000,
        (a + b) % 1000 == b,
{
    lemma_small_add_keeps_quotient(a, b, 1_000_000_000);
    lemma_small_add_keeps_quotient(a, b, 1_000_000);
    lemma_small_add_keeps_quotient(a, b, 1000);
}

/// For a divisor `k` that is a multiple of a thousand, adding less than a
/// thousand to a multiple of a thousand keeps the quotient by `k` and adds
/// to the remainder.
#[verifier::rlimit(30)]
proof fn lemma_small_add_keeps_quotient(a: int, b: int, k: int)
    requires
        a > 0,
        a % 1000 == 0,
        0 < b < 1000,
        k >= 1000,
        k % 1000 == 0,
    ensures
        (a + b) / k == a / k,
        (a + b) % k == a % k + b,
{
    let q = a / k;
    let r = a % k;
    vstd::arithmetic::div_mod::lemma_fundamental_div_mod(a, k);
    assert(0 <= r < k);
    // `r` is a multiple of a thousand below `k`, so `r + b` stays below `k`.
    let kk = k / 1000;
    vstd::arithmetic::div_mod::lemma_fundamental_div_mod(k, 1000);
    assert(k == 1000 * kk);
    vstd::arithmetic::div_mod::lemma_mod_mod(a, 1000, kk);
    assert(r % 1000 == 0);
    vstd::arithmetic::div_mod::lemma_fundamental_div_mod(r, 1000);
    assert(r == 1000 * (r / 1000));
    assert(r + b < k);
    assert(q * k == k * q) by (nonlinear_arith);
    vstd::arithmetic::div_mod::lemma_fundamental_div_mod_converse(a + b, k, q, r + b);
}

/// A multiple of a thousand plus a remainder below a thousand reads as the
/// two, separated by a space.
#[verifier::rlimit(40)]
pub proof fn lemma_thousands_group_then_rest(a: int, b: int)
    requires
        a > 0,
        a % 1000 == 0,
        0 < b < 1000,
        a + b <= 999_999_999_999,
    ensures
        num_word(a + b) == num_word(a) + seq![' '] + num_word(b),
{
    lemma_groups_of_sum(a, b);
    let pa = num_parts(a);
    let pab = num_parts(a + b);
    assert(pab =~= pa.push(hundreds_word(b)));
    assert(num_parts(b) =~= seq![hundreds_word(b)]);
    assert(pa.len() > 0);
    assert(pab.drop_last() =~= pa);
}

/// Prefix letters before a number are kept and a hyphen between them is
/// dropped: the number is read as it is, never as negative.
pub proof fn lemma_prefix_hyphen(p: Seq<char>, d: Seq<char>, v: int)
    requires
        p.len() > 0,
        forall|i: int| 0 <= i < p.len() ==> is_prefix_letter(#[trigger] p[i]),
        d.len() > 0,
        parse_i64_spec(d) == Some(v),
        is_ascii_digit(d[0]),
    ensures
        expand_number_word(p + seq!['-'] + d) == p + num_word(v),
        expand_number_word(p + d) == p + num_word(v),
{
    assert(all_ascii_digits(d));
    lemma_prefix_run_of(p, seq!['-'] + d);
    lemma_prefix_run_of(p, d);
    assert(p + seq!['-'] + d =~= p + (seq!['-'] + d));
    let w1 = p + (seq!['-'] + d);
    let w2 = p + d;
    assert(w1.skip(p.len() as int) =~= seq!['-'] + d);
    assert(w1.take(p.len() as int) =~= p);
    assert(w1.skip(p.len() as int + 1) =~= d);
    assert(w2.skip(p.len() as int) =~= d);
    assert(w2.take(p.len() as int) =~= p);
    assert(split_number_prefix(w1) == (p, d));
    assert(split_number_prefix(w2) == (p, d));
    assert(d.last() == d[d.len() - 1]);
    assert(end_of_last_digit(d) == d.len());
    assert(d.take(d.len() as int) =~= d);
    assert(d.skip(d.len() as int) =~= Seq::<char>::empty());
    assert(no_sep_in(d, 0, d.len() as int));
    assert(spelled_number(d) == Some(num_word(v)));
    assert(p + sign_word(false) + num_word(v) + Seq::<char>::empty() =~= p + num_word(v));
}

/// The prefix letters at the front of `p + x` are those of `p` when `x` does
/// not start with one.
proof fn lemma_prefix_run_of(p: Seq<char>, x: Seq<char>)
    requires
        forall|i: int| 0 <= i < p.len() ==> is_prefix_letter(#[trigger] p[i]),
        x.len() > 0,
        !is_prefix_letter(x[0]),
    ensures
        prefix_run(p + x) == p.len(),
    decreases p.len(),
{
    if p.len() > 0 {
        assert((p + x).drop_first() =~= p.drop_first() + x);
        assert(is_prefix_letter(p[0]));
        lemma_prefix_run_of(p.drop_first(), x);
    } else {
        assert(p + x =~= x);
    }
}

/// Every character of `s` is a Hebrew character (letters, points, accents)
/// or a space.
pub open spec fn hebrew_or_space(s: Seq<char>) -> bool {
    forall|i: int| 0 <= i < s.len() ==> 0x590 <= (#[trigger] s[i] as u32) <= 0x5FF || s[i] == ' '
}

proof fn lemma_hebrew_concat(a: Seq<char>, b: Seq<char>)
    requires
        hebrew_or_space(a),
        hebrew_or_space(b),
    ensures
        hebrew_or_space(a + b),
{
    assert forall|i: int| 0 <= i < (a + b).len() implies 0x590 <= (#[trigger] (a + b)[i] as u32)
        <= 0x5FF || (a + b)[i] == ' ' by {
        if i < a.len() {
            assert((a + b)[i] == a[i]);
        } else {
            assert((a + b)[i] == b[i - a.len()]);
        }
    }
}

proof fn lemma_hebrew_join(list: Seq<Seq<char>>)
    requires
        forall|i: int| 0 <= i < list.len() ==> hebrew_or_space(#[trigger] list[i]),
    ensures
        hebrew_or_space(join(list, seq![' '])),
    decreases list.len(),
{
    if list.len() > 1 {
        lemma_hebrew_join(list.drop_last());
        assert(hebrew_or_space(seq![' ']));
        lemma_hebrew_concat(join(list.drop_last(), seq![' ']), seq![' ']);
        lemma_hebrew_concat(join(list.drop_last(), seq![' ']) + seq![' '], list.last());
    } else if list.len() == 0 {
        assert(hebrew_or_space(Seq::<char>::empty()));
    }
}

/// The words of the tables and the joining words are Hebrew.
proof fn lemma_table_words_hebrew()
    ensures
        forall|n: int| hebrew_or_space(#[trigger] word_of(tens_units_table(n))),
        forall|n: int| hebrew_or_space(#[trigger] word_of(hundreds_table(n))),
        forall|n: int| hebrew_or_space(#[trigger] word_of(thousands_table(n))),
        forall|c: char| hebrew_or_space(#[trigger] digit_word(c)),
        hebrew_or_space(" וֵ"@),
        hebrew_or_space(" אֶ֫לֶף"@),
        hebrew_or_space("מִילְיַארְד"@),
        hebrew_or_space(" מִילְיַארְד"@),
        hebrew_or_space("מִילְיוֹן"@),
        hebrew_or_space(" מִילְיוֹן"@),
        hebrew_or_space("אֶ֫פֶס"@),
{
    reveal_strlit("אַחַת");
    reveal_strlit("שְׁתַּ֫יִם");
    reveal_strlit("שָׁלוֹשׁ");
    reveal_strlit("אַ֫רְבַּע");
    reveal_strlit("חָמֵשׁ");
    reveal_strlit("שֵׁשׁ");
    reveal_strlit("שֶׁ֫בַע");
    reveal_strlit("שְׁמ֫וֹנֶה");
    reveal_strlit("תֵּשַׁע");
    reveal_strlit("עֶ֫שֶׂר");
    reveal_strlit("אַחַתעֶשְׂרֵה");
    reveal_strlit("שְׁתֵּ֫ימעֶשְׂרֵה");
    reveal_strlit("שְׁלוֹשׁעֶשְׂרֵה");
    reveal_strlit("אַרְבַּעעֶשְׂרֵה");
    reveal_strlit("חָמֵשׁעֶשְׂרֵה");
    reveal_strlit("שֵׁשׁעֶשְׂרֵה");
    reveal_strlit("שֶׁ֫בַעעֶשְׂרֵה");
    reveal_strlit("שְׁמ֫וֹנֶהעֶשְׂרֵה");
    reveal_strlit("תֵּשַׁעעֶשְׂרֵה");
    reveal_strlit("עֶשְׂרִ֫ים");
    reveal_strlit("שְׁלוֹשִׁים");
    reveal_strlit("אַרְבָּעִים");
    reveal_strlit("חֲמִשִּׁים");
    reveal_strlit("שִׁשִּׁים");
    reveal_strlit("שִׁבְעִים");
    reveal_strlit("שְׁמוֹנִים");
    reveal_strlit("תִּשְׁעִים");
    reveal_strlit("מֵ֫אָה");
    reveal_strlit("מָאתַ֫יִם");
    reveal_strlit("שְׁלוֹשׁמֵאוֹת");
    reveal_strlit("אַרְבַּעמֵאוֹת");
    reveal_strlit("חָמֵשׁמֵאוֹת");
    reveal_strlit("שֵׁשׁמֵאוֹת");
    reveal_strlit("שֶׁ֫בַעמֵאוֹת");
    reveal_strlit("שְׁמ֫וֹנֶהמֵאוֹת");
    reveal_strlit("תֵּשַׁעמֵאוֹת");
    reveal_strlit("אֶ֫לֶף");
    reveal_strlit("אַלְפַּאיִם");
    reveal_strlit("שְׁלֹ֫שֶׁתאֲלָפִים");
    reveal_strlit("אַרְבַּ֫עַתאֲלָפִים");
    reveal_strlit("חֲמֵ֫שֶׁתאֲלָפִים");
    reveal_strlit("שֵׁ֫שֶׁתאֲלָפִים");
    reveal_strlit("שִׁבְעַ֫תאֲלָפִים");
    reveal_strlit("שְׁמוֹנַ֫תאֲלָפִים");
    reveal_strlit("תִּשְׁעַ֫תאֲלָפִים");
    reveal_strlit("עֲשֶׂ֫רֶתאֲלָפִים");
    reveal_strlit("אֶ֫פֶס");
    reveal_strlit(" וֵ");
    reveal_strlit(" אֶ֫לֶף");
    reveal_strlit("מִילְיַארְד");
    reveal_strlit(" מִילְיַארְד");
    reveal_strlit("מִילְיוֹן");
    reveal_strlit(" מִילְיוֹן");
    assert(hebrew_or_space("אַחַת"@));
    assert(hebrew_or_space("שְׁתַּ֫יִם"@));
    assert(hebrew_or_space("שָׁלוֹשׁ"@));
    assert(hebrew_or_space("אַ֫רְבַּע"@));
    assert(hebrew_or_space("חָמֵשׁ"@));
    assert(hebrew_or_space("שֵׁשׁ"@));
    assert(hebrew_or_space("שֶׁ֫בַע"@));
    assert(hebrew_or_space("שְׁמ֫וֹנֶה"@));
    assert(hebrew_or_space("תֵּשַׁע"@));
    assert(hebrew_or_space("עֶ֫שֶׂר"@));
    assert(hebrew_or_space("אַחַתעֶשְׂרֵה"@));
    assert(hebrew_or_space("שְׁתֵּ֫ימעֶשְׂרֵה"@));
    assert(hebrew_or_space("שְׁלוֹשׁעֶשְׂרֵה"@));
    assert(hebrew_or_space("אַרְבַּעעֶשְׂרֵה"@));
    assert(hebrew_or_space("חָמֵשׁעֶשְׂרֵה"@));
    assert(hebrew_or_space("שֵׁשׁעֶשְׂרֵה"@));
    assert(hebrew_or_space("שֶׁ֫בַעעֶשְׂרֵה"@));
    assert(hebrew_or_space("שְׁמ֫וֹנֶהעֶשְׂרֵה"@));
    assert(hebrew_or_space("תֵּשַׁעעֶשְׂרֵה"@));
    assert(hebrew_or_space("עֶשְׂרִ֫ים"@));
    assert(hebrew_or_space("שְׁלוֹשִׁים"@));
    assert(hebrew_or_space("אַרְבָּעִים"@));
    assert(hebrew_or_space("חֲמִשִּׁים"@));
    assert(hebrew_or_space("שִׁשִּׁים"@));
    assert(hebrew_or_space("שִׁבְעִים"@));
    assert(hebrew_or_space("שְׁמוֹנִים"@));
    assert(hebrew_or_space("תִּשְׁעִים"@));
    assert(hebrew_or_space("מֵ֫אָה"@));
    assert(hebrew_or_space("מָאתַ֫יִם"@));
    assert(hebrew_or_space("שְׁלוֹשׁמֵאוֹת"@));
    assert(hebrew_or_space("אַרְבַּעמֵאוֹת"@));
    assert(hebrew_or_space("חָמֵשׁמֵאוֹת"@));
    assert(hebrew_or_space("שֵׁשׁמֵאוֹת"@));
    assert(hebrew_or_space("שֶׁ֫בַעמֵאוֹת"@));
    assert(hebrew_or_space("שְׁמ֫וֹנֶהמֵאוֹת"@));
    assert(hebrew_or_space("תֵּשַׁעמֵאוֹת"@));
    assert(hebrew_or_space("אֶ֫לֶף"@));
    assert(hebrew_or_space("אַלְפַּאיִם"@));
    assert(hebrew_or_space("שְׁלֹ֫שֶׁתאֲלָפִים"@));
    assert(hebrew_or_space("אַרְבַּ֫עַתאֲלָפִים"@));
    assert(hebrew_or_space("חֲמֵ֫שֶׁתאֲלָפִים"@));
    assert(hebrew_or_space("שֵׁ֫שֶׁתאֲלָפִים"@));
    assert(hebrew_or_space("שִׁבְעַ֫תאֲלָפִים"@));
    assert(hebrew_or_space("שְׁמוֹנַ֫תאֲלָפִים"@));
    assert(hebrew_or_space("תִּשְׁעַ֫תאֲלָפִים"@));
    assert(hebrew_or_space("עֲשֶׂ֫רֶתאֲלָפִים"@));
    assert(hebrew_or_space("אֶ֫פֶס"@));
    assert(hebrew_or_space(" וֵ"@));
    assert(hebrew_or_space(" אֶ֫לֶף"@));
    assert(hebrew_or_space("מִילְיַארְד"@));
    assert(hebrew_or_space(" מִילְיַארְד"@));
    assert(hebrew_or_space("מִילְיוֹן"@));
    assert(hebrew_or_space(" מִילְיוֹן"@));
    assert(hebrew_or_space(Seq::<char>::empty()));
}

proof fn lemma_part_if_hebrew(c: bool, w: Seq<char>)
    requires
        hebrew_or_space(w),
    ensures
        forall|i: int| 0 <= i < part_if(c, w).len() ==> hebrew_or_space(#[trigger] part_if(c, w)[i]),
{
}

proof fn lemma_parts_hebrew(a: Seq<Seq<char>>, b: Seq<Seq<char>>)
    requires
        forall|i: int| 0 <= i < a.len() ==> hebrew_or_space(#[trigger] a[i]),
        forall|i: int| 0 <= i < b.len() ==> hebrew_or_space(#[trigger] b[i]),
    ensures
        forall|i: int| 0 <= i < (a + b).len() ==> hebrew_or_space(#[trigger] (a + b)[i]),
{
    assert forall|i: int| 0 <= i < (a + b).len() implies hebrew_or_space(#[trigger] (a + b)[i]) by {
        if i < a.len() {
            assert((a + b)[i] == a[i]);
        } else {
            assert((a + b)[i] == b[i - a.len()]);
        }
    }
}

proof fn lemma_hundreds_hebrew(n: int)
    ensures
        hebrew_or_space(tens_units_word(n)),
        hebrew_or_space(hundreds_word(n)),
        hebrew_or_space(thousands_word(n)),
{
    lemma_table_words_hebrew();
    let t = n % 100;
    assert(hebrew_or_space(word_of(tens_units_table(t))));
    assert(hebrew_or_space(word_of(tens_units_table(t / 10 * 10))));
    assert(hebrew_or_space(word_of(tens_units_table(t % 10))));
    lemma_hebrew_concat(word_of(tens_units_table(t / 10 * 10)), " וֵ"@);
    lemma_hebrew_concat(word_of(tens_units_table(t / 10 * 10)) + " וֵ"@, word_of(tens_units_table(t % 10)));
    assert(hebrew_or_space(tens_units_word(t)));
    assert(hebrew_or_space(word_of(tens_units_table(n))));
    assert(hebrew_or_space(word_of(tens_units_table(n / 10 * 10))));
    assert(hebrew_or_space(word_of(tens_units_table(n % 10))));
    lemma_hebrew_concat(word_of(tens_units_table(n / 10 * 10)), " וֵ"@);
    lemma_hebrew_concat(word_of(tens_units_table(n / 10 * 10)) + " וֵ"@, word_of(tens_units_table(n % 10)));
    assert(hebrew_or_space(word_of(hundreds_table(n / 100))));
    let h = part_if(n / 100 > 0, word_of(hundreds_table(n / 100)));
    let u = part_if(n % 100 > 0, tens_units_word(n % 100));
    lemma_part_if_hebrew(n / 100 > 0, word_of(hundreds_table(n / 100)));
    lemma_part_if_hebrew(n % 100 > 0, tens_units_word(n % 100));
    lemma_parts_hebrew(h, u);
    lemma_hebrew_join(h + u);
    lemma_hebrew_concat(hundreds_word(n), " אֶ֫לֶף"@);
    assert(hebrew_or_space(word_of(thousands_table(n))));
}

/// Number words are made of Hebrew characters and spaces only.
pub proof fn lemma_number_words_hebrew(n: int)
    ensures
        hebrew_or_space(num_word(n)),
{
    lemma_table_words_hebrew();
    let a = abs(n);
    if a == 0 {
    } else if a > 999_999_999_999 {
        let ds = decimal_digits(a as nat).map_values(|c: char| digit_word(c));
        assert forall|i: int| 0 <= i < ds.len() implies hebrew_or_space(#[trigger] ds[i]) by {
            assert(hebrew_or_space(digit_word(decimal_digits(a as nat)[i])));
        }
        lemma_hebrew_join(ds);
    } else {
        let b = a / 1_000_000_000;
        let m = (a % 1_000_000_000) / 1_000_000;
        let t = (a % 1_000_000) / 1000;
        let r = a % 1000;
        lemma_hundreds_hebrew(b);
        lemma_hundreds_hebrew(m);
        lemma_hundreds_hebrew(t);
        lemma_hundreds_hebrew(r);
        lemma_hebrew_concat(hundreds_word(b), " מִילְיַארְד"@);
        lemma_hebrew_concat(hundreds_word(m), " מִילְיוֹן"@);
        let pb = part_if(b > 0, if b == 1 { "מִילְיַארְד"@ } else { hundreds_word(b) + " מִילְיַארְד"@ });
        let pm = part_if(m > 0, if m == 1 { "מִילְיוֹן"@ } else { hundreds_word(m) + " מִילְיוֹן"@ });
        let pt = part_if(t > 0, thousands_word(t));
        let pr = part_if(r > 0, hundreds_word(r));
        lemma_part_if_hebrew(b > 0, if b == 1 { "מִילְיַארְד"@ } else { hundreds_word(b) + " מִילְיַארְד"@ });
        lemma_part_if_hebrew(m > 0, if m == 1 { "מִילְיוֹן"@ } else { hundreds_word(m) + " מִילְיוֹן"@ });
        lemma_part_if_hebrew(t > 0, thousands_word(t));
        lemma_part_if_hebrew(r > 0, hundreds_word(r));
        lemma_parts_hebrew(pb, pm);
        lemma_parts_hebrew(pb + pm, pt);
        lemma_parts_hebrew(pb + pm + pt, pr);
        assert(num_parts(a) == pb + pm + pt + pr);
        lemma_hebrew_join(num_parts(a));
    }
}

/// Below a hundred a number reads as its tens-and-units words.
proof fn lemma_num_word_below_hundred(n: int)
    requires
        1 <= n <= 99,
    ensures
        num_word(n) == tens_units_word(n),
{
    assert(part_if(n / 100 > 0, word_of(hundreds_table(n / 100))) + part_if(
        n % 100 > 0,
        tens_units_word(n % 100),
    ) =~= seq![tens_units_word(n)]);
    assert(num_parts(n) =~= seq![hundreds_word(n)]);
}

/// Whole hundreds read as the hundreds word.
proof fn lemma_num_word_hundreds(d: int)
    requires
        1 <= d <= 9,
    ensures
        num_word(100 * d) == word_of(hundreds_table(d)),
{
    let n = 100 * d;
    assert(n / 100 == d && n % 100 == 0);
    assert(part_if(n / 100 > 0, word_of(hundreds_table(n / 100))) + part_if(
        n % 100 > 0,
        tens_units_word(n % 100),
    ) =~= seq![word_of(hundreds_table(d))]);
    assert(num_parts(n) =~= seq![hundreds_word(n)]);
}

/// Whole thousands up to ten thousand read as the thousands word.
proof fn lemma_num_word_thousands(d: int)
    requires
        1 <= d <= 10,
    ensures
        num_word(1000 * d) == word_of(thousands_table(d)),
{
    let n = 1000 * d;
    assert(n % 1_000_000 / 1000 == d && n % 1000 == 0 && n / 1_000_000_000 == 0);
    assert(num_parts(n) =~= seq![thousands_word(d)]);
}

/// The number words of the word table: each number up to twenty, each ten,
/// each hundred, each thousand up to ten thousand, a million and a billion
/// read as their fixed Hebrew words.
pub proof fn lemma_number_word_table()
    ensures
        num_word(0) == "אֶ֫פֶס"@,
        num_word(1) == "אַחַת"@,
        num_word(2) == "שְׁתַּ֫יִם"@,
        num_word(3) == "שָׁלוֹשׁ"@,
        num_word(4) == "אַ֫רְבַּע"@,
        num_word(5) == "חָמֵשׁ"@,
        num_word(6) == "שֵׁשׁ"@,
        num_word(7) == "שֶׁ֫בַע"@,
        num_word(8) == "שְׁמ֫וֹנֶה"@,
        num_word(9) == "תֵּשַׁע"@,
        num_word(10) == "עֶ֫שֶׂר"@,
        num_word(11) == "אַחַתעֶשְׂרֵה"@,
        num_word(12) == "שְׁתֵּ֫ימעֶשְׂרֵה"@,
        num_word(13) == "שְׁלוֹשׁעֶשְׂרֵה"@,
        num_word(14) == "אַרְבַּעעֶשְׂרֵה"@,
        num_word(15) == "חָמֵשׁעֶשְׂרֵה"@,
        num_word(16) == "שֵׁשׁעֶשְׂרֵה"@,
        num_word(17) == "שֶׁ֫בַעעֶשְׂרֵה"@,
        num_word(18) == "שְׁמ֫וֹנֶהעֶשְׂרֵה"@,
        num_word(19) == "תֵּשַׁעעֶשְׂרֵה"@,
        num_word(20) == "עֶשְׂרִ֫ים"@,
        num_word(30) == "שְׁלוֹשִׁים"@,
        num_word(40) == "אַרְבָּעִים"@,
        num_word(50) == "חֲמִשִּׁים"@,
        num_word(60) == "שִׁשִּׁים"@,
        num_word(70) == "שִׁבְעִים"@,
        num_word(80) == "שְׁמוֹנִים"@,
        num_word(90) == "תִּשְׁעִים"@,
        num_word(100) == "מֵ֫אָה"@,
        num_word(200) == "מָאתַ֫יִם"@,
        num_word(300) == "שְׁלוֹשׁמֵאוֹת"@,
        num_word(400) == "אַרְבַּעמֵאוֹת"@,
        num_word(500) == "חָמֵשׁמֵאוֹת"@,
        num_word(600) == "שֵׁשׁמֵאוֹת"@,
        num_word(700) == "שֶׁ֫בַעמֵאוֹת"@,
        num_word(800) == "שְׁמ֫וֹנֶהמֵאוֹת"@,
        num_word(900) == "תֵּשַׁעמֵאוֹת"@,
        num_word(1000) == "אֶ֫לֶף"@,
        num_word(2000) == "אַלְפַּאיִם"@,
        num_word(3000) == "שְׁלֹ֫שֶׁתאֲלָפִים"@,
        num_word(4000) == "אַרְבַּ֫עַתאֲלָפִים"@,
        num_word(5000) == "חֲמֵ֫שֶׁתאֲלָפִים"@,
        num_word(6000) == "שֵׁ֫שֶׁתאֲלָפִים"@,
        num_word(7000) == "שִׁבְעַ֫תאֲלָפִים"@,
        num_word(8000) == "שְׁמוֹנַ֫תאֲלָפִים"@,
        num_word(9000) == "תִּשְׁעַ֫תאֲלָפִים"@,
        num_word(10000) == "עֲשֶׂ֫רֶתאֲלָפִים"@,
        num_word(1_000_000) == "מִילְיוֹן"@,
        num_word(1_000_000_000) == "מִילְיַארְד"@,
{
    lemma_num_word_below_hundred(1);
    lemma_num_word_below_hundred(2);
    lemma_num_word_below_hundred(3);
    lemma_num_word_below_hundred(4);
    lemma_num_word_below_hundred(5);
    lemma_num_word_below_hundred(6);
    lemma_num_word_below_hundred(7);
    lemma_num_word_below_hundred(8);
    lemma_num_word_below_hundred(9);
    lemma_num_word_below_hundred(10);
    lemma_num_word_below_hundred(11);
    lemma_num_word_below_hundred(12);
    lemma_num_word_below_hundred(13);
    lemma_num_word_below_hundred(14);
    lemma_num_word_below_hundred(15);
    lemma_num_word_below_hundred(16);
    lemma_num_word_below_hundred(17);
    lemma_num_word_below_hundred(18);
    lemma_num_word_below_hundred(19);
    lemma_num_word_below_hundred(20);
    lemma_num_word_below_hundred(30);
    lemma_num_word_below_hundred(40);
    lemma_num_word_below_hundred(50);
    lemma_num_word_below_hundred(60);
    lemma_num_word_below_hundred(70);
    lemma_num_word_below_hundred(80);
    lemma_num_word_below_hundred(90);
    lemma_num_word_hundreds(1);
    lemma_num_word_hundreds(2);
    lemma_num_word_hundreds(3);
    lemma_num_word_hundreds(4);
    lemma_num_word_hundreds(5);
    lemma_num_word_hundreds(6);
    lemma_num_word_hundreds(7);
    lemma_num_word_hundreds(8);
    lemma_num_word_hundreds(9);
    lemma_num_word_thousands(1);
    lemma_num_word_thousands(2);
    lemma_num_word_thousands(3);
    lemma_num_word_thousands(4);
    lemma_num_word_thousands(5);
    lemma_num_word_thousands(6);
    lemma_num_word_thousands(7);
    lemma_num_word_thousands(8);
    lemma_num_word_thousands(9);
    lemma_num_word_thousands(10);
    assert(num_parts(1_000_000) =~= seq!["מִילְיוֹן"@]);
    assert(num_parts(1_000_000_000) =~= seq!["מִילְיַארְד"@]);
}

/// A digit read on its own (as in numbers above 999 999 999 999) is read
/// with the number word of its value.
pub proof fn lemma_digit_words_are_number_words(d: int)
    requires
        0 <= d <= 9,
    ensures
        digit_word(digit_char(d)) == num_word(d),
{
    if d > 0 {
        lemma_num_word_below_hundred(d);
    }
}

/// A number written with a minus sign reads as "מִ֫ינּוּס " and the words of
/// its value.
pub proof fn lemma_negative_number(d: Seq<char>, v: int)
    requires
        d.len() > 0,
        parse_i64_spec(d) == Some(v),
        is_ascii_digit(d[0]),
    ensures
        expand_number_word(seq!['-'] + d) == "מִ֫ינּוּס "@ + num_word(v),
{
    let w = seq!['-'] + d;
    assert(all_ascii_digits(d));
    assert(!is_prefix_letter(w[0]));
    assert(prefix_run(w) == 0);
    assert(split_number_prefix(w) == (Seq::<char>::empty(), w));
    assert(w.last() == d[d.len() - 1]);
    assert(end_of_last_digit(w) == w.len());
    assert(w.take(w.len() as int) =~= w);
    assert(w.skip(w.len() as int) =~= Seq::<char>::empty());
    assert(w.drop_first() =~= d);
    assert(no_sep_in(d, 0, d.len() as int));
    assert(spelled_number(d) == Some(num_word(v)));
    assert(Seq::<char>::empty() + sign_word(true) + num_word(v) + Seq::<char>::empty() =~= "מִ֫ינּוּס "@
        + num_word(v));
}

/// A decimal number reads as its whole part, "נְֽקֻדָּה" and its fraction
/// digits read as a number.
pub proof fn lemma_decimal_number(a: Seq<char>, f: Seq<char>, va: int, vf: int)
    requires
        a.len() > 0,
        f.len() > 0,
        all_ascii_digits(a),
        all_ascii_digits(f),
        parse_i64_spec(a) == Some(va),
        parse_i64_spec(f) == Some(vf),
    ensures
        expand_number_word(a + seq!['.'] + f) == num_word(va) + " נְֽקֻדָּה "@ + num_word(vf),
{
    let w = a + seq!['.'] + f;
    let k = a.len() as int;
    assert(w[0] == a[0]);
    assert(is_ascii_digit(a[0]));
    assert(!is_prefix_letter(w[0]));
    assert(prefix_run(w) == 0);
    assert(split_number_prefix(w) == (Seq::<char>::empty(), w));
    assert(w.last() == f[f.len() - 1]);
    assert(is_ascii_digit(f[f.len() - 1]));
    assert(end_of_last_digit(w) == w.len());
    assert(w.take(w.len() as int) =~= w);
    assert(w.skip(w.len() as int) =~= Seq::<char>::empty());
    assert forall|j: int| 0 <= j < w.len() && j != k implies !is_decimal_sep(#[trigger] w[j]) by {
        if j < k {
            assert(w[j] == a[j]);
            assert(is_ascii_digit(a[j]));
        } else {
            assert(w[j] == f[j - k - 1]);
            assert(is_ascii_digit(f[j - k - 1]));
        }
    }
    assert(w[k] == '.');
    assert(single_sep_at(w, k));
    assert(!no_sep_in(w, 0, w.len() as int));
    let c = choose|c: int| single_sep_at(w, c);
    assert(single_sep_at(w, c));
    assert(c == k);
    assert(w.take(k) =~= a);
    assert(w.skip(k + 1) =~= f);
    assert(spelled_number(w) == Some(num_word(va) + " נְֽקֻדָּה "@ + num_word(vf)));
    assert(Seq::<char>::empty() + sign_word(false) + (num_word(va) + " נְֽקֻדָּה "@ + num_word(vf))
        + Seq::<char>::empty() =~= num_word(va) + " נְֽקֻדָּה "@ + num_word(vf));
}

/// Whole millions and billions: one reads as "מִילְיוֹן" / "מִילְיַארְד"
/// alone, more as the count followed by that word.
pub proof fn lemma_millions_and_billions(k: int)
    requires
        2 <= k <= 999,
    ensures
        num_word(k * 1_000_000) == hundreds_word(k) + " מִילְיוֹן"@,
        num_word(k * 1_000_000_000) == hundreds_word(k) + " מִילְיַארְד"@,
{
    let m = k * 1_000_000;
    let b = k * 1_000_000_000;
    vstd::arithmetic::div_mod::lemma_fundamental_div_mod_converse(m, 1_000_000_000, 0, m);
    vstd::arithmetic::div_mod::lemma_fundamental_div_mod_converse(m, 1_000_000, k, 0);
    vstd::arithmetic::div_mod::lemma_fundamental_div_mod_converse(m, 1000, k * 1000, 0);
    assert(num_parts(m) =~= seq![hundreds_word(k) + " מִילְיוֹן"@]);
    vstd::arithmetic::div_mod::lemma_fundamental_div_mod_converse(b, 1_000_000_000, k, 0);
    vstd::arithmetic::div_mod::lemma_fundamental_div_mod_converse(b, 1_000_000, k * 1000, 0);
    vstd::arithmetic::div_mod::lemma_fundamental_div_mod_converse(b, 1000, k * 1_000_000, 0);
    assert(num_parts(b) =~= seq![hundreds_word(k) + " מִילְיַארְד"@]);
}

} // verus!
