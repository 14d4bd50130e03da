//! Diacritized text from per-character predictions of the diacritization
//! model: removal of existing marks before tokenization, and reconstruction of
//! the text with the predicted marks.

use vstd::prelude::*;

use crate::pattern::{
    captured_view, regex_captures, regex_captures_of, replace_matches, replaced, well_placed, Captured,
};
use crate::text::{
    byte_len, char_len_utf8, lemma_utf8_len_push, lemma_utf8_len_take, lemma_utf8_len_take_strict,
    push_char, push_range,
    str_chars, utf8_len,
};

verus! {

/// Hebrew points, accents and `|`: what is removed before tokenization.
pub const NIKUD_PATTERN: &'static str = r"[\u{0590}-\u{05C7}|]";

/// Shin dot and sin dot.
pub open spec fn shin_class(i: int) -> Seq<char> {
    if i == 0 {
        "\u{05c1}"@
    } else {
        "\u{05c2}"@
    }
}

fn shin_mark(i: usize) -> (r: &'static str)
    requires
        i < 2,
    ensures
        r@ == shin_class(i as int),
{
    if i == 0 {
        "\u{05c1}"
    } else {
        "\u{05c2}"
    }
}

/// Marks for stress ("ole"), vocal shva ("meteg") and prefix boundaries.
pub const STRESS_CHAR: &'static str = "\u{05ab}";

pub const VOCAL_SHVA_CHAR: &'static str = "\u{05bd}";

pub const PREFIX_CHAR: &'static str = "|";

/// Number of nikud classes the model predicts.
pub const NUM_NIKUD_CLASSES: usize = 29;

/// Class 1 marks a mater lectionis rather than a vowel.
pub const MAT_LECT_CLASS: usize = 1;

pub open spec fn nikud_class(i: int) -> Seq<char> {
    if i == 0 {
        ""@
    } else if i == 2 {
        "\u{05bc}"@
    } else if i == 3 {
        "\u{05b0}"@
    } else if i == 4 {
        "\u{05b1}"@
    } else if i == 5 {
        "\u{05b2}"@
    } else if i == 6 {
        "\u{05b3}"@
    } else if i == 7 {
        "\u{05b4}"@
    } else if i == 8 {
        "\u{05b5}"@
    } else if i == 9 {
        "\u{05b6}"@
    } else if i == 10 {
        "\u{05b7}"@
    } else if i == 11 {
        "\u{05b8}"@
    } else if i == 12 {
        "\u{05b9}"@
    } else if i == 13 {
        "\u{05ba}"@
    } else if i == 14 {
        "\u{05bb}"@
    } else if i == 15 {
        "\u{05bc}\u{05b0}"@
    } else if i == 16 {
        "\u{05bc}\u{05b1}"@
    } else if i == 17 {
        "\u{05bc}\u{05b2}"@
    } else if i == 18 {
        "\u{05bc}\u{05b3}"@
    } else if i == 19 {
        "\u{05bc}\u{05b4}"@
    } else if i == 20 {
        "\u{05bc}\u{05b5}"@
    } else if i == 21 {
        "\u{05bc}\u{05b6}"@
    } else if i == 22 {
        "\u{05bc}\u{05b7}"@
    } else if i == 23 {
        "\u{05bc}\u{05b8}"@
    } else if i == 24 {
        "\u{05bc}\u{05b9}"@
    } else if i == 25 {
        "\u{05bc}\u{05ba}"@
    } else if i == 26 {
        "\u{05bc}\u{05bb}"@
    } else if i == 27 {
        "\u{05c7}"@
    } else if i == 28 {
        "\u{05bc}\u{05c7}"@
    } else {
        "<MAT_LECT>"@
    }
}

fn nikud_mark(i: usize) -> (r: &'static str)
    requires
        i < 29,
        i != 1,
    ensures
        r@ == nikud_class(i as int),
{
    match i {
        0 => "",
        2 => "\u{05bc}",
        3 => "\u{05b0}",
        4 => "\u{05b1}",
        5 => "\u{05b2}",
        6 => "\u{05b3}",
        7 => "\u{05b4}",
        8 => "\u{05b5}",
        9 => "\u{05b6}",
        10 => "\u{05b7}",
        11 => "\u{05b8}",
        12 => "\u{05b9}",
        13 => "\u{05ba}",
        14 => "\u{05bb}",
        15 => "\u{05bc}\u{05b0}",
        16 => "\u{05bc}\u{05b1}",
        17 => "\u{05bc}\u{05b2}",
        18 => "\u{05bc}\u{05b3}",
        19 => "\u{05bc}\u{05b4}",
        20 => "\u{05bc}\u{05b5}",
        21 => "\u{05bc}\u{05b6}",
        22 => "\u{05bc}\u{05b7}",
        23 => "\u{05bc}\u{05b8}",
        24 => "\u{05bc}\u{05b9}",
        25 => "\u{05bc}\u{05ba}",
        26 => "\u{05bc}\u{05bb}",
        27 => "\u{05c7}",
        _ => "\u{05bc}\u{05c7}",
    }
}

/// Hebrew letters א..ת.
pub open spec fn is_hebrew_letter_spec(c: char) -> bool {
    0x5D0 <= (c as u32) <= 0x5EA
}

pub fn is_hebrew_letter(ch: char) -> (b: bool)
    ensures
        b == is_hebrew_letter_spec(ch),
{
    let ord = ch as u32;
    0x5D0 <= ord && ord <= 0x5EA
}

/// The letters that can be matres lectionis: א, ו, י.
pub open spec fn is_matres_letter_spec(c: char) -> bool {
    c == '\u{05D0}' || c == '\u{05D5}' || c == '\u{05D9}'
}

pub fn is_matres_letter(ch: char) -> (b: bool)
    ensures
        b == is_matres_letter_spec(ch),
{
    ch == '\u{05D0}' || ch == '\u{05D5}' || ch == '\u{05D9}'
}

/// `text` without the matches of `NIKUD_PATTERN`.
pub open spec fn nikud_removed(text: Seq<char>) -> Seq<char> {
    match regex_captures_of(NIKUD_PATTERN@, text) {
        None => text,
        Some(ms) => matches_removed(text, ms),
    }
}

/// `text` without the matches `ms`.
pub open spec fn matches_removed(text: Seq<char>, ms: Seq<(nat, nat, Seq<Seq<char>>)>) -> Seq<char> {
    replaced(text, ms, ms.map_values(|m: (nat, nat, Seq<Seq<char>>)| Seq::<char>::empty()))
}

/// `text` without each of `matches` (the matches of `NIKUD_PATTERN` in it).
pub fn remove_matches(text: &str, matches: &Vec<Captured>) -> (r: String)
    requires
        well_placed(matches@.map_values(|c: Captured| captured_view(c)), utf8_len(text@)),
    ensures
        r@ == matches_removed(text@, matches@.map_values(|c: Captured| captured_view(c))),
{
    let chars = str_chars(text);
    // Its byte length fits in `usize`.
    let _bytes: usize = byte_len(text);
    let ghost mv = matches@.map_values(|c: Captured| captured_view(c));
    let mut reps: Vec<String> = Vec::new();
    let mut i: usize = 0;
    while i < matches.len()
        invariant
            i <= matches@.len(),
            mv == matches@.map_values(|c: Captured| captured_view(c)),
            crate::text::views(reps@) =~= mv.take(i as int).map_values(
                |m: (nat, nat, Seq<Seq<char>>)| Seq::<char>::empty(),
            ),
        decreases matches@.len() - i,
    {
        let ghost old_r = reps@;
        reps.push(String::new());
        assert(crate::text::views(reps@) =~= crate::text::views(old_r).push(
            Seq::<char>::empty(),
        ));
        assert(mv.take(i + 1) =~= mv.take(i as int).push(mv[i as int]));
        i = i + 1;
    }
    assert(mv.take(matches@.len() as int) =~= mv);
    replace_matches(&chars, matches, &reps)
}

/// Remove nikud (and `|`) from `text` before tokenization.
pub fn remove_nikud(text: &str) -> (r: String)
    ensures
        r@ == nikud_removed(text@),
{
    match regex_captures(NIKUD_PATTERN, text) {
        None => String::from_str(text),
        Some(ms) => remove_matches(text, &ms),
    }
}

// ---------------------------------------------------------------------------
// Byte offsets of the tokenizer
// ---------------------------------------------------------------------------

/// Byte offset `b` falls between two characters of `s` (or at an end).
pub open spec fn byte_boundary(s: Seq<char>, b: int) -> bool {
    exists|k: int| 0 <= k <= s.len() && utf8_len(s.take(k)) == b
}

/// The character position of a boundary byte offset.
pub open spec fn position_of_byte(s: Seq<char>, b: int) -> int {
    choose|k: int| 0 <= k <= s.len() && utf8_len(s.take(k)) == b
}

/// The byte offset of every character position of `s`.
fn prefix_byte_lengths(s: &[char]) -> (r: Vec<usize>)
    requires
        utf8_len(s@) <= usize::MAX,
    ensures
        r@.len() == s@.len() + 1,
        forall|k: int| 0 <= k <= s@.len() ==> r@[k] == utf8_len(#[trigger] s@.take(k)),
{
    let mut r: Vec<usize> = Vec::new();
    let mut pos: usize = 0;
    let mut k: usize = 0;
    r.push(0);
    assert(s@.take(0) =~= Seq::<char>::empty());
    while k < s.len()
        invariant
            k <= s@.len(),
            utf8_len(s@) <= usize::MAX,
            r@.len() == k + 1,
            pos == utf8_len(s@.take(k as int)),
            forall|j: int| 0 <= j <= k ==> r@[j] == utf8_len(#[trigger] s@.take(j)),
        decreases s@.len() - k,
    {
        proof {
            assert(s@.take(k + 1) =~= s@.take(k as int).push(s@[k as int]));
            lemma_utf8_len_push(s@.take(k as int), s@[k as int]);
            lemma_utf8_len_take(s@, k + 1);
        }
        pos = pos + char_len_utf8(s[k]);
        k = k + 1;
        r.push(pos);
    }
    r
}

/// The character position of byte offset `b`, if it is a boundary.
fn find_position(s: &[char], prefix: &Vec<usize>, b: usize) -> (r: Option<usize>)
    requires
        prefix@.len() == s@.len() + 1,
        forall|k: int| 0 <= k <= s@.len() ==> prefix@[k] == utf8_len(#[trigger] s@.take(k)),
    ensures
        match r {
            Some(k) => byte_boundary(s@, b as int) && k == position_of_byte(s@, b as int) && k
                <= s@.len(),
            None => !byte_boundary(s@, b as int),
        },
{
    let mut k: usize = 0;
    while k < prefix.len()
        invariant
            prefix@.len() == s@.len() + 1,
            forall|j: int| 0 <= j <= s@.len() ==> prefix@[j] == utf8_len(#[trigger] s@.take(j)),
            k <= prefix@.len(),
            forall|j: int| 0 <= j < k ==> utf8_len(#[trigger] s@.take(j)) != b,
        decreases prefix@.len() - k,
    {
        if prefix[k] == b {
            proof {
                assert(utf8_len(s@.take(k as int)) == b);
                let c = position_of_byte(s@, b as int);
                assert(0 <= c <= s@.len() && utf8_len(s@.take(c)) == b);
                if c < k {
                    lemma_utf8_len_take_strict(s@, c, k as int);
                } else if c > k {
                    lemma_utf8_len_take_strict(s@, k as int, c);
                }
            }
            return Some(k);
        }
        k = k + 1;
    }
    None
}

// ---------------------------------------------------------------------------
// Reconstruction
// ---------------------------------------------------------------------------

/// Predictions of the model for each token (all indexed by token).
pub struct Predictions {
    pub nikud: Vec<usize>,
    pub shin: Vec<usize>,
    pub stress: Vec<bool>,
    pub vocal_shva: Vec<bool>,
    pub prefix: Vec<bool>,
}

/// The end of the last nonempty token among the first `n` (0 if none):
/// how far the text has been consumed.
pub open spec fn consumed_after(offsets: Seq<(usize, usize)>, n: int) -> int
    decreases n,
{
    if n <= 0 {
        0
    } else if offsets[n - 1].1 <= offsets[n - 1].0 {
        consumed_after(offsets, n - 1)
    } else {
        offsets[n - 1].1 as int
    }
}

/// The characters of `s` between two boundary byte offsets.
pub open spec fn between_bytes(s: Seq<char>, a: int, b: int) -> Seq<char> {
    s.subrange(position_of_byte(s, a), position_of_byte(s, b))
}

/// Token `idx` covers exactly one character, and it is a Hebrew letter.
pub open spec fn single_letter_token(s: Seq<char>, offsets: Seq<(usize, usize)>, idx: int) -> bool {
    let st = offsets[idx].0 as int;
    let en = offsets[idx].1 as int;
    en > st && between_bytes(s, st, en).len() == 1 && is_hebrew_letter_spec(
        between_bytes(s, st, en)[0],
    )
}

/// Reconstructing token `idx` takes only valid slices and valid class
/// indices.
pub open spec fn token_ok(s: Seq<char>, offsets: Seq<(usize, usize)>, p: Predictions, idx: int) -> bool {
    let prev = consumed_after(offsets, idx);
    let st = offsets[idx].0 as int;
    let en = offsets[idx].1 as int;
    &&& st > prev ==> byte_boundary(s, st)
    &&& en > st ==> byte_boundary(s, st) && byte_boundary(s, en)
    &&& single_letter_token(s, offsets, idx) ==> {
        &&& (between_bytes(s, st, en)[0] == '\u{05E9}' && idx < p.shin@.len()) ==> p.shin@[idx] < 2
        &&& idx < p.nikud@.len() ==> p.nikud@[idx] < NUM_NIKUD_CLASSES
    }
}

/// Reconstruction of every token takes only valid slices and class indices.
pub open spec fn reconstruct_ok(s: Seq<char>, offsets: Seq<(usize, usize)>, p: Predictions) -> bool {
    forall|idx: int| 0 <= idx < offsets.len() ==> #[trigger] token_ok(s, offsets, p, idx)
}

/// A flag of the predictions, when there is one.
pub open spec fn flag(v: Seq<bool>, idx: int) -> bool {
    idx < v.len() && v[idx]
}

/// The shin or sin dot predicted for a shin.
pub open spec fn shin_part(c: char, p: Predictions, idx: int) -> Seq<char> {
    if c == '\u{05E9}' && idx < p.shin@.len() {
        shin_class(p.shin@[idx] as int)
    } else {
        Seq::empty()
    }
}

/// The predicted nikud, or, for a mater lectionis, the requested mark.
pub open spec fn nikud_part(c: char, p: Predictions, idx: int, mark: Option<Seq<char>>) -> Seq<char> {
    if idx < p.nikud@.len() {
        if p.nikud@[idx] == MAT_LECT_CLASS {
            if is_matres_letter_spec(c) {
                match mark {
                    Some(m) => m,
                    None => Seq::empty(),
                }
            } else {
                Seq::empty()
            }
        } else {
            nikud_class(p.nikud@[idx] as int)
        }
    } else {
        Seq::empty()
    }
}

/// `m` when the flag of `idx` is set.
pub open spec fn flag_part(v: Seq<bool>, idx: int, m: Seq<char>) -> Seq<char> {
    if flag(v, idx) {
        m
    } else {
        Seq::empty()
    }
}

/// A Hebrew letter with its predicted marks: shin/sin dot, nikud (or, for a
/// mater lectionis, the requested mark), stress, vocal shva and prefix marks.
pub open spec fn letter_with_marks(c: char, p: Predictions, idx: int, mark: Option<Seq<char>>) -> Seq<
    char,
> {
    seq![c] + shin_part(c, p, idx) + nikud_part(c, p, idx, mark) + flag_part(
        p.stress@,
        idx,
        STRESS_CHAR@,
    ) + flag_part(p.vocal_shva@, idx, VOCAL_SHVA_CHAR@) + flag_part(p.prefix@, idx, PREFIX_CHAR@)
}

/// What token `idx` contributes: the text skipped since the last token, then
/// the token itself (a single Hebrew letter with its marks, anything else
/// as it is); an empty token contributes only the skipped text.
pub open spec fn token_piece(
    s: Seq<char>,
    offsets: Seq<(usize, usize)>,
    p: Predictions,
    mark: Option<Seq<char>>,
    idx: int,
) -> Seq<char> {
    let prev = consumed_after(offsets, idx);
    let st = offsets[idx].0 as int;
    let en = offsets[idx].1 as int;
    let gap = if st > prev {
        between_bytes(s, prev, st)
    } else {
        Seq::empty()
    };
    if en <= st {
        gap
    } else {
        let tok = between_bytes(s, st, en);
        if tok.len() == 1 && is_hebrew_letter_spec(tok[0]) {
            gap + letter_with_marks(tok[0], p, idx, mark)
        } else {
            gap + tok
        }
    }
}

/// The pieces of the first `n` tokens.
pub open spec fn pieces_upto(
    s: Seq<char>,
    offsets: Seq<(usize, usize)>,
    p: Predictions,
    mark: Option<Seq<char>>,
    n: int,
) -> Seq<char>
    decreases n,
{
    if n <= 0 {
        Seq::empty()
    } else {
        pieces_upto(s, offsets, p, mark, n - 1) + token_piece(s, offsets, p, mark, n - 1)
    }
}

/// The diacritized text: the pieces of all tokens, then the rest of the text.
pub open spec fn reconstruction(
    s: Seq<char>,
    offsets: Seq<(usize, usize)>,
    p: Predictions,
    mark: Option<Seq<char>>,
) -> Seq<char> {
    let prev = consumed_after(offsets, offsets.len() as int);
    pieces_upto(s, offsets, p, mark, offsets.len() as int) + s.subrange(
        position_of_byte(s, prev),
        s.len() as int,
    )
}

/// A boundary byte offset has a position, and that position gives it back.
proof fn lemma_position_of_byte(s: Seq<char>, b: int)
    requires
        byte_boundary(s, b),
    ensures
        0 <= position_of_byte(s, b) <= s.len(),
        utf8_len(s.take(position_of_byte(s, b))) == b,
{
}

/// Positions of boundaries are ordered as their byte offsets.
proof fn lemma_position_order(s: Seq<char>, a: int, b: int)
    requires
        byte_boundary(s, a),
        byte_boundary(s, b),
        a < b,
    ensures
        position_of_byte(s, a) < position_of_byte(s, b),
{
    let ka = position_of_byte(s, a);
    let kb = position_of_byte(s, b);
    if kb < ka {
        lemma_utf8_len_take_strict(s, kb, ka);
    }
}

/// Whether `reconstruct_diacritics` may run on these inputs (where the
/// reconstruction would slice the text inside a character, or past its end,
/// or read a class out of range, it may not).
pub fn can_reconstruct(clean_text: &str, offsets: &Vec<(usize, usize)>, preds: &Predictions) -> (b: bool)
    ensures
        b == reconstruct_ok(clean_text@, offsets@, *preds),
{
    let s = str_chars(clean_text);
    let n = byte_len(clean_text);
    let prefix = prefix_byte_lengths(&s);
    let mut prev: usize = 0;
    let mut idx: usize = 0;
    while idx < offsets.len()
        invariant
            idx <= offsets@.len(),
            s@ == clean_text@,
            prefix@.len() == s@.len() + 1,
            forall|k: int| 0 <= k <= s@.len() ==> prefix@[k] == utf8_len(#[trigger] s@.take(k)),
            prev == consumed_after(offsets@, idx as int),
            forall|j: int| 0 <= j < idx ==> #[trigger] token_ok(s@, offsets@, *preds, j),
        decreases offsets@.len() - idx,
    {
        let (st, en) = offsets[idx];
        if st > prev {
            if find_position(&s, &prefix, st).is_none() {
                assert(!token_ok(s@, offsets@, *preds, idx as int));
                return false;
            }
        }
        if en > st {
            let ks = find_position(&s, &prefix, st);
            let ke = find_position(&s, &prefix, en);
            match (ks, ke) {
                (Some(a), Some(b)) => {
                    proof {
                        lemma_position_order(s@, st as int, en as int);
                    }
                    assert(between_bytes(s@, st as int, en as int) =~= s@.subrange(
                        a as int,
                        b as int,
                    ));
                    if b - a == 1 && is_hebrew_letter(s[a]) {
                        if s[a] == '\u{05E9}' && idx < preds.shin.len() && preds.shin[idx] >= 2 {
                            assert(!token_ok(s@, offsets@, *preds, idx as int));
                            return false;
                        }
                        if idx < preds.nikud.len() && preds.nikud[idx] >= NUM_NIKUD_CLASSES {
                            assert(!token_ok(s@, offsets@, *preds, idx as int));
                            return false;
                        }
                    }
                },
                _ => {
                    assert(!token_ok(s@, offsets@, *preds, idx as int));
                    return false;
                },
            }
            prev = en;
        }
        assert(token_ok(s@, offsets@, *preds, idx as int));
        idx = idx + 1;
    }
    true
}

/// The view of an optional mark.
pub open spec fn mark_view(mark: Option<&str>) -> Option<Seq<char>> {
    match mark {
        Some(m) => Some(m@),
        None => None,
    }
}

fn push_nikud(result: &mut String, c: char, preds: &Predictions, idx: usize, mark: Option<&str>)
    requires
        idx < preds.nikud@.len() ==> preds.nikud@[idx as int] < NUM_NIKUD_CLASSES,
    ensures
        final(result)@ == old(result)@ + nikud_part(c, *preds, idx as int, mark_view(mark)),
{
    let ghost before = result@;
    if idx < preds.nikud.len() {
        let k = preds.nikud[idx];
        if k == MAT_LECT_CLASS {
            if is_matres_letter(c) {
                match mark {
                    Some(m) => result.append(m),
                    None => {},
                }
            }
        } else {
            result.append(nikud_mark(k));
        }
    }
    assert(result@ =~= before + nikud_part(c, *preds, idx as int, mark_view(mark)));
}

fn push_flag(result: &mut String, v: &Vec<bool>, idx: usize, m: &str)
    ensures
        final(result)@ == old(result)@ + flag_part(v@, idx as int, m@),
{
    let ghost before = result@;
    if idx < v.len() && v[idx] {
        result.append(m);
    }
    assert(result@ =~= before + flag_part(v@, idx as int, m@));
}

fn push_letter_with_marks(
    result: &mut String,
    c: char,
    preds: &Predictions,
    idx: usize,
    mark: Option<&str>,
)
    requires
        (c == '\u{05E9}' && idx < preds.shin@.len()) ==> preds.shin@[idx as int] < 2,
        idx < preds.nikud@.len() ==> preds.nikud@[idx as int] < NUM_NIKUD_CLASSES,
    ensures
        final(result)@ == old(result)@ + letter_with_marks(c, *preds, idx as int, mark_view(mark)),
{
    let ghost before = result@;
    push_char(result, c);
    // Shin or sin dot.
    if c == '\u{05E9}' && idx < preds.shin.len() {
        result.append(shin_mark(preds.shin[idx]));
    }
    assert(result@ =~= before + seq![c] + shin_part(c, *preds, idx as int));
    // Nikud, or the mark of a mater lectionis.
    push_nikud(result, c, preds, idx, mark);
    // Stress, vocal shva and prefix marks.
    push_flag(result, &preds.stress, idx, STRESS_CHAR);
    push_flag(result, &preds.vocal_shva, idx, VOCAL_SHVA_CHAR);
    push_flag(result, &preds.prefix, idx, PREFIX_CHAR);
    assert(result@ =~= before + letter_with_marks(c, *preds, idx as int, mark_view(mark)));
}

/// Appends what token `idx` contributes.
fn push_token(
    result: &mut String,
    s: &Vec<char>,
    prefix: &Vec<usize>,
    offsets: &Vec<(usize, usize)>,
    preds: &Predictions,
    mark: Option<&str>,
    idx: usize,
    prev: usize,
)
    requires
        idx < offsets@.len(),
        token_ok(s@, offsets@, *preds, idx as int),
        prefix@.len() == s@.len() + 1,
        forall|k: int| 0 <= k <= s@.len() ==> prefix@[k] == utf8_len(#[trigger] s@.take(k)),
        prev == consumed_after(offsets@, idx as int),
        byte_boundary(s@, prev as int),
    ensures
        final(result)@ == old(result)@ + token_piece(s@, offsets@, *preds, mark_view(mark), idx as int),
{
    let (st, en) = offsets[idx];
    let ghost before = result@;
    // Add anything skipped since the previous token.
    if st > prev {
        let kp = match find_position(s, prefix, prev) {
            Some(k) => k,
            None => 0,
        };
        let ks = match find_position(s, prefix, st) {
            Some(k) => k,
            None => 0,
        };
        proof {
            lemma_position_order(s@, prev as int, st as int);
        }
        push_range(result, s.as_slice(), kp, ks);
    }
    let ghost gap = if st > prev {
        between_bytes(s@, prev as int, st as int)
    } else {
        Seq::<char>::empty()
    };
    assert(result@ =~= before + gap);
    if en > st {
        let a = match find_position(s, prefix, st) {
            Some(k) => k,
            None => 0,
        };
        let b = match find_position(s, prefix, en) {
            Some(k) => k,
            None => 0,
        };
        proof {
            lemma_position_order(s@, st as int, en as int);
        }
        let ghost tok = s@.subrange(a as int, b as int);
        assert(between_bytes(s@, st as int, en as int) =~= tok);
        if b - a == 1 && is_hebrew_letter(s[a]) {
            assert(tok[0] == s@[a as int]);
            push_letter_with_marks(result, s[a], preds, idx, mark);
        } else {
            push_range(result, s.as_slice(), a, b);
        }
    }
}

/// Reconstruct the diacritized text from the model's predictions: `offsets`
/// are the byte ranges of the tokens in `clean_text`, and `mark`, if given, is
/// placed on matres lectionis.
pub fn reconstruct_diacritics(
    clean_text: &str,
    offsets: &Vec<(usize, usize)>,
    preds: &Predictions,
    mark: Option<&str>,
) -> (r: String)
    requires
        reconstruct_ok(clean_text@, offsets@, *preds),
    ensures
        r@ == reconstruction(clean_text@, offsets@, *preds, mark_view(mark)),
{
    let s = str_chars(clean_text);
    let n = byte_len(clean_text);
    let prefix = prefix_byte_lengths(&s);
    let mut result = String::new();
    let mut prev: usize = 0;
    let mut idx: usize = 0;
    assert(s@.take(0) =~= Seq::<char>::empty());
    assert(byte_boundary(s@, 0));
    while idx < offsets.len()
        invariant
            idx <= offsets@.len(),
            s@ == clean_text@,
            reconstruct_ok(s@, offsets@, *preds),
            prefix@.len() == s@.len() + 1,
            forall|k: int| 0 <= k <= s@.len() ==> prefix@[k] == utf8_len(#[trigger] s@.take(k)),
            prev == consumed_after(offsets@, idx as int),
            byte_boundary(s@, prev as int),
            result@ == pieces_upto(s@, offsets@, *preds, mark_view(mark), idx as int),
        decreases offsets@.len() - idx,
    {
        assert(token_ok(s@, offsets@, *preds, idx as int));
        push_token(&mut result, &s, &prefix, offsets, preds, mark, idx, prev);
        let (st, en) = offsets[idx];
        if en > st {
            prev = en;
        }
        idx = idx + 1;
    }
    let kp = match find_position(&s, &prefix, prev) {
        Some(k) => k,
        None => 0,
    };
    push_range(&mut result, s.as_slice(), kp, s.len());
    result
}

// ---------------------------------------------------------------------------
// Diacritization only adds marks
// ---------------------------------------------------------------------------

/// Hebrew points and accents (U+0590..U+05C7) and `|`: the marks that
/// `remove_nikud` removes and that the reconstruction adds.
pub open spec fn is_mark_char(c: char) -> bool {
    0x590 <= (c as u32) <= 0x5C7 || c == '|'
}

/// `s` without its marks.
pub open spec fn strip_marks(s: Seq<char>) -> Seq<char>
    decreases s.len(),
{
    if s.len() == 0 {
        Seq::empty()
    } else {
        strip_marks(s.drop_last()) + (if is_mark_char(s.last()) {
            Seq::empty()
        } else {
            seq![s.last()]
        })
    }
}

/// Stripping marks distributes over concatenation.
pub proof fn lemma_strip_marks_concat(a: Seq<char>, b: Seq<char>)
    ensures
        strip_marks(a + b) == strip_marks(a) + strip_marks(b),
    decreases b.len(),
{
    if b.len() == 0 {
        assert(a + b =~= a);
        assert(strip_marks(a) + strip_marks(b) =~= strip_marks(a));
    } else {
        assert((a + b).drop_last() =~= a + b.drop_last());
        lemma_strip_marks_concat(a, b.drop_last());
        assert(strip_marks(a) + strip_marks(b) =~= strip_marks(a) + strip_marks(b.drop_last()) + (
        if is_mark_char(b.last()) {
            Seq::empty()
        } else {
            seq![b.last()]
        }));
    }
}

/// Text made only of marks strips to nothing; text without marks is kept.
proof fn lemma_strip_marks_all_or_none(s: Seq<char>)
    ensures
        (forall|i: int| 0 <= i < s.len() ==> is_mark_char(#[trigger] s[i])) ==> strip_marks(s)
            =~= Seq::<char>::empty(),
        (forall|i: int| 0 <= i < s.len() ==> !is_mark_char(#[trigger] s[i])) ==> strip_marks(s)
            =~= s,
    decreases s.len(),
{
    if s.len() > 0 {
        lemma_strip_marks_all_or_none(s.drop_last());
        assert(s.last() == s[s.len() - 1]);
        if forall|i: int| 0 <= i < s.len() ==> !is_mark_char(#[trigger] s[i]) {
            assert forall|i: int| 0 <= i < s.drop_last().len() implies !is_mark_char(
                #[trigger] s.drop_last()[i],
            ) by {
                assert(s.drop_last()[i] == s[i]);
            }
            assert(s =~= s.drop_last().push(s.last()));
        }
        if forall|i: int| 0 <= i < s.len() ==> is_mark_char(#[trigger] s[i]) {
            assert forall|i: int| 0 <= i < s.drop_last().len() implies is_mark_char(
                #[trigger] s.drop_last()[i],
            ) by {
                assert(s.drop_last()[i] == s[i]);
            }
        }
    }
}

/// Every character of `s` is a mark.
pub open spec fn all_marks(s: Seq<char>) -> bool {
    forall|i: int| 0 <= i < s.len() ==> is_mark_char(#[trigger] s[i])
}

/// The marks the reconstruction adds are marks.
proof fn lemma_added_marks()
    ensures
        forall|k: int| 0 <= k < NUM_NIKUD_CLASSES && k != MAT_LECT_CLASS ==> all_marks(
            #[trigger] nikud_class(k),
        ),
        all_marks(shin_class(0)),
        all_marks(shin_class(1)),
        all_marks(STRESS_CHAR@),
        all_marks(VOCAL_SHVA_CHAR@),
        all_marks(PREFIX_CHAR@),
{
    reveal_strlit("");
    reveal_strlit("\u{05bc}");
    reveal_strlit("\u{05b0}");
    reveal_strlit("\u{05b1}");
    reveal_strlit("\u{05b2}");
    reveal_strlit("\u{05b3}");
    reveal_strlit("\u{05b4}");
    reveal_strlit("\u{05b5}");
    reveal_strlit("\u{05b6}");
    reveal_strlit("\u{05b7}");
    reveal_strlit("\u{05b8}");
    reveal_strlit("\u{05b9}");
    reveal_strlit("\u{05ba}");
    reveal_strlit("\u{05bb}");
    reveal_strlit("\u{05bc}\u{05b0}");
    reveal_strlit("\u{05bc}\u{05b1}");
    reveal_strlit("\u{05bc}\u{05b2}");
    reveal_strlit("\u{05bc}\u{05b3}");
    reveal_strlit("\u{05bc}\u{05b4}");
    reveal_strlit("\u{05bc}\u{05b5}");
    reveal_strlit("\u{05bc}\u{05b6}");
    reveal_strlit("\u{05bc}\u{05b7}");
    reveal_strlit("\u{05bc}\u{05b8}");
    reveal_strlit("\u{05bc}\u{05b9}");
    reveal_strlit("\u{05bc}\u{05ba}");
    reveal_strlit("\u{05bc}\u{05bb}");
    reveal_strlit("\u{05c7}");
    reveal_strlit("\u{05bc}\u{05c7}");
    reveal_strlit("\u{05c1}");
    reveal_strlit("\u{05c2}");
    reveal_strlit("\u{05ab}");
    reveal_strlit("\u{05bd}");
    reveal_strlit("|");
}

/// The concatenation of mark-only texts is mark-only.
proof fn lemma_all_marks_concat(a: Seq<char>, b: Seq<char>)
    requires
        all_marks(a),
        all_marks(b),
    ensures
        all_marks(a + b),
{
    assert forall|i: int| 0 <= i < (a + b).len() implies is_mark_char(#[trigger] (a + b)[i]) by {
        if i < a.len() {
            assert((a + b)[i] == a[i]);
        } else {
            assert((a + b)[i] == b[i - a.len()]);
        }
    }
}

/// The marks after a letter.
pub open spec fn marks_of(c: char, p: Predictions, idx: int, mark: Option<Seq<char>>) -> Seq<char> {
    letter_with_marks(c, p, idx, mark).drop_first()
}

proof fn lemma_nikud_part_marks(c: char, p: Predictions, idx: int, mark: Option<Seq<char>>)
    requires
        idx < p.nikud@.len() ==> p.nikud@[idx] < NUM_NIKUD_CLASSES,
        mark matches Some(m) ==> all_marks(m),
    ensures
        all_marks(nikud_part(c, p, idx, mark)),
{
    lemma_added_marks();
}

proof fn lemma_marks_of_are_marks(c: char, p: Predictions, idx: int, mark: Option<Seq<char>>)
    requires
        (c == '\u{05E9}' && idx < p.shin@.len()) ==> p.shin@[idx] < 2,
        idx < p.nikud@.len() ==> p.nikud@[idx] < NUM_NIKUD_CLASSES,
        mark matches Some(m) ==> all_marks(m),
    ensures
        letter_with_marks(c, p, idx, mark) == seq![c] + marks_of(c, p, idx, mark),
        all_marks(marks_of(c, p, idx, mark)),
{
    let shin = shin_part(c, p, idx);
    let nikud = nikud_part(c, p, idx, mark);
    let st = flag_part(p.stress@, idx, STRESS_CHAR@);
    let vs = flag_part(p.vocal_shva@, idx, VOCAL_SHVA_CHAR@);
    let pf = flag_part(p.prefix@, idx, PREFIX_CHAR@);
    assert(all_marks(shin) && all_marks(st) && all_marks(vs) && all_marks(pf)) by {
        lemma_added_marks();
    }
    lemma_nikud_part_marks(c, p, idx, mark);
    lemma_all_marks_concat(shin, nikud);
    lemma_all_marks_concat(shin + nikud, st);
    lemma_all_marks_concat(shin + nikud + st, vs);
    lemma_all_marks_concat(shin + nikud + st + vs, pf);
    let tail = shin + nikud + st + vs + pf;
    assert(letter_with_marks(c, p, idx, mark) =~= seq![c] + tail);
    assert(marks_of(c, p, idx, mark) =~= tail);
}

/// A letter with its marks strips to the letter.
proof fn lemma_letter_with_marks_strips(c: char, p: Predictions, idx: int, mark: Option<Seq<char>>)
    requires
        !is_mark_char(c),
        (c == '\u{05E9}' && idx < p.shin@.len()) ==> p.shin@[idx] < 2,
        idx < p.nikud@.len() ==> p.nikud@[idx] < NUM_NIKUD_CLASSES,
        mark matches Some(m) ==> all_marks(m),
    ensures
        strip_marks(letter_with_marks(c, p, idx, mark)) == seq![c],
{
    lemma_marks_of_are_marks(c, p, idx, mark);
    let tail = marks_of(c, p, idx, mark);
    lemma_strip_marks_all_or_none(tail);
    lemma_strip_marks_all_or_none(seq![c]);
    lemma_strip_marks_concat(seq![c], tail);
    assert(seq![c] + Seq::<char>::empty() =~= seq![c]);
}

/// Tokens come in text order: a nonempty token starts no earlier than where
/// the previous ones ended, and an empty token lies in the text already
/// consumed (as the special tokens of the tokenizer do, at offset 0).
pub open spec fn tokens_in_order(offsets: Seq<(usize, usize)>) -> bool {
    forall|idx: int|
        0 <= idx < offsets.len() ==> {
            let prev = consumed_after(offsets, idx);
            &&& (#[trigger] offsets[idx]).1 > offsets[idx].0 ==> offsets[idx].0 >= prev
            &&& offsets[idx].1 <= offsets[idx].0 ==> offsets[idx].0 <= prev
        }
}

/// A range of a text without marks strips to itself.
proof fn lemma_range_strips(s: Seq<char>, a: int, b: int)
    requires
        0 <= a <= b <= s.len(),
        forall|i: int| 0 <= i < s.len() ==> !is_mark_char(#[trigger] s[i]),
    ensures
        strip_marks(s.subrange(a, b)) == s.subrange(a, b),
{
    let r = s.subrange(a, b);
    assert forall|i: int| 0 <= i < r.len() implies !is_mark_char(#[trigger] r[i]) by {
        assert(r[i] == s[a + i]);
    }
    lemma_strip_marks_all_or_none(r);
}

/// What a nonempty token contributes strips to the text from where the
/// previous tokens ended to where it ends.
proof fn lemma_token_piece_strips(
    s: Seq<char>,
    offsets: Seq<(usize, usize)>,
    p: Predictions,
    mark: Option<Seq<char>>,
    idx: int,
)
    requires
        0 <= idx < offsets.len(),
        token_ok(s, offsets, p, idx),
        offsets[idx].1 > offsets[idx].0 >= consumed_after(offsets, idx),
        byte_boundary(s, consumed_after(offsets, idx)),
        forall|i: int| 0 <= i < s.len() ==> !is_mark_char(#[trigger] s[i]),
        mark matches Some(m) ==> all_marks(m),
    ensures
        byte_boundary(s, offsets[idx].1 as int),
        position_of_byte(s, consumed_after(offsets, idx)) <= position_of_byte(
            s,
            offsets[idx].1 as int,
        ),
        strip_marks(token_piece(s, offsets, p, mark, idx)) == s.subrange(
            position_of_byte(s, consumed_after(offsets, idx)),
            position_of_byte(s, offsets[idx].1 as int),
        ),
{
    let prev = consumed_after(offsets, idx);
    let st = offsets[idx].0 as int;
    let en = offsets[idx].1 as int;
    let kp = position_of_byte(s, prev);
    let ks = position_of_byte(s, st);
    let ke = position_of_byte(s, en);
    lemma_position_of_byte(s, prev);
    lemma_position_of_byte(s, st);
    lemma_position_of_byte(s, en);
    lemma_position_order(s, st, en);
    if st > prev {
        lemma_position_order(s, prev, st);
    } else {
        assert(ks == kp);
    }
    let gap = if st > prev {
        between_bytes(s, prev, st)
    } else {
        Seq::<char>::empty()
    };
    assert(gap =~= s.subrange(kp, ks));
    let tok = between_bytes(s, st, en);
    let body = if tok.len() == 1 && is_hebrew_letter_spec(tok[0]) {
        letter_with_marks(tok[0], p, idx, mark)
    } else {
        tok
    };
    assert(token_piece(s, offsets, p, mark, idx) == gap + body);
    lemma_strip_marks_concat(gap, body);
    lemma_range_strips(s, kp, ks);
    lemma_range_strips(s, ks, ke);
    if tok.len() == 1 && is_hebrew_letter_spec(tok[0]) {
        assert(tok[0] == s[ks]);
        lemma_letter_with_marks_strips(tok[0], p, idx, mark);
        assert(seq![tok[0]] =~= tok);
    }
    assert(s.subrange(kp, ks) + s.subrange(ks, ke) =~= s.subrange(kp, ke));
}

proof fn lemma_pieces_strip(
    s: Seq<char>,
    offsets: Seq<(usize, usize)>,
    p: Predictions,
    mark: Option<Seq<char>>,
    n: int,
)
    requires
        0 <= n <= offsets.len(),
        reconstruct_ok(s, offsets, p),
        tokens_in_order(offsets),
        forall|i: int| 0 <= i < s.len() ==> !is_mark_char(#[trigger] s[i]),
        mark matches Some(m) ==> all_marks(m),
    ensures
        byte_boundary(s, consumed_after(offsets, n)),
        position_of_byte(s, consumed_after(offsets, n)) <= s.len(),
        strip_marks(pieces_upto(s, offsets, p, mark, n)) == s.take(
            position_of_byte(s, consumed_after(offsets, n)),
        ),
    decreases n,
{
    if n == 0 {
        assert(s.take(0) =~= Seq::<char>::empty());
        assert(byte_boundary(s, 0));
        assert(position_of_byte(s, 0) == 0) by {
            let k = position_of_byte(s, 0);
            if k > 0 {
                lemma_utf8_len_take_strict(s, 0, k);
            }
        }
        assert(strip_marks(Seq::<char>::empty()) =~= Seq::<char>::empty());
    } else {
        let idx = n - 1;
        lemma_pieces_strip(s, offsets, p, mark, idx);
        assert(token_ok(s, offsets, p, idx));
        let prev = consumed_after(offsets, idx);
        let kp = position_of_byte(s, prev);
        let before = pieces_upto(s, offsets, p, mark, idx);
        let piece = token_piece(s, offsets, p, mark, idx);
        lemma_strip_marks_concat(before, piece);
        if offsets[idx].1 > offsets[idx].0 {
            lemma_token_piece_strips(s, offsets, p, mark, idx);
            let ke = position_of_byte(s, offsets[idx].1 as int);
            assert(s.take(kp) + s.subrange(kp, ke) =~= s.take(ke));
        } else {
            assert(piece =~= Seq::<char>::empty());
            assert(strip_marks(before) + strip_marks(piece) =~= strip_marks(before));
        }
    }
}

/// Diacritization only adds marks: when the text has no marks, the tokens
/// come in text order and the mark for matres lectionis (if any) is made of
/// marks, removing the marks from the reconstruction gives back the text.
pub proof fn lemma_reconstruction_adds_only_marks(
    s: Seq<char>,
    offsets: Seq<(usize, usize)>,
    p: Predictions,
    mark: Option<Seq<char>>,
)
    requires
        reconstruct_ok(s, offsets, p),
        tokens_in_order(offsets),
        forall|i: int| 0 <= i < s.len() ==> !is_mark_char(#[trigger] s[i]),
        mark matches Some(m) ==> all_marks(m),
    ensures
        strip_marks(reconstruction(s, offsets, p, mark)) == s,
{
    let n = offsets.len() as int;
    lemma_pieces_strip(s, offsets, p, mark, n);
    let prev = consumed_after(offsets, n);
    let kp = position_of_byte(s, prev);
    lemma_position_of_byte(s, prev);
    let rest = s.subrange(kp, s.len() as int);
    lemma_strip_marks_concat(pieces_upto(s, offsets, p, mark, n), rest);
    assert forall|i: int| 0 <= i < rest.len() implies !is_mark_char(#[trigger] rest[i]) by {
        assert(rest[i] == s[kp + i]);
    }
    lemma_strip_marks_all_or_none(rest);
    assert(s.take(kp) + rest =~= s);
}

/// The nikud classes are the Hebrew points in Unicode order: class 0 adds
/// nothing, class 2 is dagesh (U+05BC), classes 3..=14 are the points
/// U+05B0..=U+05BB (shva, hataf segol, hataf patah, hataf qamats, hiriq,
/// tsere, segol, patah, qamats, holam, holam haser, qubuts), classes 15..=26
/// are dagesh followed by the point of class k - 12, class 27 is qamats
/// qatan (U+05C7) and class 28 dagesh with qamats qatan. The shin classes are
/// the shin dot (U+05C1) and the sin dot (U+05C2). Stress is marked by ole
/// (U+05AB), vocal shva by meteg (U+05BD) and a prefix boundary by `|`.
pub proof fn lemma_nikud_classes_are_points()
    ensures
        nikud_class(0).len() == 0,
        nikud_class(2) == seq!['\u{05bc}'],
        forall|k: int|
            3 <= k <= 14 ==> (#[trigger] nikud_class(k)).len() == 1 && nikud_class(k)[0] as u32
                == 0x5B0 + k - 3,
        forall|k: int|
            15 <= k <= 26 ==> #[trigger] nikud_class(k) == nikud_class(2) + nikud_class(k - 12),
        nikud_class(27) == seq!['\u{05c7}'],
        nikud_class(28) == nikud_class(2) + nikud_class(27),
        shin_class(0) == seq!['\u{05c1}'],
        shin_class(1) == seq!['\u{05c2}'],
        STRESS_CHAR@ == seq!['\u{05ab}'],
        VOCAL_SHVA_CHAR@ == seq!['\u{05bd}'],
        PREFIX_CHAR@ == seq!['|'],
{
    reveal_strlit("\u{05ab}");
    reveal_strlit("\u{05bd}");
    reveal_strlit("|");
    reveal_strlit("\u{05bc}");
    reveal_strlit("\u{05b0}");
    reveal_strlit("\u{05b1}");
    reveal_strlit("\u{05b2}");
    reveal_strlit("\u{05b3}");
    reveal_strlit("\u{05b4}");
    reveal_strlit("\u{05b5}");
    reveal_strlit("\u{05b6}");
    reveal_strlit("\u{05b7}");
    reveal_strlit("\u{05b8}");
    reveal_strlit("\u{05b9}");
    reveal_strlit("\u{05ba}");
    reveal_strlit("\u{05bb}");
    reveal_strlit("\u{05bc}\u{05b0}");
    reveal_strlit("\u{05bc}\u{05b1}");
    reveal_strlit("\u{05bc}\u{05b2}");
    reveal_strlit("\u{05bc}\u{05b3}");
    reveal_strlit("\u{05bc}\u{05b4}");
    reveal_strlit("\u{05bc}\u{05b5}");
    reveal_strlit("\u{05bc}\u{05b6}");
    reveal_strlit("\u{05bc}\u{05b7}");
    reveal_strlit("\u{05bc}\u{05b8}");
    reveal_strlit("\u{05bc}\u{05b9}");
    reveal_strlit("\u{05bc}\u{05ba}");
    reveal_strlit("\u{05bc}\u{05bb}");
    reveal_strlit("\u{05c7}");
    reveal_strlit("\u{05bc}\u{05c7}");
    reveal_strlit("\u{05c1}");
    reveal_strlit("\u{05c2}");
    reveal_strlit("");
    assert forall|k: int| 15 <= k <= 26 implies #[trigger] nikud_class(k) == nikud_class(2)
        + nikud_class(k - 12) by {
        assert(nikud_class(k) =~= nikud_class(2) + nikud_class(k - 12));
    }
    assert(nikud_class(28) =~= nikud_class(2) + nikud_class(27));
}

} // verus!
