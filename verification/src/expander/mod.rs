//! Text expander: dates, times, numbers, punctuation, geresh conventions and
//! dictionary words become spoken Hebrew (with nikud) before diacritization.

pub mod dates;
pub mod dictionary;
pub mod hebrew_chars;
pub mod numbers;
pub mod punctuation;
pub mod spans;
pub mod time;

use vstd::prelude::*;

use crate::expander::dates::{dates_spec, expand_dates};
use crate::expander::dictionary::Dictionary;
use crate::expander::hebrew_chars::{
    expand_geresh, geresh_from, geresh_spec, is_hebrew_letter_spec, letter_name_spec,
};
use crate::expander::numbers::{expand_numbers, numbers_spec};
use crate::expander::punctuation::{expand_punctuation, punctuation_spec};
use crate::expander::time::{expand_times, times_spec};
use crate::text::{
    byte_len, chars_to_string, is_white_space, is_whitespace, push_char, push_range, ranges_view,
    str_chars, sub_vec, token_ranges, utf8_len, ws_tokens,
};

verus! {

/// A range `start..end` in a text.
#[derive(Debug, Clone, Copy, PartialEq, Eq, Structural)]
pub struct TextSpan {
    pub start: usize,
    pub end: usize,
}

/// One word and what it was expanded to: `original_span` is its range of
/// character positions in the input and `original_text` the input's
/// characters there; `expanded_span` is the byte range of `expanded_text` in
/// the expanded text.
#[derive(Debug, Clone)]
pub struct ExpandedToken {
    pub original_span: TextSpan,
    pub expanded_span: TextSpan,
    pub original_text: String,
    pub expanded_text: String,
}

/// The expanded text and its words.
#[derive(Debug, Clone)]
pub struct ExpandedText {
    pub text: String,
    pub tokens: Vec<ExpandedToken>,
}

// ---------------------------------------------------------------------------
// Normalization
// ---------------------------------------------------------------------------

/// What one input character becomes: vertical whitespace and the Unicode
/// spaces become a space, zero-width characters vanish, dashes and bullets
/// become `-`, smart quotes ASCII quotes, the ellipsis three dots.
pub open spec fn normalize_piece(c: char) -> Seq<char> {
    let u = c as u32;
    if u == 0x0A || u == 0x0D || u == 0x0B || u == 0x0C {
        seq![' ']
    } else if u == 0xA0 || (0x2002 <= u <= 0x200A) || u == 0x202F || u == 0x205F || u == 0x3000 {
        seq![' ']
    } else if u == 0x200B || u == 0x200C || u == 0x200D || u == 0xFEFF {
        Seq::empty()
    } else if u == 0x2013 || u == 0x2014 {
        seq!['-']
    } else if u == 0x2018 || u == 0x2019 || u == 0x201A || u == 0x201B {
        seq!['\'']
    } else if u == 0x201C || u == 0x201D || u == 0x201E || u == 0x201F {
        seq!['"']
    } else if u == 0x2026 {
        seq!['.', '.', '.']
    } else if u == 0x2022 {
        seq!['-']
    } else {
        seq![c]
    }
}

/// The first `n` characters of `s`, each replaced by its `normalize_piece`.
pub open spec fn normalized_upto(s: Seq<char>, n: int) -> Seq<char>
    decreases n,
{
    if n <= 0 {
        Seq::empty()
    } else {
        normalized_upto(s, n - 1) + normalize_piece(s[n - 1])
    }
}

/// The first `n` characters of `s` with each space that follows a space
/// dropped.
pub open spec fn collapsed_upto(s: Seq<char>, n: int) -> Seq<char>
    decreases n,
{
    if n <= 0 {
        Seq::empty()
    } else if s[n - 1] == ' ' && n >= 2 && s[n - 2] == ' ' {
        collapsed_upto(s, n - 1)
    } else {
        collapsed_upto(s, n - 1).push(s[n - 1])
    }
}

/// Number of leading whitespace characters.
pub open spec fn leading_ws(s: Seq<char>) -> nat
    decreases s.len(),
{
    if s.len() > 0 && is_white_space(s[0]) {
        1 + leading_ws(s.drop_first())
    } else {
        0
    }
}

/// Number of trailing whitespace characters.
pub open spec fn trailing_ws(s: Seq<char>) -> nat
    decreases s.len(),
{
    if s.len() > 0 && is_white_space(s.last()) {
        1 + trailing_ws(s.drop_last())
    } else {
        0
    }
}

/// `s` without leading and trailing whitespace (`str::trim`).
pub open spec fn trim_ws(s: Seq<char>) -> Seq<char> {
    if leading_ws(s) == s.len() {
        Seq::empty()
    } else {
        s.subrange(leading_ws(s) as int, s.len() - trailing_ws(s))
    }
}

/// The normalized text: characters mapped, runs of spaces collapsed, then
/// trimmed.
pub open spec fn normalize_spec(text: Seq<char>) -> Seq<char> {
    let m = normalized_upto(text, text.len() as int);
    trim_ws(collapsed_upto(m, m.len() as int))
}

/// `v`, which runs alongside `s`, cut to the range of `s` that trimming
/// keeps.
pub open spec fn trimmed<A>(s: Seq<char>, v: Seq<A>) -> Seq<A> {
    if leading_ws(s) == s.len() {
        Seq::empty()
    } else {
        v.subrange(leading_ws(s) as int, s.len() - trailing_ws(s))
    }
}

/// The positions of `s` that the characters of `normalized_upto(s, n)` come
/// from.
pub open spec fn piece_origins(s: Seq<char>, n: int) -> Seq<int>
    decreases n,
{
    if n <= 0 {
        Seq::empty()
    } else {
        piece_origins(s, n - 1) + Seq::new(normalize_piece(s[n - 1]).len(), |k: int| n - 1)
    }
}

/// The positions of `m` whose characters `collapsed_upto(m, n)` keeps.
pub open spec fn kept_upto(m: Seq<char>, n: int) -> Seq<int>
    decreases n,
{
    if n <= 0 {
        Seq::empty()
    } else if m[n - 1] == ' ' && n >= 2 && m[n - 2] == ' ' {
        kept_upto(m, n - 1)
    } else {
        kept_upto(m, n - 1).push(n - 1)
    }
}

/// For each character of `normalize_spec(text)`, the position in `text` of
/// the character it comes from.
pub open spec fn norm_origins(text: Seq<char>) -> Seq<int> {
    let m = normalized_upto(text, text.len() as int);
    let o = piece_origins(text, text.len() as int);
    trimmed(
        collapsed_upto(m, m.len() as int),
        kept_upto(m, m.len() as int).map_values(|j: int| o[j]),
    )
}

/// Positions as integers.
pub open spec fn ints(v: Seq<usize>) -> Seq<int> {
    v.map_values(|x: usize| x as int)
}

/// The range of `s` that remains once leading and trailing whitespace is cut.
fn trim_range(s: &Vec<char>) -> (r: (usize, usize))
    ensures
        r.0 <= r.1 <= s@.len(),
        leading_ws(s@) <= s@.len(),
        leading_ws(s@) == s@.len() ==> r.0 == r.1,
        leading_ws(s@) < s@.len() ==> r.0 == leading_ws(s@) && r.1 == s@.len() - trailing_ws(s@),
{
    let len = s.len();
    let ghost v = s@;
    let mut a: usize = 0;
    assert(v.skip(0) =~= v);
    while a < len && is_whitespace(s[a])
        invariant
            a <= len == v.len(),
            v == s@,
            leading_ws(v) == a + leading_ws(v.skip(a as int)),
        decreases len - a,
    {
        assert(v.skip(a as int).drop_first() =~= v.skip(a + 1));
        a = a + 1;
    }
    if a == len {
        assert(v.skip(a as int) =~= Seq::<char>::empty());
        return (len, len);
    }
    assert(v.skip(a as int)[0] == v[a as int]);
    assert(leading_ws(v) == a);
    let mut b: usize = len;
    assert(v.take(len as int) =~= v);
    while b > a + 1 && is_whitespace(s[b - 1])
        invariant
            a < b <= len == v.len(),
            v == s@,
            !is_white_space(v[a as int]),
            trailing_ws(v) == (len - b) + trailing_ws(v.take(b as int)),
        decreases b,
    {
        assert(v.take(b as int).drop_last() =~= v.take(b - 1));
        b = b - 1;
    }
    assert(v.take(b as int).last() == v[b - 1]);
    assert(trailing_ws(v.take(b as int)) == 0);
    (a, b)
}

/// Normalize unicode characters: replace newlines with spaces, normalize
/// various dashes, quotes, and whitespace to ASCII equivalents, collapse runs
/// of spaces and trim. Also gives, for each character of the result, the
/// position in `text` of the character it comes from.
fn normalize_unicode(text: &str) -> (r: (String, Vec<usize>))
    ensures
        r.0@ == normalize_spec(text@),
        ints(r.1@) == norm_origins(text@),
{
    let chars = str_chars(text);
    let len = chars.len();
    let mut s: Vec<char> = Vec::new();
    let mut so: Vec<usize> = Vec::new();
    let mut i: usize = 0;
    while i < len
        invariant
            i <= len == chars@.len(),
            chars@ == text@,
            s@ == normalized_upto(chars@, i as int),
            ints(so@) == piece_origins(chars@, i as int),
            so@.len() == s@.len(),
        decreases len - i,
    {
        let c = chars[i];
        let u = c as u32;
        let ghost old_so = so@;
        if u == 0x0A || u == 0x0D || u == 0x0B || u == 0x0C {
            // Newlines / vertical whitespace → space
            s.push(' ');
            so.push(i);
        } else if u == 0xA0 || (0x2002 <= u && u <= 0x200A) || u == 0x202F || u == 0x205F || u
            == 0x3000 {
            // Non-breaking space, thin space, hair space, em space, en space, etc.
            s.push(' ');
            so.push(i);
        } else if u == 0x200B || u == 0x200C || u == 0x200D || u == 0xFEFF {
            // Zero-width spaces — dropped
        } else if u == 0x2013 || u == 0x2014 {
            // Em dash, en dash → hyphen
            s.push('-');
            so.push(i);
        } else if u == 0x2018 || u == 0x2019 || u == 0x201A || u == 0x201B {
            // Smart quotes → ASCII quotes
            s.push('\'');
            so.push(i);
        } else if u == 0x201C || u == 0x201D || u == 0x201E || u == 0x201F {
            s.push('"');
            so.push(i);
        } else if u == 0x2026 {
            // Ellipsis → three dots
            s.push('.');
            s.push('.');
            s.push('.');
            so.push(i);
            so.push(i);
            so.push(i);
        } else if u == 0x2022 {
            // Bullet → hyphen
            s.push('-');
            so.push(i);
        } else {
            s.push(c);
            so.push(i);
        }
        assert(s@ =~= normalized_upto(chars@, i as int) + normalize_piece(c));
        assert(ints(so@) =~= piece_origins(chars@, i as int) + Seq::new(
            normalize_piece(c).len(),
            |k: int| i as int,
        ));
        i = i + 1;
    }
    let ghost o = piece_origins(chars@, len as int);
    // Collapse multiple spaces into one.
    let slen = s.len();
    let mut result: Vec<char> = Vec::new();
    let mut ro: Vec<usize> = Vec::new();
    let mut prev_space = false;
    let mut j: usize = 0;
    while j < slen
        invariant
            j <= slen == s@.len() == so@.len(),
            ints(so@) == o,
            result@ == collapsed_upto(s@, j as int),
            ints(ro@) == kept_upto(s@, j as int).map_values(|k: int| o[k]),
            result@.len() == ro@.len(),
            prev_space == (j > 0 && s@[j - 1] == ' '),
        decreases slen - j,
    {
        let c = s[j];
        let ghost old_ro = ro@;
        assert(o[j as int] == so@[j as int] as int);
        assert(kept_upto(s@, j + 1) == if s@[j as int] == ' ' && j + 1 >= 2 && s@[j - 1] == ' ' {
            kept_upto(s@, j as int)
        } else {
            kept_upto(s@, j as int).push(j as int)
        });
        if c == ' ' {
            if !prev_space {
                result.push(' ');
                ro.push(so[j]);
            }
            prev_space = true;
        } else {
            prev_space = false;
            result.push(c);
            ro.push(so[j]);
        }
        proof {
            let ks = kept_upto(s@, j as int);
            if s@[j as int] == ' ' && j + 1 >= 2 && s@[j - 1] == ' ' {
                assert(ro@ == old_ro);
            } else {
                assert(ro@ == old_ro.push(so@[j as int]));
                assert(ints(ro@) =~= ints(old_ro).push(o[j as int]));
                assert(ks.push(j as int).map_values(|k: int| o[k]) =~= ks.map_values(
                    |k: int| o[k],
                ).push(o[j as int]));
            }
        }
        assert(ints(ro@) =~= kept_upto(s@, j + 1).map_values(|k: int| o[k]));
        j = j + 1;
    }
    let (a, b) = trim_range(&result);
    let mut out = String::new();
    push_range(&mut out, result.as_slice(), a, b);
    assert(out@ =~= result@.subrange(a as int, b as int));
    let origins = sub_vec(&ro, a, b);
    proof {
        if leading_ws(result@) == result@.len() {
            assert(out@ =~= trim_ws(result@));
            assert(ints(origins@) =~= trimmed(result@, ints(ro@)));
        } else {
            assert(out@ =~= trim_ws(result@));
            assert(ints(origins@) =~= trimmed(result@, ints(ro@)));
        }
    }
    (out, origins)
}

// ---------------------------------------------------------------------------
// Tokens and the expansion pipeline
// ---------------------------------------------------------------------------

/// What a single word expands to: its dictionary entry if it has one,
/// otherwise the word after punctuation, geresh, dates, times and numbers.
pub open spec fn pipeline_spec(dict: Map<Seq<char>, Seq<char>>, w: Seq<char>) -> Seq<char> {
    if dict.contains_key(w) {
        dict[w]
    } else {
        numbers_spec(times_spec(dates_spec(geresh_spec(punctuation_spec(w)))))
    }
}

fn expand_token_pipeline(dict: &Dictionary, text: &str) -> (r: String)
    ensures
        r@ == pipeline_spec(dict@, text@),
{
    // Dictionary lookup first: a word with an entry is replaced by it.
    if let Some(ipa) = dict.get(text) {
        return ipa;
    }
    let mut result = expand_punctuation(text);
    result = expand_geresh(result.as_str());
    result = expand_dates(result.as_str());
    result = expand_times(result.as_str());
    result = expand_numbers(result.as_str());
    result
}

/// The whitespace-separated words of `text` with their character ranges.
fn tokenize_with_spans(text: &str) -> (r: Vec<(TextSpan, String)>)
    ensures
        r@.len() == ws_tokens(text@).len(),
        forall|i: int|
            0 <= i < r@.len() ==> {
                let t = #[trigger] ws_tokens(text@)[i];
                &&& r@[i].0.start == t.0
                &&& r@[i].0.end == t.1
                &&& r@[i].1@ == text@.subrange(t.0, t.1)
            },
{
    let chars = str_chars(text);
    let toks = token_ranges(&chars);
    let ghost tv = ranges_view(toks@);
    proof {
        crate::text::lemma_ws_tokens_facts(chars@);
    }
    let mut out: Vec<(TextSpan, String)> = Vec::new();
    let mut i: usize = 0;
    while i < toks.len()
        invariant
            i <= toks@.len(),
            tv == ranges_view(toks@),
            tv == ws_tokens(chars@),
            chars@ == text@,
            forall|j: int| 0 <= j < tv.len() ==> 0 <= #[trigger] tv[j].0 < tv[j].1 <= chars@.len(),
            out@.len() == i,
            forall|j: int|
                0 <= j < i ==> {
                    let t = #[trigger] tv[j];
                    &&& out@[j].0.start == t.0
                    &&& out@[j].0.end == t.1
                    &&& out@[j].1@ == chars@.subrange(t.0, t.1)
                },
        decreases toks@.len() - i,
    {
        let (a, b) = toks[i];
        assert(tv[i as int] == (a as int, b as int));
        let word = chars_to_string(&chars.as_slice()[a..b]);
        out.push((TextSpan { start: a, end: b }, word));
        i = i + 1;
    }
    out
}

/// One token record: character range in the input, byte range in the
/// expanded text, the input's characters in that range, expanded word.
pub type TokenRecord = (int, int, int, int, Seq<char>, Seq<char>);

/// The expanded text and token records for the first `n` words of `norm`
/// (word ranges `toks`), the normalized form of `src` whose characters come
/// from the positions `org` of `src`: each word's expansion, when not empty,
/// is appended after a space (none before the first), and its record gives
/// the range of `src` from the origin of its first character to just past the
/// origin of its last.
pub open spec fn assemble(
    dict: Map<Seq<char>, Seq<char>>,
    src: Seq<char>,
    norm: Seq<char>,
    org: Seq<int>,
    toks: Seq<(int, int)>,
    n: int,
) -> (Seq<char>, Seq<TokenRecord>)
    decreases n,
{
    if n <= 0 {
        (Seq::empty(), Seq::empty())
    } else {
        let prev = assemble(dict, src, norm, org, toks, n - 1);
        let t = toks[n - 1];
        let e = pipeline_spec(dict, norm.subrange(t.0, t.1));
        if e.len() == 0 {
            prev
        } else {
            let before = if prev.0.len() == 0 {
                prev.0
            } else {
                prev.0.push(' ')
            };
            let text = before + e;
            let o0 = org[t.0];
            let o1 = org[t.1 - 1] + 1;
            (
                text,
                prev.1.push(
                    (
                        o0,
                        o1,
                        utf8_len(before) as int,
                        utf8_len(text) as int,
                        src.subrange(o0, o1),
                        e,
                    ),
                ),
            )
        }
    }
}

/// The expanded text and token records of `text`.
pub open spec fn expansion_spec(dict: Map<Seq<char>, Seq<char>>, text: Seq<char>) -> (
    Seq<char>,
    Seq<TokenRecord>,
) {
    let norm = normalize_spec(text);
    assemble(dict, text, norm, norm_origins(text), ws_tokens(norm), ws_tokens(norm).len() as int)
}

/// A token as a record.
pub open spec fn token_record(t: ExpandedToken) -> TokenRecord {
    (
        t.original_span.start as int,
        t.original_span.end as int,
        t.expanded_span.start as int,
        t.expanded_span.end as int,
        t.original_text@,
        t.expanded_text@,
    )
}

/// Expand `text` word by word with the words of `dict`, keeping track of
/// where each word came from in `text` and where it went in the expanded text.
#[verifier::rlimit(40)]
pub fn expand_text_with_spans_in(dict: &Dictionary, text: &str) -> (r: ExpandedText)
    ensures
        r.text@ == expansion_spec(dict@, text@).0,
        r.tokens@.map_values(|t: ExpandedToken| token_record(t)) == expansion_spec(
            dict@,
            text@,
        ).1,
{
    let (normalized_input, origins) = normalize_unicode(text);
    let text_chars = str_chars(text);
    let ghost norm = normalized_input@;
    let ghost org = norm_origins(text@);
    proof {
        crate::expander::spans::lemma_norm_origins(text@);
        crate::expander::spans::lemma_valid_tokens(norm);
    }
    let words = tokenize_with_spans(normalized_input.as_str());
    let ghost toks = ws_tokens(norm);
    assert(text_chars@.len() == text_chars.len());
    let mut expanded = String::new();
    let mut tokens: Vec<ExpandedToken> = Vec::new();
    let mut i: usize = 0;
    while i < words.len()
        invariant
            i <= words@.len() == toks.len(),
            norm == normalized_input@,
            org == ints(origins@),
            text_chars@ == text@,
            text@.len() <= usize::MAX,
            crate::expander::spans::origins_fit(text@, norm, org),
            toks == ws_tokens(norm),
            crate::expander::spans::valid_ranges(norm, toks),
            forall|j: int|
                0 <= j < words@.len() ==> {
                    let t = #[trigger] toks[j];
                    &&& words@[j].0.start == t.0
                    &&& words@[j].0.end == t.1
                    &&& words@[j].1@ == norm.subrange(t.0, t.1)
                },
            expanded@ == assemble(dict@, text@, norm, org, toks, i as int).0,
            tokens@.map_values(|t: ExpandedToken| token_record(t)) == assemble(
                dict@,
                text@,
                norm,
                org,
                toks,
                i as int,
            ).1,
        decreases words@.len() - i,
    {
        let a = words[i].0.start;
        let b = words[i].0.end;
        let token_text = words[i].1.clone();
        let expanded_text = expand_token_pipeline(dict, token_text.as_str());
        proof {
            crate::expander::spans::lemma_assemble_step(dict@, text@, norm, org, toks, i + 1);
        }
        if expanded_text.as_str().is_empty() {
            i = i + 1;
            continue ;
        }
        assert(toks[i as int].0 == a && toks[i as int].1 == b);
        proof {
            crate::expander::spans::lemma_word_origin(text@, norm, org, toks, i as int);
            assert(org[a as int] == origins@[a as int] as int);
            assert(org[b - 1] == origins@[b - 1] as int);
        }
        let ostart = origins[a];
        let oend = origins[b - 1] + 1;
        let original_text = chars_to_string(&text_chars.as_slice()[ostart..oend]);
        let ghost old_t = tokens@;
        if !expanded.as_str().is_empty() {
            push_char(&mut expanded, ' ');
        }
        let start = byte_len(expanded.as_str());
        expanded.append(expanded_text.as_str());
        let end = byte_len(expanded.as_str());
        tokens.push(
            ExpandedToken {
                original_span: TextSpan { start: ostart, end: oend },
                expanded_span: TextSpan { start, end },
                original_text,
                expanded_text,
            },
        );
        assert(tokens@.map_values(|t: ExpandedToken| token_record(t)) =~= old_t.map_values(
            |t: ExpandedToken| token_record(t),
        ).push(token_record(tokens@.last())));
        i = i + 1;
    }
    ExpandedText { text: expanded, tokens }
}

/// Expand `text` word by word with the built-in dictionary, keeping track of
/// where each word of the normalized input went in the expanded text.
pub fn expand_text_with_spans(text: &str) -> (r: ExpandedText)
    ensures
        r.text@ == expansion_spec(dictionary::builtin_map(), text@).0,
        r.tokens@.map_values(|t: ExpandedToken| token_record(t)) == expansion_spec(
            dictionary::builtin_map(),
            text@,
        ).1,
{
    expand_text_with_spans_in(&Dictionary::builtin(), text)
}

/// Expand dates, times, and numbers in `text` to Hebrew words (with nikud).
/// This should run before phonemization.
pub fn expand_text(text: &str) -> (r: String)
    ensures
        r@ == expansion_spec(dictionary::builtin_map(), text@).0,
{
    expand_text_with_spans(text).text
}

/// The geresh conventions are part of the pipeline: a word without a
/// dictionary entry made of two Hebrew letters around a gershayim (״) is read
/// as the two letters' names, and a letter followed by a geresh (׳) as the
/// letter's name; only then do dates, times and numbers follow.
pub proof fn lemma_pipeline_reads_geresh(dict: Map<Seq<char>, Seq<char>>, a: char, b: char)
    requires
        is_hebrew_letter_spec(a),
        is_hebrew_letter_spec(b),
    ensures
        !dict.contains_key(seq![a, '\u{05F4}', b]) ==> pipeline_spec(dict, seq![a, '\u{05F4}', b])
            == numbers_spec(
            times_spec(
                dates_spec(letter_name_spec(a)->0 + seq![' '] + letter_name_spec(b)->0),
            ),
        ),
        !dict.contains_key(seq![a, '\u{05F3}']) ==> pipeline_spec(dict, seq![a, '\u{05F3}'])
            == numbers_spec(times_spec(dates_spec(letter_name_spec(a)->0))),
{
    crate::expander::hebrew_chars::lemma_letter_names(a);
    crate::expander::hebrew_chars::lemma_letter_names(b);
    let w2 = seq![a, '\u{05F4}', b];
    let w1 = seq![a, '\u{05F3}'];
    crate::expander::punctuation::lemma_punctuation_identity(w2);
    crate::expander::punctuation::lemma_punctuation_identity(w1);
    assert(geresh_spec(w2) == letter_name_spec(a)->0 + seq![' '] + letter_name_spec(b)->0) by {
        assert(geresh_from(w2, 3) == Seq::<char>::empty());
        assert(letter_name_spec(a)->0 + seq![' '] + letter_name_spec(b)->0 + Seq::<char>::empty()
            =~= letter_name_spec(a)->0 + seq![' '] + letter_name_spec(b)->0);
    }
    assert(geresh_spec(w1) == letter_name_spec(a)->0) by {
        assert(geresh_from(w1, 2) == Seq::<char>::empty());
        assert(letter_name_spec(a)->0 + Seq::<char>::empty() =~= letter_name_spec(a)->0);
    }
}

} // verus!
