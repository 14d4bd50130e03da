//! Laws of normalization and of the token records of
//! `expand_text_with_spans`: normalizing is idempotent and keeps track of
//! where each character came from; each original span locates its word among
//! the characters of the input,
//! each expanded span locates its expansion in the UTF-8 bytes of the
//! expanded text, and the expanded text is the expanded words separated by
//! single spaces.

use vstd::prelude::*;

use crate::expander::{
    assemble, collapsed_upto, expansion_spec, kept_upto, leading_ws, norm_origins, normalize_piece,
    normalize_spec, normalized_upto, piece_origins, trailing_ws, TokenRecord,
};
use crate::text::{
    is_white_space, join, lemma_encode_middle, lemma_utf8_len_concat, lemma_utf8_len_is_encoding_len,
    lemma_utf8_len_push, lemma_ws_tokens_facts, utf8_len, ws_tokens,
};
use vstd::utf8::encode_utf8;

verus! {

// ---------------------------------------------------------------------------
// Where the characters of the normalized text come from
// ---------------------------------------------------------------------------

/// `o` gives, for each character of `norm`, a position of `src`: in order,
/// and shared by two characters only when both are dots (of one ellipsis).
#[verifier::opaque]
pub open spec fn origins_fit(src: Seq<char>, norm: Seq<char>, o: Seq<int>) -> bool {
    &&& o.len() == norm.len()
    &&& forall|k: int| 0 <= k < o.len() ==> 0 <= #[trigger] o[k] < src.len()
    &&& forall|k: int, l: int| 0 <= k < l < o.len() ==> #[trigger] o[k] <= #[trigger] o[l]
    &&& forall|k: int, l: int|
        0 <= k < l < o.len() && #[trigger] o[k] == #[trigger] o[l] ==> norm[k] == '.' && norm[l]
            == '.'
}

/// The characters of `normalized_upto(s, n)` come from positions below `n`,
/// in order, and two share a position only when both are dots.
pub proof fn lemma_piece_origins(s: Seq<char>, n: int)
    requires
        0 <= n <= s.len(),
    ensures
        origins_fit(s.take(n), normalized_upto(s, n), piece_origins(s, n)),
    decreases n,
{
    reveal(origins_fit);
    if n > 0 {
        lemma_piece_origins(s, n - 1);
        let m = normalized_upto(s, n - 1);
        let o = piece_origins(s, n - 1);
        let p = normalize_piece(s[n - 1]);
        let q = Seq::new(p.len(), |k: int| n - 1);
        let m2 = normalized_upto(s, n);
        let o2 = piece_origins(s, n);
        assert(m2 == m + p);
        assert(o2 == o + q);
        assert(p.len() >= 2 ==> p == seq!['.', '.', '.']);
        assert forall|k: int| 0 <= k < o2.len() implies 0 <= #[trigger] o2[k] < s.take(n).len() by {
            if k < o.len() {
                assert(o2[k] == o[k]);
            }
        }
        assert forall|k: int, l: int| 0 <= k < l < o2.len() implies #[trigger] o2[k]
            <= #[trigger] o2[l] by {
            if l < o.len() {
                assert(o2[k] == o[k] && o2[l] == o[l]);
            } else if k < o.len() {
                assert(o2[k] == o[k]);
            }
        }
        assert forall|k: int, l: int|
            0 <= k < l < o2.len() && #[trigger] o2[k] == #[trigger] o2[l] implies m2[k] == '.'
            && m2[l] == '.' by {
            if l < o.len() {
                assert(o2[k] == o[k] && o2[l] == o[l]);
                assert(m2[k] == m[k] && m2[l] == m[l]);
            } else if k < o.len() {
                assert(o2[k] == o[k]);
            } else {
                assert(m2[k] == p[k - m.len()] && m2[l] == p[l - m.len()]);
            }
        }
    }
}

/// The collapse of space runs keeps the characters at the positions
/// `kept_upto(m, n)`, which increase and lie below `n`.
pub proof fn lemma_kept(m: Seq<char>, n: int)
    requires
        0 <= n <= m.len(),
    ensures
        collapsed_upto(m, n) == kept_upto(m, n).map_values(|j: int| m[j]),
        forall|i: int| 0 <= i < kept_upto(m, n).len() ==> 0 <= #[trigger] kept_upto(m, n)[i] < n,
        forall|i: int, l: int|
            0 <= i < l < kept_upto(m, n).len() ==> #[trigger] kept_upto(m, n)[i]
                < #[trigger] kept_upto(m, n)[l],
    decreases n,
{
    if n > 0 {
        lemma_kept(m, n - 1);
        let ks = kept_upto(m, n - 1);
        if !(m[n - 1] == ' ' && n >= 2 && m[n - 2] == ' ') {
            assert(ks.push(n - 1).map_values(|j: int| m[j]) =~= ks.map_values(|j: int| m[j]).push(
                m[n - 1],
            ));
            assert forall|i: int, l: int|
                0 <= i < l < ks.push(n - 1).len() implies #[trigger] ks.push(n - 1)[i]
                < #[trigger] ks.push(n - 1)[l] by {
                if l < ks.len() {
                    assert(ks.push(n - 1)[l] == ks[l]);
                }
            }
        }
    }
}

/// Facts about the leading whitespace of `s`.
proof fn lemma_leading_ws(s: Seq<char>)
    ensures
        leading_ws(s) <= s.len(),
        forall|k: int| 0 <= k < leading_ws(s) ==> is_white_space(#[trigger] s[k]),
        leading_ws(s) < s.len() ==> !is_white_space(s[leading_ws(s) as int]),
    decreases s.len(),
{
    if s.len() > 0 && is_white_space(s[0]) {
        let t = s.drop_first();
        lemma_leading_ws(t);
        assert forall|k: int| 0 <= k < leading_ws(s) implies is_white_space(#[trigger] s[k]) by {
            if k > 0 {
                assert(s[k] == t[k - 1]);
            }
        }
        if leading_ws(s) < s.len() {
            assert(s[leading_ws(s) as int] == t[leading_ws(t) as int]);
        }
    }
}

/// Facts about the trailing whitespace of `s`.
proof fn lemma_trailing_ws(s: Seq<char>)
    ensures
        trailing_ws(s) <= s.len(),
        forall|k: int| s.len() - trailing_ws(s) <= k < s.len() ==> is_white_space(#[trigger] s[k]),
        trailing_ws(s) < s.len() ==> !is_white_space(s[s.len() - trailing_ws(s) - 1]),
    decreases s.len(),
{
    if s.len() > 0 && is_white_space(s.last()) {
        let t = s.drop_last();
        lemma_trailing_ws(t);
        assert forall|k: int| s.len() - trailing_ws(s) <= k < s.len() implies is_white_space(
            #[trigger] s[k],
        ) by {
            if k < s.len() - 1 {
                assert(s[k] == t[k]);
            }
        }
        if trailing_ws(s) < s.len() {
            assert(s[s.len() - trailing_ws(s) - 1] == t[t.len() - trailing_ws(t) - 1]);
        }
    }
}

/// Normalization: each character of the normalized text comes from a
/// position of the input, in order, and two characters come from the same
/// position only when both are dots (an ellipsis read as three dots).
pub proof fn lemma_norm_origins(text: Seq<char>)
    ensures
        origins_fit(text, normalize_spec(text), norm_origins(text)),
{
    reveal(origins_fit);
    let len = text.len() as int;
    let m = normalized_upto(text, len);
    let o = piece_origins(text, len);
    lemma_piece_origins(text, len);
    assert(text.take(len) =~= text);
    let ks = kept_upto(m, m.len() as int);
    lemma_kept(m, m.len() as int);
    let c = collapsed_upto(m, m.len() as int);
    let co = ks.map_values(|j: int| o[j]);
    assert forall|k: int| 0 <= k < co.len() implies 0 <= #[trigger] co[k] < text.len() by {
        assert(0 <= ks[k] < m.len());
    }
    assert forall|k: int, l: int| 0 <= k < l < co.len() implies #[trigger] co[k]
        <= #[trigger] co[l] by {
        assert(ks[k] < ks[l]);
        assert(0 <= ks[k] && ks[l] < o.len());
    }
    assert forall|k: int, l: int|
        0 <= k < l < co.len() && #[trigger] co[k] == #[trigger] co[l] implies c[k] == '.' && c[l]
        == '.' by {
        assert(ks[k] < ks[l]);
        assert(0 <= ks[k] && ks[l] < o.len());
        assert(c[k] == m[ks[k]] && c[l] == m[ks[l]]);
    }
    assert(origins_fit(text, c, co));
    lemma_leading_ws(c);
    lemma_trailing_ws(c);
    if leading_ws(c) < c.len() {
        let x = leading_ws(c) as int;
        let y = c.len() - trailing_ws(c);
        assert(x < y);
        let nm = c.subrange(x, y);
        let no = co.subrange(x, y);
        assert(normalize_spec(text) == nm);
        assert(norm_origins(text) == no);
        assert forall|k: int| 0 <= k < no.len() implies 0 <= #[trigger] no[k] < text.len() by {
            assert(no[k] == co[k + x]);
        }
        assert forall|k: int, l: int| 0 <= k < l < no.len() implies #[trigger] no[k]
            <= #[trigger] no[l] by {
            assert(no[k] == co[k + x] && no[l] == co[l + x]);
        }
        assert forall|k: int, l: int|
            0 <= k < l < no.len() && #[trigger] no[k] == #[trigger] no[l] implies nm[k] == '.'
            && nm[l] == '.' by {
            assert(no[k] == co[k + x] && no[l] == co[l + x]);
            assert(nm[k] == c[k + x] && nm[l] == c[l + x]);
        }
    } else {
        assert(normalize_spec(text) =~= Seq::<char>::empty());
        assert(norm_origins(text) =~= Seq::<int>::empty());
    }
}

// ---------------------------------------------------------------------------
// Normalizing twice
// ---------------------------------------------------------------------------

/// A character that normalization leaves as it is.
pub open spec fn fixed_char(c: char) -> bool {
    normalize_piece(c) == seq![c]
}

/// No space directly follows a space.
pub open spec fn no_double_space(s: Seq<char>) -> bool {
    forall|k: int| 0 <= k < s.len() - 1 && #[trigger] s[k] == ' ' ==> s[k + 1] != ' '
}

/// Every character that normalization produces is left as it is by it.
proof fn lemma_normalized_fixed(s: Seq<char>, n: int)
    requires
        0 <= n <= s.len(),
    ensures
        forall|k: int|
            0 <= k < normalized_upto(s, n).len() ==> fixed_char(#[trigger] normalized_upto(s, n)[k]),
    decreases n,
{
    if n > 0 {
        lemma_normalized_fixed(s, n - 1);
        let m = normalized_upto(s, n - 1);
        let p = normalize_piece(s[n - 1]);
        assert(normalized_upto(s, n) == m + p);
        assert(forall|k: int| 0 <= k < p.len() ==> fixed_char(#[trigger] p[k]));
        assert forall|k: int| 0 <= k < (m + p).len() implies fixed_char(#[trigger] (m + p)[k]) by {
            if k < m.len() {
                assert((m + p)[k] == m[k]);
            } else {
                assert((m + p)[k] == p[k - m.len()]);
            }
        }
    }
}

/// Normalizing characters that it leaves as they are changes nothing.
proof fn lemma_normalized_identity(s: Seq<char>, n: int)
    requires
        0 <= n <= s.len(),
        forall|k: int| 0 <= k < s.len() ==> fixed_char(#[trigger] s[k]),
    ensures
        normalized_upto(s, n) == s.take(n),
    decreases n,
{
    if n > 0 {
        lemma_normalized_identity(s, n - 1);
        assert(fixed_char(s[n - 1]));
        assert(s.take(n) =~= s.take(n - 1) + seq![s[n - 1]]);
    } else {
        assert(s.take(0) =~= Seq::<char>::empty());
    }
}

/// The collapse leaves no space after a space, and its last character is
/// the last one read.
proof fn lemma_collapsed_single_spaces(m: Seq<char>, n: int)
    requires
        0 <= n <= m.len(),
    ensures
        no_double_space(collapsed_upto(m, n)),
        n >= 1 ==> collapsed_upto(m, n).len() > 0 && collapsed_upto(m, n).last() == m[n - 1],
    decreases n,
{
    if n > 0 {
        lemma_collapsed_single_spaces(m, n - 1);
        let c = collapsed_upto(m, n - 1);
        if !(m[n - 1] == ' ' && n >= 2 && m[n - 2] == ' ') {
            let c2 = c.push(m[n - 1]);
            assert forall|k: int| 0 <= k < c2.len() - 1 && #[trigger] c2[k] == ' ' implies c2[k + 1]
                != ' ' by {
                if k + 1 < c.len() {
                    assert(c2[k] == c[k] && c2[k + 1] == c[k + 1]);
                } else {
                    assert(c2[k] == c.last());
                }
            }
        }
    }
}

/// The collapse changes nothing where no space follows a space.
proof fn lemma_collapsed_identity(s: Seq<char>, n: int)
    requires
        0 <= n <= s.len(),
        no_double_space(s),
    ensures
        collapsed_upto(s, n) == s.take(n),
    decreases n,
{
    if n > 0 {
        lemma_collapsed_identity(s, n - 1);
        if n >= 2 && s[n - 2] == ' ' {
            assert(s[n - 1] != ' ');
        }
        assert(s.take(n) =~= s.take(n - 1).push(s[n - 1]));
    } else {
        assert(s.take(0) =~= Seq::<char>::empty());
    }
}

/// Normalization is idempotent: normalizing a normalized text changes
/// nothing.
pub proof fn lemma_normalize_idempotent(text: Seq<char>)
    ensures
        normalize_spec(normalize_spec(text)) == normalize_spec(text),
{
    let len = text.len() as int;
    let m = normalized_upto(text, len);
    lemma_normalized_fixed(text, len);
    lemma_kept(m, m.len() as int);
    let ks = kept_upto(m, m.len() as int);
    let c = collapsed_upto(m, m.len() as int);
    assert forall|k: int| 0 <= k < c.len() implies fixed_char(#[trigger] c[k]) by {
        assert(c[k] == m[ks[k]]);
    }
    lemma_collapsed_single_spaces(m, m.len() as int);
    lemma_leading_ws(c);
    lemma_trailing_ws(c);
    let nm = normalize_spec(text);
    if leading_ws(c) < c.len() {
        let x = leading_ws(c) as int;
        let y = c.len() - trailing_ws(c);
        assert(nm == c.subrange(x, y));
        assert forall|k: int| 0 <= k < nm.len() implies fixed_char(#[trigger] nm[k]) by {
            assert(nm[k] == c[k + x]);
        }
        assert forall|k: int| 0 <= k < nm.len() - 1 && #[trigger] nm[k] == ' ' implies nm[k + 1]
            != ' ' by {
            assert(nm[k] == c[k + x] && nm[k + 1] == c[k + 1 + x]);
        }
        assert(nm[0] == c[x]);
        assert(nm.last() == c[y - 1]);
        lemma_normalized_identity(nm, nm.len() as int);
        assert(nm.take(nm.len() as int) =~= nm);
        lemma_collapsed_identity(nm, nm.len() as int);
        assert(leading_ws(nm) == 0);
        assert(trailing_ws(nm) == 0);
        assert(nm.subrange(0, nm.len() as int) =~= nm);
    } else {
        assert(nm =~= Seq::<char>::empty());
        assert(normalized_upto(nm, 0) =~= Seq::<char>::empty());
    }
}

/// What normalization makes of each special character: vertical whitespace
/// and the Unicode spaces become a space, zero-width characters vanish, en
/// and em dashes and the bullet become `-`, single smart quotes `'`, double
/// smart quotes `"`, the ellipsis three dots; every other character stays.
pub proof fn lemma_normalize_pieces(c: char)
    ensures
        ((c as u32) == 0x0A || (c as u32) == 0x0D || (c as u32) == 0x0B || (c as u32) == 0x0C
            || (c as u32) == 0xA0 || (0x2002 <= (c as u32) <= 0x200A) || (c as u32) == 0x202F
            || (c as u32) == 0x205F || (c as u32) == 0x3000) ==> normalize_piece(c) == seq![' '],
        ((c as u32) == 0x200B || (c as u32) == 0x200C || (c as u32) == 0x200D || (c as u32)
            == 0xFEFF) ==> normalize_piece(c).len() == 0,
        ((c as u32) == 0x2013 || (c as u32) == 0x2014 || (c as u32) == 0x2022) ==> normalize_piece(
            c,
        ) == seq!['-'],
        (0x2018 <= (c as u32) <= 0x201B) ==> normalize_piece(c) == seq!['\''],
        (0x201C <= (c as u32) <= 0x201F) ==> normalize_piece(c) == seq!['"'],
        (c as u32) == 0x2026 ==> normalize_piece(c) == seq!['.', '.', '.'],
        !((c as u32) == 0x0A || (c as u32) == 0x0D || (c as u32) == 0x0B || (c as u32) == 0x0C
            || (c as u32) == 0xA0 || (0x2002 <= (c as u32) <= 0x200D) || (c as u32) == 0x202F
            || (c as u32) == 0x205F || (c as u32) == 0x3000 || (c as u32) == 0xFEFF || (0x2013
            <= (c as u32) <= 0x2014) || (0x2018 <= (c as u32) <= 0x201F) || (c as u32) == 0x2022
            || (c as u32) == 0x2026) ==> normalize_piece(c) == seq![c],
{
}

// ---------------------------------------------------------------------------
// The token records
// ---------------------------------------------------------------------------

/// Word ranges of `norm`: nonempty, within `norm`, in order and apart, made
/// of non-whitespace characters and followed by whitespace.
#[verifier::opaque]
pub open spec fn valid_ranges(norm: Seq<char>, toks: Seq<(int, int)>) -> bool {
    &&& forall|i: int| 0 <= i < toks.len() ==> 0 <= #[trigger] toks[i].0 < toks[i].1 <= norm.len()
    &&& forall|i: int, j: int| 0 <= i < j < toks.len() ==> #[trigger] toks[i].1 < #[trigger] toks[j].0
    &&& forall|i: int, k: int|
        0 <= i < toks.len() && #[trigger] toks[i].0 <= k < toks[i].1 ==> !is_white_space(
            #[trigger] norm[k],
        )
    &&& forall|i: int|
        0 <= i < toks.len() && toks[i].1 < norm.len() ==> is_white_space(#[trigger] norm[toks[i].1])
}

/// The expanded words of the records.
pub open spec fn expanded_words(recs: Seq<TokenRecord>) -> Seq<Seq<char>> {
    recs.map_values(|r: TokenRecord| r.5)
}

/// Every record locates its words and has a nonempty expansion.
pub open spec fn records_located(
    dict: Map<Seq<char>, Seq<char>>,
    src: Seq<char>,
    norm: Seq<char>,
    org: Seq<int>,
    toks: Seq<(int, int)>,
    n: int,
) -> bool {
    let text = assemble(dict, src, norm, org, toks, n).0;
    let recs = assemble(dict, src, norm, org, toks, n).1;
    forall|i: int|
        0 <= i < recs.len() ==> {
            &&& (#[trigger] recs[i]).5.len() > 0
            &&& 0 <= recs[i].0 < recs[i].1 <= src.len()
            &&& recs[i].4 == src.subrange(recs[i].0, recs[i].1)
            &&& encode_utf8(text).subrange(recs[i].2, recs[i].3) == encode_utf8(recs[i].5)
            &&& 0 <= recs[i].2 <= recs[i].3 <= utf8_len(text)
        }
}

/// The text is the expanded words joined by spaces; consecutive expanded spans
/// are one byte apart and the last one ends the text.
pub open spec fn text_joined(
    dict: Map<Seq<char>, Seq<char>>,
    src: Seq<char>,
    norm: Seq<char>,
    org: Seq<int>,
    toks: Seq<(int, int)>,
    n: int,
) -> bool {
    let text = assemble(dict, src, norm, org, toks, n).0;
    let recs = assemble(dict, src, norm, org, toks, n).1;
    &&& text == join(expanded_words(recs), seq![' '])
    &&& (recs.len() == 0 <==> text.len() == 0)
    &&& recs.len() > 0 ==> recs.last().3 == utf8_len(text)
    &&& recs.len() > 0 ==> recs[0].2 == 0
    &&& forall|i: int| 0 <= i < recs.len() - 1 ==> #[trigger] recs[i].3 + 1 == recs[i + 1].2
}

/// Original spans are in order and apart, and end no later than just past
/// the origin of the last character of the last word assembled.
pub open spec fn originals_ordered(
    dict: Map<Seq<char>, Seq<char>>,
    src: Seq<char>,
    norm: Seq<char>,
    org: Seq<int>,
    toks: Seq<(int, int)>,
    n: int,
) -> bool {
    let recs = assemble(dict, src, norm, org, toks, n).1;
    &&& forall|i: int, j: int| 0 <= i < j < recs.len() ==> #[trigger] recs[i].1 < #[trigger] recs[j].0
    &&& n >= 1 ==> forall|i: int|
        0 <= i < recs.len() ==> #[trigger] recs[i].1 <= org[toks[n - 1].1 - 1] + 1
}

/// In the encoding of `a + b`, a range within the encoding of `a` reads as in
/// the encoding of `a`.
proof fn lemma_encode_prefix_range(a: Seq<char>, b: Seq<char>, x: int, y: int)
    requires
        0 <= x <= y <= utf8_len(a),
    ensures
        encode_utf8(a + b).subrange(x, y) == encode_utf8(a).subrange(x, y),
{
    crate::text::lemma_encode_concat(a, b);
    lemma_utf8_len_is_encoding_len(a);
    assert((encode_utf8(a) + encode_utf8(b)).subrange(x, y) =~= encode_utf8(a).subrange(x, y));
}

/// The text before an expansion: nothing for the first, else a space.
pub open spec fn separated(prev: Seq<char>) -> Seq<char> {
    if prev.len() == 0 {
        prev
    } else {
        prev.push(' ')
    }
}

/// How one step of the assembly extends the text and the records.
pub proof fn lemma_assemble_step(
    dict: Map<Seq<char>, Seq<char>>,
    src: Seq<char>,
    norm: Seq<char>,
    org: Seq<int>,
    toks: Seq<(int, int)>,
    n: int,
)
    requires
        1 <= n <= toks.len(),
    ensures
        ({
            let prev = assemble(dict, src, norm, org, toks, n - 1);
            let cur = assemble(dict, src, norm, org, toks, n);
            let t = toks[n - 1];
            let e = crate::expander::pipeline_spec(dict, norm.subrange(t.0, t.1));
            if e.len() == 0 {
                cur == prev
            } else {
                &&& cur.0 == separated(prev.0) + e
                &&& cur.1 == prev.1.push(
                    (
                        org[t.0],
                        org[t.1 - 1] + 1,
                        utf8_len(separated(prev.0)) as int,
                        utf8_len(separated(prev.0) + e) as int,
                        src.subrange(org[t.0], org[t.1 - 1] + 1),
                        e,
                    ),
                )
            }
        }),
{
}

#[verifier::rlimit(40)]
proof fn lemma_records_located(
    dict: Map<Seq<char>, Seq<char>>,
    src: Seq<char>,
    norm: Seq<char>,
    org: Seq<int>,
    toks: Seq<(int, int)>,
    n: int,
)
    requires
        valid_ranges(norm, toks),
        origins_fit(src, norm, org),
        0 <= n <= toks.len(),
    ensures
        records_located(dict, src, norm, org, toks, n),
    decreases n,
{
    if n > 0 {
        lemma_records_located(dict, src, norm, org, toks, n - 1);
        lemma_assemble_step(dict, src, norm, org, toks, n);
        let prev = assemble(dict, src, norm, org, toks, n - 1);
        let cur = assemble(dict, src, norm, org, toks, n);
        let t = toks[n - 1];
        let e = crate::expander::pipeline_spec(dict, norm.subrange(t.0, t.1));
        if e.len() > 0 {
            let before = separated(prev.0);
            lemma_word_origin(src, norm, org, toks, n - 1);
            lemma_utf8_len_concat(before, e);
            lemma_utf8_len_push(prev.0, ' ');
            lemma_encode_middle(before, e, Seq::empty());
            assert(before + e + Seq::<char>::empty() =~= before + e);
            let rest = if prev.0.len() == 0 {
                e
            } else {
                seq![' '] + e
            };
            assert(cur.0 =~= prev.0 + rest);
            lemma_utf8_len_concat(prev.0, rest);
            assert forall|i: int| 0 <= i < cur.1.len() implies {
                &&& (#[trigger] cur.1[i]).5.len() > 0
                &&& 0 <= cur.1[i].0 < cur.1[i].1 <= src.len()
                &&& cur.1[i].4 == src.subrange(cur.1[i].0, cur.1[i].1)
                &&& encode_utf8(cur.0).subrange(cur.1[i].2, cur.1[i].3) == encode_utf8(cur.1[i].5)
                &&& 0 <= cur.1[i].2 <= cur.1[i].3 <= utf8_len(cur.0)
            } by {
                if i < prev.1.len() {
                    assert(cur.1[i] == prev.1[i]);
                    lemma_encode_prefix_range(prev.0, rest, prev.1[i].2, prev.1[i].3);
                }
            }
        }
    }
}

proof fn lemma_text_joined(
    dict: Map<Seq<char>, Seq<char>>,
    src: Seq<char>,
    norm: Seq<char>,
    org: Seq<int>,
    toks: Seq<(int, int)>,
    n: int,
)
    requires
        valid_ranges(norm, toks),
        origins_fit(src, norm, org),
        0 <= n <= toks.len(),
    ensures
        text_joined(dict, src, norm, org, toks, n),
    decreases n,
{
    if n == 0 {
        assert(expanded_words(Seq::<TokenRecord>::empty()) =~= Seq::<Seq<char>>::empty());
    } else {
        lemma_text_joined(dict, src, norm, org, toks, n - 1);
        lemma_records_located(dict, src, norm, org, toks, n - 1);
        lemma_assemble_step(dict, src, norm, org, toks, n);
        let prev = assemble(dict, src, norm, org, toks, n - 1);
        let cur = assemble(dict, src, norm, org, toks, n);
        let t = toks[n - 1];
        let e = crate::expander::pipeline_spec(dict, norm.subrange(t.0, t.1));
        if e.len() > 0 {
            let before = separated(prev.0);
            lemma_utf8_len_concat(before, e);
            lemma_utf8_len_push(prev.0, ' ');
            let ws = expanded_words(cur.1);
            assert(ws.drop_last() =~= expanded_words(prev.1));
            assert(ws.last() == e);
            if prev.1.len() == 0 {
                assert(ws.len() == 1);
                assert(join(ws, seq![' ']) == ws[0]);
                assert(before + e =~= e);
            } else {
                assert(join(ws, seq![' ']) == join(ws.drop_last(), seq![' ']) + seq![' ']
                    + ws.last());
                assert(before =~= prev.0 + seq![' ']);
                assert(cur.1[0] == prev.1[0]);
            }
            assert forall|i: int| 0 <= i < cur.1.len() - 1 implies #[trigger] cur.1[i].3 + 1
                == cur.1[i + 1].2 by {
                assert(cur.1[i] == prev.1[i]);
                if i + 1 < prev.1.len() {
                    assert(cur.1[i + 1] == prev.1[i + 1]);
                }
            }
        }
    }
}

/// The words of `norm` are valid word ranges.
pub proof fn lemma_valid_tokens(norm: Seq<char>)
    ensures
        valid_ranges(norm, ws_tokens(norm)),
{
    reveal(valid_ranges);
    lemma_ws_tokens_facts(norm);
}

/// A word lies within `norm`, and the origins of its first and last
/// characters are in order within `src`.
pub proof fn lemma_word_origin(
    src: Seq<char>,
    norm: Seq<char>,
    org: Seq<int>,
    toks: Seq<(int, int)>,
    i: int,
)
    requires
        valid_ranges(norm, toks),
        origins_fit(src, norm, org),
        0 <= i < toks.len(),
    ensures
        0 <= toks[i].0 < toks[i].1 <= norm.len() == org.len(),
        0 <= org[toks[i].0] <= org[toks[i].1 - 1] < src.len(),
{
    reveal(origins_fit);
    reveal(valid_ranges);
    let t = toks[i];
    if t.0 < t.1 - 1 {
        assert(org[t.0] <= org[t.1 - 1]);
    }
}

/// Between two consecutive words: the origin of the first word's last
/// character, of the whitespace after it and of the next word's first
/// character increase strictly.
proof fn lemma_word_gap(src: Seq<char>, norm: Seq<char>, org: Seq<int>, toks: Seq<(int, int)>, i: int)
    requires
        valid_ranges(norm, toks),
        origins_fit(src, norm, org),
        0 <= i < i + 1 < toks.len(),
    ensures
        org[toks[i].0] <= org[toks[i].1 - 1],
        org[toks[i].1 - 1] + 1 < org[toks[i + 1].0],
{
    reveal(origins_fit);
    reveal(valid_ranges);
    let tp = toks[i];
    let t = toks[i + 1];
    assert(tp.1 < t.0);
    assert(0 <= tp.0 < tp.1);
    let a = tp.1 - 1;
    let c = tp.1;
    let b = t.0;
    assert(!is_white_space(norm[a]));
    assert(is_white_space(norm[c]));
    assert(!is_white_space(norm[b]));
    assert(!is_white_space('.'));
    assert(org[a] <= org[c] && org[c] <= org[b]);
    assert(org[a] != org[c]);
    assert(org[c] != org[b]);
    if tp.0 < a {
        assert(org[tp.0] <= org[a]);
    }
}

#[verifier::rlimit(40)]
proof fn lemma_originals_ordered(
    dict: Map<Seq<char>, Seq<char>>,
    src: Seq<char>,
    norm: Seq<char>,
    org: Seq<int>,
    toks: Seq<(int, int)>,
    n: int,
)
    requires
        valid_ranges(norm, toks),
        origins_fit(src, norm, org),
        0 <= n <= toks.len(),
    ensures
        originals_ordered(dict, src, norm, org, toks, n),
    decreases n,
{
    if n > 0 {
        lemma_originals_ordered(dict, src, norm, org, toks, n - 1);
        lemma_assemble_step(dict, src, norm, org, toks, n);
        let prev = assemble(dict, src, norm, org, toks, n - 1);
        let cur = assemble(dict, src, norm, org, toks, n);
        let t = toks[n - 1];
        lemma_word_origin(src, norm, org, toks, n - 1);
        if n >= 2 {
            lemma_word_gap(src, norm, org, toks, n - 2);
        }
        assert forall|i: int, j: int| 0 <= i < j < cur.1.len() implies #[trigger] cur.1[i].1
            < #[trigger] cur.1[j].0 by {
            assert(cur.1[i] == prev.1[i]);
            if j < prev.1.len() {
                assert(cur.1[j] == prev.1[j]);
            }
        }
        assert forall|i: int| 0 <= i < cur.1.len() implies #[trigger] cur.1[i].1 <= org[toks[n
            - 1].1 - 1] + 1 by {
            if i < prev.1.len() {
                assert(cur.1[i] == prev.1[i]);
                if n >= 2 {
                    assert(org[toks[n - 2].1 - 1] <= org[t.0]);
                }
            }
        }
    }
}

/// Everything that holds of the first `n` words once assembled.
pub open spec fn assembled_well(
    dict: Map<Seq<char>, Seq<char>>,
    src: Seq<char>,
    norm: Seq<char>,
    org: Seq<int>,
    toks: Seq<(int, int)>,
    n: int,
) -> bool {
    &&& records_located(dict, src, norm, org, toks, n)
    &&& text_joined(dict, src, norm, org, toks, n)
    &&& originals_ordered(dict, src, norm, org, toks, n)
}

/// The records of an expansion are well assembled.
proof fn lemma_expansion_well(dict: Map<Seq<char>, Seq<char>>, text: Seq<char>)
    ensures
        assembled_well(
            dict,
            text,
            normalize_spec(text),
            norm_origins(text),
            ws_tokens(normalize_spec(text)),
            ws_tokens(normalize_spec(text)).len() as int,
        ),
{
    let norm = normalize_spec(text);
    let org = norm_origins(text);
    lemma_valid_tokens(norm);
    lemma_norm_origins(text);
    let toks = ws_tokens(norm);
    let n = toks.len() as int;
    lemma_records_located(dict, text, norm, org, toks, n);
    lemma_text_joined(dict, text, norm, org, toks, n);
    lemma_originals_ordered(dict, text, norm, org, toks, n);
}

/// Span tracking: the original span of every token is a range of character
/// positions of the input, and the token's original text is the input's
/// characters there; its expanded span is where its expansion lies in the
/// UTF-8 bytes of the expanded text.
pub proof fn lemma_spans_locate_words(dict: Map<Seq<char>, Seq<char>>, text: Seq<char>, i: int)
    requires
        0 <= i < expansion_spec(dict, text).1.len(),
    ensures
        ({
            let out = expansion_spec(dict, text).0;
            let r = expansion_spec(dict, text).1[i];
            &&& 0 <= r.0 < r.1 <= text.len()
            &&& text.subrange(r.0, r.1) == r.4
            &&& encode_utf8(out).subrange(r.2, r.3) == encode_utf8(r.5)
        }),
{
    lemma_expansion_well(dict, text);
    let recs = expansion_spec(dict, text).1;
    assert(recs[i].5.len() > 0);
}

/// Layout of the expanded text: it is the expanded words separated by single
/// spaces, each expanded word is nonempty, consecutive expanded spans are one
/// byte (the space) apart and the last one ends the text; original spans
/// strictly increase and do not touch.
pub proof fn lemma_expanded_layout(dict: Map<Seq<char>, Seq<char>>, text: Seq<char>)
    ensures
        ({
            let out = expansion_spec(dict, text).0;
            let recs = expansion_spec(dict, text).1;
            &&& out == join(expanded_words(recs), seq![' '])
            &&& forall|i: int| 0 <= i < recs.len() ==> (#[trigger] recs[i]).5.len() > 0
            &&& forall|i: int| 0 <= i < recs.len() - 1 ==> #[trigger] recs[i].3 + 1 == recs[i + 1].2
            &&& recs.len() > 0 ==> recs[0].2 == 0 && recs.last().3 == utf8_len(out)
            &&& forall|i: int, j: int|
                0 <= i < j < recs.len() ==> #[trigger] recs[i].1 < #[trigger] recs[j].0
        }),
{
    lemma_expansion_well(dict, text);
}

} // verus!
