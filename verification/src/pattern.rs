//! Regular-expression matches (through the `regex` crate) and the
//! replacement of matched text.

use vstd::prelude::*;

use crate::text::{
    char_len_utf8, char_utf8_len, lemma_utf8_len_push, lemma_utf8_len_take, push_range, utf8_len,
    views,
};

verus! {

/// One match of a regular expression: the byte range of the whole match in
/// the haystack, and the text of each capture group (group 0 is the whole
/// match; a group that took no part in the match is empty).
pub struct Captured {
    pub start: usize,
    pub end: usize,
    pub groups: Vec<String>,
}

/// A match as plain values.
pub open spec fn captured_view(c: Captured) -> (nat, nat, Seq<Seq<char>>) {
    (c.start as nat, c.end as nat, views(c.groups@))
}

/// The matches of `pattern` in `text` as `Regex::captures_iter` yields them,
/// or `None` when `pattern` is not a valid regular expression.
pub uninterp spec fn regex_captures_of(pattern: Seq<char>, text: Seq<char>) -> Option<
    Seq<(nat, nat, Seq<Seq<char>>)>,
>;

/// Matches are in the haystack's byte range, in order and do not overlap.
pub open spec fn well_placed(ms: Seq<(nat, nat, Seq<Seq<char>>)>, text_bytes: nat) -> bool {
    &&& forall|i: int| 0 <= i < ms.len() ==> #[trigger] ms[i].0 <= ms[i].1 <= text_bytes
    &&& forall|i: int, j: int| 0 <= i < j < ms.len() ==> #[trigger] ms[i].1 <= #[trigger] ms[j].0
}

/// `regex::Regex::new(pattern)` and `Regex::captures_iter(text)`.
///
/// Claimed: `None` exactly when the pattern does not compile; otherwise the
/// matches equal `regex_captures_of(pattern, text)` (a name: the matching
/// semantics of the `regex` crate is not written out), and, as the crate
/// documents, they are successive, non-overlapping and within the haystack.
/// Nothing is claimed about which texts match.
#[verifier::external_body]
pub(crate) fn regex_captures(pattern: &str, text: &str) -> (r: Option<Vec<Captured>>)
    ensures
        match r {
            None => regex_captures_of(pattern@, text@) is None,
            Some(v) => {
                &&& regex_captures_of(pattern@, text@) == Some(
                    v@.map_values(|c: Captured| captured_view(c)),
                )
                &&& well_placed(v@.map_values(|c: Captured| captured_view(c)), utf8_len(text@))
            },
        },
{
    let re = regex::Regex::new(pattern).ok()?;
    Some(
        re.captures_iter(text).map(
            |c| Captured {
                start: c.get(0).map_or(0, |m| m.start()),
                end: c.get(0).map_or(0, |m| m.end()),
                groups: c.iter().map(|g| g.map_or(String::new(), |m| m.as_str().to_string())).collect(),
            },
        ).collect(),
    )
}

// ---------------------------------------------------------------------------
// Byte offsets and character positions
// ---------------------------------------------------------------------------

/// The first position `k >= from` whose byte offset in `s` reaches `b`
/// (or the end of `s`).
pub open spec fn char_index_from(s: Seq<char>, from: int, b: int) -> int
    decreases s.len() - from,
{
    if from < 0 || from >= s.len() || utf8_len(s.take(from)) >= b {
        from
    } else {
        char_index_from(s, from + 1, b)
    }
}

/// The character position of byte offset `b` in `s`.
pub open spec fn char_index_at(s: Seq<char>, b: int) -> int {
    char_index_from(s, 0, b)
}

proof fn lemma_char_index_from_bounds(s: Seq<char>, from: int, b: int)
    requires
        0 <= from <= s.len(),
    ensures
        from <= char_index_from(s, from, b) <= s.len(),
        forall|k: int|
            from <= k < char_index_from(s, from, b) ==> utf8_len(#[trigger] s.take(k)) < b,
        char_index_from(s, from, b) < s.len() ==> utf8_len(s.take(char_index_from(s, from, b)))
            >= b,
    decreases s.len() - from,
{
    if from < s.len() && utf8_len(s.take(from)) < b {
        lemma_char_index_from_bounds(s, from + 1, b);
    }
}

/// Starting the search later changes nothing while the skipped positions are
/// below the target.
proof fn lemma_char_index_from_skip(s: Seq<char>, from: int, b: int)
    requires
        0 <= from <= s.len(),
        forall|k: int| 0 <= k < from ==> utf8_len(#[trigger] s.take(k)) < b,
    ensures
        char_index_at(s, b) == char_index_from(s, from, b),
    decreases from,
{
    if from > 0 {
        lemma_char_index_from_skip(s, from - 1, b);
        assert(utf8_len(s.take(from - 1)) < b);
    }
}

/// Walks from position `k` (at byte offset `pos`) to the position of byte
/// offset `target`.
fn advance(s: &[char], k: usize, pos: usize, target: usize) -> (r: (usize, usize))
    requires
        k <= s@.len(),
        pos == utf8_len(s@.take(k as int)),
        utf8_len(s@) <= usize::MAX,
    ensures
        r.0 == char_index_from(s@, k as int, target as int),
        r.1 == utf8_len(s@.take(r.0 as int)),
{
    let ghost k0 = k;
    let mut k = k;
    let mut pos = pos;
    while k < s.len() && pos < target
        invariant
            k <= s@.len(),
            pos == utf8_len(s@.take(k as int)),
            utf8_len(s@) <= usize::MAX,
            char_index_from(s@, k as int, target as int) == char_index_from(
                s@,
                k0 as int,
                target as int,
            ),
        decreases s@.len() - k,
    {
        proof {
            assert(s@.take(k + 1) =~= s@.take(k as int).push(s@[k as int]));
            lemma_utf8_len_push(s@.take(k as int), s@[k as int]);
            lemma_utf8_len_take(s@, k + 1);
        }
        pos = pos + char_len_utf8(s[k]);
        k = k + 1;
    }
    (k, pos)
}

// ---------------------------------------------------------------------------
// Replacement
// ---------------------------------------------------------------------------

/// Byte offset where the text after match `i - 1` starts (0 for the first).
pub open spec fn previous_end(ms: Seq<(nat, nat, Seq<Seq<char>>)>, i: int) -> int {
    if i <= 0 {
        0
    } else {
        ms[i - 1].1 as int
    }
}

/// The text of `s` before the first `n` matches, each followed by its
/// replacement.
pub open spec fn spliced(
    s: Seq<char>,
    ms: Seq<(nat, nat, Seq<Seq<char>>)>,
    reps: Seq<Seq<char>>,
    n: int,
) -> Seq<char>
    decreases n,
{
    if n <= 0 {
        Seq::empty()
    } else {
        spliced(s, ms, reps, n - 1) + s.subrange(
            char_index_at(s, previous_end(ms, n - 1)),
            char_index_at(s, ms[n - 1].0 as int),
        ) + reps[n - 1]
    }
}

/// `s` with every match replaced by the matching replacement
/// (`Regex::replace_all`).
pub open spec fn replaced(
    s: Seq<char>,
    ms: Seq<(nat, nat, Seq<Seq<char>>)>,
    reps: Seq<Seq<char>>,
) -> Seq<char> {
    spliced(s, ms, reps, ms.len() as int) + s.subrange(
        char_index_at(s, previous_end(ms, ms.len() as int)),
        s.len() as int,
    )
}

/// Replaces every match of `ms` in `s` by the replacement of the same index.
pub(crate) fn replace_matches(s: &[char], ms: &Vec<Captured>, reps: &Vec<String>) -> (r: String)
    requires
        reps@.len() == ms@.len(),
        utf8_len(s@) <= usize::MAX,
        well_placed(ms@.map_values(|c: Captured| captured_view(c)), utf8_len(s@)),
    ensures
        r@ == replaced(s@, ms@.map_values(|c: Captured| captured_view(c)), views(reps@)),
{
    let ghost mv = ms@.map_values(|c: Captured| captured_view(c));
    let ghost rv = views(reps@);
    let mut out = String::new();
    let mut k: usize = 0;
    let mut pos: usize = 0;
    let mut j: usize = 0;
    proof {
        assert(s@.take(0) =~= Seq::<char>::empty());
    }
    while j < ms.len()
        invariant
            j <= ms@.len() == reps@.len(),
            mv == ms@.map_values(|c: Captured| captured_view(c)),
            rv == views(reps@),
            utf8_len(s@) <= usize::MAX,
            well_placed(mv, utf8_len(s@)),
            k == char_index_at(s@, previous_end(mv, j as int)),
            k <= s@.len(),
            pos == utf8_len(s@.take(k as int)),
            out@ == spliced(s@, mv, rv, j as int),
        decreases ms@.len() - j,
    {
        let start = ms[j].start;
        let end = ms[j].end;
        assert(mv[j as int].0 == start && mv[j as int].1 == end);
        proof {
            lemma_char_index_from_bounds(s@, 0, previous_end(mv, j as int));
            if j > 0 {
                assert(mv[j - 1].1 <= mv[j as int].0);
            }
            assert forall|kk: int| 0 <= kk < k implies utf8_len(#[trigger] s@.take(kk))
                < start as int by {}
            lemma_char_index_from_skip(s@, k as int, start as int);
        }
        let (k1, pos1) = advance(s, k, pos, start);
        proof {
            lemma_char_index_from_bounds(s@, k as int, start as int);
        }
        push_range(&mut out, s, k, k1);
        out.append(reps[j].as_str());
        assert(out@ =~= spliced(s@, mv, rv, j + 1));
        proof {
            lemma_char_index_from_bounds(s@, 0, start as int);
            assert forall|kk: int| 0 <= kk < k1 implies utf8_len(#[trigger] s@.take(kk))
                < end as int by {}
            lemma_char_index_from_skip(s@, k1 as int, end as int);
        }
        let (k2, pos2) = advance(s, k1, pos1, end);
        proof {
            lemma_char_index_from_bounds(s@, k1 as int, end as int);
        }
        k = k2;
        pos = pos2;
        j = j + 1;
    }
    push_range(&mut out, s, k, s.len());
    out
}

/// Without matches, replacement leaves the text as it is.
pub proof fn lemma_no_match_unchanged(s: Seq<char>)
    ensures
        replaced(s, Seq::empty(), Seq::empty()) == s,
{
    assert(s.take(0) =~= Seq::<char>::empty());
    assert(utf8_len(s.take(0)) == 0);
    assert(char_index_at(s, 0) == 0);
    assert(s.subrange(0, s.len() as int) =~= s);
}

} // verus!
