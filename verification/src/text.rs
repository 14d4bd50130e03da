//! Character-level helpers shared by the expander modules: character classes,
//! UTF-8 widths, conversions between strings and character vectors, joining
//! and splitting.

use vstd::prelude::*;

verus! {

// ---------------------------------------------------------------------------
// Character classes
// ---------------------------------------------------------------------------

/// Unicode `White_Space` property, as used by `char::is_whitespace`.
pub open spec fn is_white_space(c: char) -> bool {
    let u = c as u32;
    ||| 0x9 <= u <= 0xD
    ||| u == 0x20
    ||| u == 0x85
    ||| u == 0xA0
    ||| u == 0x1680
    ||| 0x2000 <= u <= 0x200A
    ||| u == 0x2028
    ||| u == 0x2029
    ||| u == 0x202F
    ||| u == 0x205F
    ||| u == 0x3000
}

/// Whether `c` has the Unicode `White_Space` property.
pub fn is_whitespace(c: char) -> (b: bool)
    ensures
        b == is_white_space(c),
{
    let u = c as u32;
    (0x9 <= u && u <= 0xD) || u == 0x20 || u == 0x85 || u == 0xA0 || u == 0x1680 || (0x2000 <= u
        && u <= 0x200A) || u == 0x2028 || u == 0x2029 || u == 0x202F || u == 0x205F || u == 0x3000
}

/// `'0'..='9'`.
pub open spec fn is_ascii_digit(c: char) -> bool {
    0x30 <= (c as u32) <= 0x39
}

/// The value of an ASCII digit.
pub open spec fn digit_value(c: char) -> nat {
    ((c as u32) - 0x30) as nat
}

pub fn ascii_digit(c: char) -> (b: bool)
    ensures
        b == is_ascii_digit(c),
{
    let u = c as u32;
    0x30 <= u && u <= 0x39
}

/// No character of `s` is an ASCII digit.
pub open spec fn has_no_ascii_digit(s: Seq<char>) -> bool {
    forall|i: int| 0 <= i < s.len() ==> !is_ascii_digit(#[trigger] s[i])
}

// ---------------------------------------------------------------------------
// UTF-8 widths
// ---------------------------------------------------------------------------

/// Number of bytes of the UTF-8 encoding of `c` (`char::len_utf8`).
pub open spec fn char_utf8_len(c: char) -> nat {
    let u = c as u32;
    if u <= 0x7F {
        1
    } else if u <= 0x7FF {
        2
    } else if u <= 0xFFFF {
        3
    } else {
        4
    }
}

/// Number of bytes of the UTF-8 encoding of `s` (`str::len`).
pub open spec fn utf8_len(s: Seq<char>) -> nat
    decreases s.len(),
{
    if s.len() == 0 {
        0
    } else {
        char_utf8_len(s[0]) + utf8_len(s.drop_first())
    }
}

/// Byte width of one character.
pub fn char_len_utf8(c: char) -> (n: usize)
    ensures
        n == char_utf8_len(c),
        1 <= n <= 4,
{
    let u = c as u32;
    if u <= 0x7F {
        1
    } else if u <= 0x7FF {
        2
    } else if u <= 0xFFFF {
        3
    } else {
        4
    }
}

/// The byte length is additive over concatenation.
pub proof fn lemma_utf8_len_concat(a: Seq<char>, b: Seq<char>)
    ensures
        utf8_len(a + b) == utf8_len(a) + utf8_len(b),
    decreases a.len(),
{
    if a.len() == 0 {
        assert(a + b =~= b);
    } else {
        assert((a + b).drop_first() =~= a.drop_first() + b);
        lemma_utf8_len_concat(a.drop_first(), b);
    }
}

/// Appending one character adds its width.
pub proof fn lemma_utf8_len_push(a: Seq<char>, c: char)
    ensures
        utf8_len(a.push(c)) == utf8_len(a) + char_utf8_len(c),
{
    lemma_utf8_len_concat(a, seq![c]);
    assert(a.push(c) =~= a + seq![c]);
    assert(seq![c].drop_first() =~= Seq::<char>::empty());
    assert(utf8_len(seq![c]) == char_utf8_len(c) + utf8_len(seq![c].drop_first()));
}

/// `utf8_len` is the length of vstd's UTF-8 encoding.
pub proof fn lemma_utf8_len_is_encoding_len(s: Seq<char>)
    ensures
        utf8_len(s) == vstd::utf8::encode_utf8(s).len(),
    decreases s.len(),
{
    if s.len() > 0 {
        vstd::utf8::char_is_scalar(s[0]);
        lemma_utf8_len_is_encoding_len(s.drop_first());
    }
}

/// The encoding of a concatenation is the concatenation of the encodings.
pub proof fn lemma_encode_concat(a: Seq<char>, b: Seq<char>)
    ensures
        vstd::utf8::encode_utf8(a + b) == vstd::utf8::encode_utf8(a) + vstd::utf8::encode_utf8(b),
    decreases a.len(),
{
    if a.len() == 0 {
        assert(a + b =~= b);
        assert(vstd::utf8::encode_utf8(a) =~= Seq::<u8>::empty());
        assert(vstd::utf8::encode_utf8(a) + vstd::utf8::encode_utf8(b) =~= vstd::utf8::encode_utf8(
            b,
        ));
    } else {
        assert((a + b).drop_first() =~= a.drop_first() + b);
        assert((a + b)[0] == a[0]);
        lemma_encode_concat(a.drop_first(), b);
        assert(vstd::utf8::encode_utf8(a + b) =~= vstd::utf8::encode_scalar(a[0] as u32) + (
        vstd::utf8::encode_utf8(a.drop_first()) + vstd::utf8::encode_utf8(b)));
    }
}

/// In the encoding of `x + y + z`, the bytes between the ends of `x` and of
/// `x + y` are the encoding of `y`.
pub proof fn lemma_encode_middle(x: Seq<char>, y: Seq<char>, z: Seq<char>)
    ensures
        vstd::utf8::encode_utf8(x + y + z).subrange(
            utf8_len(x) as int,
            utf8_len(x + y) as int,
        ) == vstd::utf8::encode_utf8(y),
{
    lemma_encode_concat(x + y, z);
    lemma_encode_concat(x, y);
    lemma_utf8_len_is_encoding_len(x);
    lemma_utf8_len_is_encoding_len(x + y);
    let ex = vstd::utf8::encode_utf8(x);
    let ey = vstd::utf8::encode_utf8(y);
    let ez = vstd::utf8::encode_utf8(z);
    assert((ex + ey + ez).subrange(ex.len() as int, (ex.len() + ey.len()) as int) =~= ey);
}

/// Byte offsets of character positions strictly increase.
pub proof fn lemma_utf8_len_take_strict(s: Seq<char>, k1: int, k2: int)
    requires
        0 <= k1 < k2 <= s.len(),
    ensures
        utf8_len(s.take(k1)) < utf8_len(s.take(k2)),
{
    lemma_utf8_len_concat(s.take(k1), s.subrange(k1, k2));
    assert(s.take(k1) + s.subrange(k1, k2) =~= s.take(k2));
    assert(utf8_len(s.subrange(k1, k2)) >= char_utf8_len(s.subrange(k1, k2)[0]));
}

/// The byte length of a prefix never exceeds that of the whole.
pub proof fn lemma_utf8_len_take(s: Seq<char>, k: int)
    requires
        0 <= k <= s.len(),
    ensures
        utf8_len(s.take(k)) <= utf8_len(s),
        utf8_len(s.take(k)) + utf8_len(s.skip(k)) == utf8_len(s),
{
    lemma_utf8_len_concat(s.take(k), s.skip(k));
    assert(s.take(k) + s.skip(k) =~= s);
}

// ---------------------------------------------------------------------------
// Strings and character vectors
// ---------------------------------------------------------------------------

/// Appends one character to a `String` (std's `String::push`).
#[verifier::external_body]
pub(crate) fn push_char(s: &mut String, c: char)
    ensures
        final(s)@ == old(s)@.push(c),
{
    s.push(c);
}

/// The characters of a string slice, in order.
pub fn str_chars(s: &str) -> (v: Vec<char>)
    ensures
        v@ == s@,
{
    let mut v: Vec<char> = Vec::new();
    for c in iter: s.chars()
        invariant
            v@ == iter.seq().take(iter.index() as int),
    {
        v.push(c);
    }
    v
}

/// Number of bytes of `s` (`str::len`, read through `str::as_bytes`).
pub fn byte_len(s: &str) -> (n: usize)
    ensures
        n == utf8_len(s@),
{
    let b = s.as_bytes();
    let n = b.len();
    proof {
        lemma_utf8_len_is_encoding_len(s@);
    }
    n
}

/// The string made of the given characters.
pub fn chars_to_string(v: &[char]) -> (s: String)
    ensures
        s@ == v@,
{
    let mut s = String::new();
    let mut i: usize = 0;
    while i < v.len()
        invariant
            i <= v@.len(),
            s@ == v@.take(i as int),
        decreases v@.len() - i,
    {
        push_char(&mut s, v[i]);
        assert(v@.take(i + 1) == v@.take(i as int).push(v@[i as int]));
        i = i + 1;
    }
    assert(v@.take(v@.len() as int) == v@);
    s
}

/// The elements `v[from..to]`.
pub fn sub_vec(v: &Vec<usize>, from: usize, to: usize) -> (r: Vec<usize>)
    requires
        from <= to <= v@.len(),
    ensures
        r@ == v@.subrange(from as int, to as int),
{
    let mut r: Vec<usize> = Vec::new();
    let mut i = from;
    while i < to
        invariant
            from <= i <= to <= v@.len(),
            r@ == v@.subrange(from as int, i as int),
        decreases to - i,
    {
        r.push(v[i]);
        assert(r@ =~= v@.subrange(from as int, i + 1));
        i = i + 1;
    }
    r
}

/// Appends the characters `v[from..to]` to `s`.
pub fn push_range(s: &mut String, v: &[char], from: usize, to: usize)
    requires
        from <= to <= v@.len(),
    ensures
        final(s)@ == old(s)@ + v@.subrange(from as int, to as int),
{
    let mut i = from;
    while i < to
        invariant
            from <= i <= to <= v@.len(),
            s@ == old(s)@ + v@.subrange(from as int, i as int),
        decreases to - i,
    {
        push_char(s, v[i]);
        assert(v@.subrange(from as int, i + 1) == v@.subrange(from as int, i as int).push(
            v@[i as int],
        ));
        i = i + 1;
    }
}

/// The views of a sequence of strings.
pub open spec fn views(v: Seq<String>) -> Seq<Seq<char>> {
    v.map_values(|s: String| s@)
}

// ---------------------------------------------------------------------------
// Joining and splitting
// ---------------------------------------------------------------------------

/// The elements of `list` separated by `sep` (`[T]::join`).
pub open spec fn join(list: Seq<Seq<char>>, sep: Seq<char>) -> Seq<char>
    decreases list.len(),
{
    if list.len() == 0 {
        Seq::empty()
    } else if list.len() == 1 {
        list[0]
    } else {
        join(list.drop_last(), sep) + sep + list.last()
    }
}

/// Joins `list` with `sep` between consecutive elements.
pub fn join_strings(list: &Vec<String>, sep: &str) -> (res: String)
    ensures
        res@ == join(views(list@), sep@),
{
    let mut res = String::new();
    let ghost lv = views(list@);
    let mut i: usize = 0;
    while i < list.len()
        invariant
            i <= list@.len(),
            lv == views(list@),
            lv.len() == list@.len(),
            res@ == join(lv.take(i as int), sep@),
        decreases list@.len() - i,
    {
        assert(lv.take(i + 1).drop_last() =~= lv.take(i as int));
        if i != 0 {
            res.append(sep);
        }
        res.append(list[i].as_str());
        i = i + 1;
    }
    assert(lv.take(list@.len() as int) =~= lv);
    res
}

/// The pieces of `s` between occurrences of `c` (`str::split` on a character):
/// always at least one piece, empty pieces included.
pub open spec fn split_on(s: Seq<char>, c: char) -> Seq<Seq<char>>
    decreases s.len(),
{
    if s.len() == 0 {
        seq![Seq::<char>::empty()]
    } else {
        let rest = split_on(s.drop_last(), c);
        if s.last() == c {
            rest.push(Seq::<char>::empty())
        } else {
            rest.update(rest.len() - 1, rest.last().push(s.last()))
        }
    }
}

pub proof fn lemma_split_on_nonempty(s: Seq<char>, c: char)
    ensures
        split_on(s, c).len() >= 1,
    decreases s.len(),
{
    if s.len() > 0 {
        lemma_split_on_nonempty(s.drop_last(), c);
    }
}

/// Splits `s` at every occurrence of `c`.
pub fn split_at_char(s: &[char], c: char) -> (pieces: Vec<Vec<char>>)
    ensures
        pieces@.map_values(|p: Vec<char>| p@) == split_on(s@, c),
{
    let mut pieces: Vec<Vec<char>> = Vec::new();
    let mut cur: Vec<char> = Vec::new();
    let mut i: usize = 0;
    while i < s.len()
        invariant
            i <= s@.len(),
            pieces@.map_values(|p: Vec<char>| p@).push(cur@) == split_on(s@.take(i as int), c),
        decreases s@.len() - i,
    {
        let ghost before = pieces@.map_values(|p: Vec<char>| p@).push(cur@);
        assert(s@.take(i + 1).drop_last() =~= s@.take(i as int));
        if s[i] == c {
            let done = cur;
            pieces.push(done);
            cur = Vec::new();
            assert(pieces@.map_values(|p: Vec<char>| p@).push(cur@) =~= before.push(
                Seq::<char>::empty(),
            ));
        } else {
            cur.push(s[i]);
            assert(pieces@.map_values(|p: Vec<char>| p@).push(cur@) =~= before.update(
                before.len() - 1,
                before.last().push(s@[i as int]),
            ));
        }
        i = i + 1;
    }
    assert(s@.take(s@.len() as int) =~= s@);
    pieces.push(cur);
    pieces
}

/// Joining the pieces of a split with the splitting character gives back the
/// original text.
pub proof fn lemma_join_split(s: Seq<char>, c: char)
    ensures
        join(split_on(s, c), seq![c]) == s,
    decreases s.len(),
{
    if s.len() == 0 {
        assert(join(split_on(s, c), seq![c]) == Seq::<char>::empty());
        assert(s =~= Seq::<char>::empty());
    } else {
        let rest = split_on(s.drop_last(), c);
        lemma_split_on_nonempty(s.drop_last(), c);
        lemma_join_split(s.drop_last(), c);
        if s.last() == c {
            let l = rest.push(Seq::<char>::empty());
            assert(l.drop_last() =~= rest);
            assert(s =~= s.drop_last() + seq![c] + Seq::<char>::empty());
        } else {
            let l = rest.update(rest.len() - 1, rest.last().push(s.last()));
            if rest.len() == 1 {
                assert(s =~= rest[0].push(s.last()));
            } else {
                assert(l.drop_last() =~= rest.drop_last());
                assert(join(rest, seq![c]) == join(rest.drop_last(), seq![c]) + seq![c]
                    + rest.last());
                assert(s.drop_last() == join(rest, seq![c]));
                assert(s =~= s.drop_last().push(s.last()));
                assert(l.last() == rest.last().push(s.last()));
                assert(s =~= join(rest.drop_last(), seq![c]) + seq![c] + rest.last().push(
                    s.last(),
                ));
            }
        }
    }
}

/// Every piece of a split is made of characters of the text.
pub proof fn lemma_split_pieces_chars(s: Seq<char>, c: char, i: int, j: int)
    requires
        0 <= i < split_on(s, c).len(),
        0 <= j < split_on(s, c)[i].len(),
    ensures
        s.contains(split_on(s, c)[i][j]),
    decreases s.len(),
{
    if s.len() > 0 {
        let rest = split_on(s.drop_last(), c);
        lemma_split_on_nonempty(s.drop_last(), c);
        if s.last() == c {
            if i < rest.len() {
                lemma_split_pieces_chars(s.drop_last(), c, i, j);
                let k = choose|k: int| 0 <= k < s.drop_last().len() && s.drop_last()[k] == rest[i][j];
                assert(s[k] == rest[i][j]);
            }
        } else {
            if i < rest.len() - 1 || j < rest.last().len() {
                lemma_split_pieces_chars(s.drop_last(), c, i, j);
                let k = choose|k: int| 0 <= k < s.drop_last().len() && s.drop_last()[k] == rest[i][j];
                assert(s[k] == rest[i][j]);
            } else {
                assert(s[s.len() - 1] == s.last());
            }
        }
    }
}

// ---------------------------------------------------------------------------
// Decimal integers (`str::parse` for `u32` and `i64`)
// ---------------------------------------------------------------------------

/// Every character of `s` is an ASCII digit.
pub open spec fn all_ascii_digits(s: Seq<char>) -> bool {
    forall|i: int| 0 <= i < s.len() ==> is_ascii_digit(#[trigger] s[i])
}

/// The value of a run of ASCII digits read in base ten.
pub open spec fn digits_value(s: Seq<char>) -> nat
    decreases s.len(),
{
    if s.len() == 0 {
        0
    } else {
        digits_value(s.drop_last()) * 10 + digit_value(s.last())
    }
}

/// The result of parsing `s` as an `i64`: an optional sign, then one or more
/// ASCII digits, and a value in range.
pub open spec fn parse_i64_spec(s: Seq<char>) -> Option<int> {
    if s.len() == 0 {
        None
    } else {
        let neg = s[0] == '-';
        let d = if neg || s[0] == '+' {
            s.drop_first()
        } else {
            s
        };
        let v: int = if neg {
            -(digits_value(d) as int)
        } else {
            digits_value(d) as int
        };
        if d.len() > 0 && all_ascii_digits(d) && i64::MIN <= v <= i64::MAX {
            Some(v)
        } else {
            None
        }
    }
}

/// The result of parsing `s` as a `u32`: an optional `+`, then one or more
/// ASCII digits, and a value in range.
pub open spec fn parse_u32_spec(s: Seq<char>) -> Option<nat> {
    if s.len() == 0 {
        None
    } else {
        let d = if s[0] == '+' {
            s.drop_first()
        } else {
            s
        };
        if d.len() > 0 && all_ascii_digits(d) && digits_value(d) <= u32::MAX {
            Some(digits_value(d))
        } else {
            None
        }
    }
}

/// `s.parse::<u32>().unwrap_or(0)`.
pub open spec fn parse_u32_or_zero(s: Seq<char>) -> nat {
    match parse_u32_spec(s) {
        Some(v) => v,
        None => 0,
    }
}

/// A prefix of a digit run never has a larger value than the run.
pub proof fn lemma_digits_value_prefix(s: Seq<char>, k: int)
    requires
        0 <= k <= s.len(),
        all_ascii_digits(s),
    ensures
        digits_value(s.take(k)) <= digits_value(s),
    decreases s.len() - k,
{
    if k < s.len() {
        lemma_digits_value_prefix(s, k + 1);
        assert(s.take(k + 1).drop_last() =~= s.take(k));
        assert(digits_value(s.take(k + 1)) == digits_value(s.take(k)) * 10 + digit_value(
            s.take(k + 1).last(),
        ));
    } else {
        assert(s.take(k) =~= s);
    }
}

/// Reads `s[from..to]` as a run of ASCII digits whose value fits in a `u64`.
pub fn parse_digits(s: &[char], from: usize, to: usize) -> (r: Option<u64>)
    requires
        from <= to <= s@.len(),
    ensures
        ({
            let d = s@.subrange(from as int, to as int);
            match r {
                Some(v) => d.len() > 0 && all_ascii_digits(d) && v == digits_value(d),
                None => !(d.len() > 0 && all_ascii_digits(d)) || digits_value(d) > u64::MAX,
            }
        }),
{
    let ghost d = s@.subrange(from as int, to as int);
    if from == to {
        return None;
    }
    let mut acc: u64 = 0;
    let mut i = from;
    while i < to
        invariant
            from <= i <= to <= s@.len(),
            d == s@.subrange(from as int, to as int),
            all_ascii_digits(d.take(i - from)),
            acc == digits_value(d.take(i - from)),
        decreases to - i,
    {
        let c = s[i];
        if !ascii_digit(c) {
            assert(d[i - from] == c);
            return None;
        }
        let dv = ((c as u32) - 0x30) as u64;
        assert(d.take(i - from + 1).drop_last() =~= d.take(i - from));
        assert(d.take(i - from + 1).last() == c);
        match acc.checked_mul(10) {
            None => {
                proof {
                    assert(all_ascii_digits(d.take(i - from + 1)));
                    if all_ascii_digits(d) {
                        lemma_digits_value_prefix(d, i - from + 1);
                    }
                }
                return None;
            },
            Some(a10) => match a10.checked_add(dv) {
                None => {
                    proof {
                        assert(all_ascii_digits(d.take(i - from + 1)));
                        if all_ascii_digits(d) {
                            lemma_digits_value_prefix(d, i - from + 1);
                        }
                    }
                    return None;
                },
                Some(a) => {
                    acc = a;
                },
            },
        }
        i = i + 1;
    }
    assert(d.take(to - from) =~= d);
    Some(acc)
}

/// `s[from..to].parse::<i64>()`.
pub fn parse_i64(s: &[char], from: usize, to: usize) -> (r: Option<i64>)
    requires
        from <= to <= s@.len(),
    ensures
        match r {
            Some(v) => parse_i64_spec(s@.subrange(from as int, to as int)) == Some(v as int),
            None => parse_i64_spec(s@.subrange(from as int, to as int)) is None,
        },
{
    let ghost w = s@.subrange(from as int, to as int);
    if from == to {
        return None;
    }
    let neg = s[from] == '-';
    let start = if neg || s[from] == '+' {
        from + 1
    } else {
        from
    };
    assert(s@.subrange(start as int, to as int) =~= if neg || w[0] == '+' {
        w.drop_first()
    } else {
        w
    });
    match parse_digits(s, start, to) {
        None => None,
        Some(v) => {
            if neg {
                if v < 0x8000_0000_0000_0000u64 {
                    Some(-(v as i64))
                } else if v == 0x8000_0000_0000_0000u64 {
                    Some(i64::MIN)
                } else {
                    None
                }
            } else {
                if v <= 0x7fff_ffff_ffff_ffffu64 {
                    Some(v as i64)
                } else {
                    None
                }
            }
        },
    }
}

/// `s[from..to].parse::<u32>().unwrap_or(0)`.
pub fn parse_u32_or_zero_range(s: &[char], from: usize, to: usize) -> (r: u32)
    requires
        from <= to <= s@.len(),
    ensures
        r == parse_u32_or_zero(s@.subrange(from as int, to as int)),
{
    let ghost w = s@.subrange(from as int, to as int);
    if from == to {
        return 0;
    }
    let start = if s[from] == '+' {
        from + 1
    } else {
        from
    };
    assert(s@.subrange(start as int, to as int) =~= if w[0] == '+' {
        w.drop_first()
    } else {
        w
    });
    match parse_digits(s, start, to) {
        None => 0,
        Some(v) => {
            if v <= 0xffff_ffffu64 {
                v as u32
            } else {
                0
            }
        },
    }
}

// ---------------------------------------------------------------------------
// Whitespace-separated tokens (`str::split_whitespace`)
// ---------------------------------------------------------------------------

/// Scan of the first `n` characters of `s`: the tokens (maximal runs of
/// non-whitespace characters, as position ranges) closed so far, and the start
/// of the token still open.
pub open spec fn scan_tokens(s: Seq<char>, n: int) -> (Seq<(int, int)>, Option<int>)
    decreases n,
{
    if n <= 0 {
        (Seq::empty(), None)
    } else {
        let prev = scan_tokens(s, n - 1);
        if is_white_space(s[n - 1]) {
            match prev.1 {
                Some(st) => (prev.0.push((st, n - 1)), None),
                None => prev,
            }
        } else {
            match prev.1 {
                Some(st) => prev,
                None => (prev.0, Some(n - 1)),
            }
        }
    }
}

/// The maximal runs of non-whitespace characters of `s`, as position ranges.
pub open spec fn ws_tokens(s: Seq<char>) -> Seq<(int, int)> {
    let sc = scan_tokens(s, s.len() as int);
    match sc.1 {
        Some(st) => sc.0.push((st, s.len() as int)),
        None => sc.0,
    }
}

/// Position ranges as integers.
pub open spec fn ranges_view(v: Seq<(usize, usize)>) -> Seq<(int, int)> {
    v.map_values(|p: (usize, usize)| (p.0 as int, p.1 as int))
}

/// The maximal runs of non-whitespace characters of `s`.
pub fn token_ranges(s: &[char]) -> (r: Vec<(usize, usize)>)
    ensures
        ranges_view(r@) == ws_tokens(s@),
{
    let mut toks: Vec<(usize, usize)> = Vec::new();
    let mut cur: Option<usize> = None;
    let mut i: usize = 0;
    while i < s.len()
        invariant
            i <= s@.len(),
            ranges_view(toks@) == scan_tokens(s@, i as int).0,
            match cur {
                Some(c) => scan_tokens(s@, i as int).1 == Some(c as int),
                None => scan_tokens(s@, i as int).1 is None,
            },
        decreases s@.len() - i,
    {
        let ghost old_t = toks@;
        if is_whitespace(s[i]) {
            match cur {
                Some(st) => {
                    toks.push((st, i));
                    cur = None;
                    assert(ranges_view(toks@) =~= ranges_view(old_t).push((st as int, i as int)));
                },
                None => {},
            }
        } else {
            match cur {
                Some(_) => {},
                None => {
                    cur = Some(i);
                },
            }
        }
        i = i + 1;
    }
    match cur {
        Some(st) => {
            let ghost old_t = toks@;
            toks.push((st, s.len()));
            assert(ranges_view(toks@) =~= ranges_view(old_t).push((st as int, s@.len() as int)));
        },
        None => {},
    }
    toks
}

/// Facts about the scan: closed tokens are nonempty, ordered, within the
/// scanned part, and an open token starts after the last closed one.
pub proof fn lemma_scan_tokens_facts(s: Seq<char>, n: int)
    requires
        0 <= n <= s.len(),
    ensures
        ({
            let sc = scan_tokens(s, n);
            &&& forall|i: int|
                0 <= i < sc.0.len() ==> 0 <= #[trigger] sc.0[i].0 < sc.0[i].1 < n
            &&& forall|i: int, j: int|
                0 <= i < j < sc.0.len() ==> #[trigger] sc.0[i].1 < #[trigger] sc.0[j].0
            &&& forall|i: int, k: int|
                0 <= i < sc.0.len() && #[trigger] sc.0[i].0 <= k < sc.0[i].1 ==> !is_white_space(
                    #[trigger] s[k],
                )
            &&& forall|i: int| 0 <= i < sc.0.len() ==> is_white_space(#[trigger] s[sc.0[i].1])
            &&& forall|i: int|
                0 <= i < sc.0.len() && sc.0[i].0 > 0 ==> is_white_space(#[trigger] s[sc.0[i].0 - 1])
            &&& match sc.1 {
                Some(st) => {
                    &&& 0 <= st < n
                    &&& (st > 0 ==> is_white_space(s[st - 1]))
                    &&& forall|k: int| st <= k < n ==> !is_white_space(#[trigger] s[k])
                    &&& forall|i: int| 0 <= i < sc.0.len() ==> #[trigger] sc.0[i].1 < st
                },
                None => n > 0 ==> is_white_space(s[n - 1]),
            }
        }),
    decreases n,
{
    if n > 0 {
        lemma_scan_tokens_facts(s, n - 1);
        let prev = scan_tokens(s, n - 1);
        let sc = scan_tokens(s, n);
        if is_white_space(s[n - 1]) {
            match prev.1 {
                Some(st) => {
                    assert(sc.0 == prev.0.push((st, n - 1)));
                    assert forall|i: int| 0 <= i < sc.0.len() implies 0 <= #[trigger] sc.0[i].0
                        < sc.0[i].1 < n by {
                        if i < prev.0.len() {
                            assert(sc.0[i] == prev.0[i]);
                        }
                    }
                    assert forall|i: int, j: int| 0 <= i < j < sc.0.len() implies #[trigger] sc.0[i].1
                        < #[trigger] sc.0[j].0 by {
                        assert(sc.0[i] == prev.0[i]);
                        if j < prev.0.len() {
                            assert(sc.0[j] == prev.0[j]);
                        }
                    }
                    assert forall|i: int, k: int|
                        0 <= i < sc.0.len() && #[trigger] sc.0[i].0 <= k < sc.0[i].1 implies !is_white_space(
                        #[trigger] s[k],
                    ) by {
                        if i < prev.0.len() {
                            assert(sc.0[i] == prev.0[i]);
                        }
                    }
                    assert forall|i: int| 0 <= i < sc.0.len() implies is_white_space(
                        #[trigger] s[sc.0[i].1],
                    ) by {
                        if i < prev.0.len() {
                            assert(sc.0[i] == prev.0[i]);
                        }
                    }
                    assert forall|i: int| 0 <= i < sc.0.len() && sc.0[i].0 > 0 implies is_white_space(
                        #[trigger] s[sc.0[i].0 - 1],
                    ) by {
                        if i < prev.0.len() {
                            assert(sc.0[i] == prev.0[i]);
                        }
                    }
                },
                None => {},
            }
        } else {
            match prev.1 {
                Some(st) => {},
                None => {
                    assert(sc.0 == prev.0);
                    assert forall|i: int| 0 <= i < sc.0.len() implies #[trigger] sc.0[i].1 < n - 1 by {
                        assert(0 <= prev.0[i].0 < prev.0[i].1 < n - 1);
                    }
                },
            }
        }
    }
}

/// Facts about the tokens: nonempty, ordered and separated, within `s`, made
/// of non-whitespace characters, and maximal.
pub proof fn lemma_ws_tokens_facts(s: Seq<char>)
    ensures
        ({
            let t = ws_tokens(s);
            &&& forall|i: int| 0 <= i < t.len() ==> 0 <= #[trigger] t[i].0 < t[i].1 <= s.len()
            &&& forall|i: int, j: int|
                0 <= i < j < t.len() ==> #[trigger] t[i].1 < #[trigger] t[j].0
            &&& forall|i: int, k: int|
                0 <= i < t.len() && #[trigger] t[i].0 <= k < t[i].1 ==> !is_white_space(
                    #[trigger] s[k],
                )
            &&& forall|i: int|
                0 <= i < t.len() && t[i].1 < s.len() ==> is_white_space(#[trigger] s[t[i].1])
            &&& forall|i: int|
                0 <= i < t.len() && t[i].0 > 0 ==> is_white_space(#[trigger] s[t[i].0 - 1])
        }),
{
    lemma_scan_tokens_facts(s, s.len() as int);
}

} // verus!
