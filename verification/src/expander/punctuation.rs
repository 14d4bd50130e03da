//! Brackets and double quotes become spoken Hebrew words.

use vstd::prelude::*;

use crate::text::{is_white_space, is_whitespace, str_chars, push_char};

verus! {

/// What the character at `i` is read as: brackets and double quotes become
/// words between spaces (a double quote followed by a non-space character
/// opens a quotation, any other closes one); other characters stay.
pub open spec fn punctuation_piece(cs: Seq<char>, i: int) -> Seq<char> {
    let c = cs[i];
    if c == '[' {
        " בסוגריים מרובעים "@
    } else if c == ']' {
        " סוגר סוגריים מרובעים "@
    } else if c == '(' {
        " בסוגריים "@
    } else if c == ')' {
        " סוגר סוגריים "@
    } else if c == '{' {
        " בסוגריים מסולסלים "@
    } else if c == '}' {
        " סוגר סוגריים מסולסלים "@
    } else if c == '"' {
        if i + 1 < cs.len() && !is_white_space(cs[i + 1]) {
            " בגרשיים "@
        } else {
            " סוגר גרשיים "@
        }
    } else {
        seq![c]
    }
}

/// The reading of the first `n` characters of `cs`.
pub open spec fn punctuation_upto(cs: Seq<char>, n: int) -> Seq<char>
    decreases n,
{
    if n <= 0 {
        Seq::empty()
    } else {
        punctuation_upto(cs, n - 1) + punctuation_piece(cs, n - 1)
    }
}

/// `text` with its brackets and double quotes read out.
pub open spec fn punctuation_spec(text: Seq<char>) -> Seq<char> {
    punctuation_upto(text, text.len() as int)
}

/// The characters that `expand_punctuation` replaces.
pub open spec fn is_punctuation_mark(c: char) -> bool {
    c == '[' || c == ']' || c == '(' || c == ')' || c == '{' || c == '}' || c == '"'
}

/// Replace brackets and quotes with Hebrew spoken equivalents.
pub fn expand_punctuation(text: &str) -> (r: String)
    ensures
        r@ == punctuation_spec(text@),
{
    let chars = str_chars(text);
    let len = chars.len();
    let mut result = String::new();
    let mut i: usize = 0;
    while i < len
        invariant
            i <= len == chars@.len(),
            chars@ == text@,
            result@ == punctuation_upto(chars@, i as int),
        decreases len - i,
    {
        let c = chars[i];
        if c == '[' {
            result.append(" בסוגריים מרובעים ");
        } else if c == ']' {
            result.append(" סוגר סוגריים מרובעים ");
        } else if c == '(' {
            result.append(" בסוגריים ");
        } else if c == ')' {
            result.append(" סוגר סוגריים ");
        } else if c == '{' {
            result.append(" בסוגריים מסולסלים ");
        } else if c == '}' {
            result.append(" סוגר סוגריים מסולסלים ");
        } else if c == '"' {
            // Determine open vs close: if followed by non-space, it's opening
            if i + 1 < len && !is_whitespace(chars[i + 1]) {
                result.append(" בגרשיים ");
            } else {
                result.append(" סוגר גרשיים ");
            }
        } else {
            push_char(&mut result, c);
        }
        i = i + 1;
    }
    result
}

/// Text without brackets or double quotes is left unchanged.
pub proof fn lemma_punctuation_identity(text: Seq<char>)
    requires
        forall|i: int| 0 <= i < text.len() ==> !is_punctuation_mark(#[trigger] text[i]),
    ensures
        punctuation_spec(text) == text,
{
    lemma_punctuation_upto_identity(text, text.len() as int);
    assert(text.take(text.len() as int) =~= text);
}

proof fn lemma_punctuation_upto_identity(text: Seq<char>, n: int)
    requires
        0 <= n <= text.len(),
        forall|i: int| 0 <= i < text.len() ==> !is_punctuation_mark(#[trigger] text[i]),
    ensures
        punctuation_upto(text, n) == text.take(n),
    decreases n,
{
    if n > 0 {
        lemma_punctuation_upto_identity(text, n - 1);
        assert(!is_punctuation_mark(text[n - 1]));
        assert(text.take(n) =~= text.take(n - 1) + seq![text[n - 1]]);
    } else {
        assert(text.take(n) =~= Seq::<char>::empty());
    }
}

proof fn lemma_single_prefix(cs: Seq<char>)
    requires
        cs.len() >= 1,
    ensures
        punctuation_upto(cs, 1) == punctuation_piece(cs, 0),
{
    assert(punctuation_upto(cs, 0) == Seq::<char>::empty());
    assert(punctuation_upto(cs, 1) == punctuation_upto(cs, 0) + punctuation_piece(cs, 0));
    assert(Seq::<char>::empty() + punctuation_piece(cs, 0) =~= punctuation_piece(cs, 0));
}

proof fn lemma_single(cs: Seq<char>)
    requires
        cs.len() == 1,
    ensures
        punctuation_spec(cs) == punctuation_piece(cs, 0),
{
    lemma_single_prefix(cs);
}

/// Each bracket reads as its fixed words; a double quote followed by a
/// non-space character opens a quotation and one at the end closes it.
pub proof fn lemma_punctuation_words()
    ensures
        punctuation_spec(seq!['[']) == " בסוגריים מרובעים "@,
        punctuation_spec(seq![']']) == " סוגר סוגריים מרובעים "@,
        punctuation_spec(seq!['(']) == " בסוגריים "@,
        punctuation_spec(seq![')']) == " סוגר סוגריים "@,
        punctuation_spec(seq!['{']) == " בסוגריים מסולסלים "@,
        punctuation_spec(seq!['}']) == " סוגר סוגריים מסולסלים "@,
        punctuation_spec(seq!['"', 'x']) == " בגרשיים "@ + seq!['x'],
        punctuation_spec(seq!['"']) == " סוגר גרשיים "@,
{
    lemma_single(seq!['[']);
    lemma_single(seq![']']);
    lemma_single(seq!['(']);
    lemma_single(seq![')']);
    lemma_single(seq!['{']);
    lemma_single(seq!['}']);
    assert(punctuation_upto(seq!['"', 'x'], 1) =~= " בגרשיים "@) by {
        lemma_single_prefix(seq!['"', 'x']);
    }
    lemma_single(seq!['"']);
}

} // verus!
