//! Dictionary-based word expansion.
//!
//! JSON dictionaries (symbols, special words, abbreviations) map Hebrew words
//! or symbols directly to IPA phonemes, bypassing phonemization. The built-in
//! dictionaries are part of the library; further dictionaries, given as JSON
//! text, are merged on top of them (later entries override earlier ones).

use vstd::prelude::*;

use crate::text::{join, join_strings, str_chars, token_ranges, views, ws_tokens, ranges_view, chars_to_string};

verus! {

/// Built-in symbols (currency and math signs).
pub const SYMBOLS_JSON: &'static str = "{\"₪\": \"ʃˈekel\", \"$\": \"dˈolar\", \"%\": \"axˈuz\"}";

/// Built-in loanwords and slang.
pub const SPECIAL_JSON: &'static str = "{\"יאללה\": \"jˈala\"}";

/// Built-in abbreviations (rashei tevot).
pub const RASHEJ_TEVOT_JSON: &'static str = "{\"צה״ל\": \"tsˈahal\"}";

/// The entries of a JSON object whose values are all strings, in the order
/// `serde_json` yields them into a `BTreeMap<String, String>`; `None` when the
/// text is not such an object.
pub uninterp spec fn json_string_map(json: Seq<char>) -> Option<Seq<(Seq<char>, Seq<char>)>>;

/// Pairs of strings as plain values.
pub open spec fn pair_views(v: Seq<(String, String)>) -> Seq<(Seq<char>, Seq<char>)> {
    v.map_values(|p: (String, String)| (p.0@, p.1@))
}

/// `serde_json::from_str::<BTreeMap<String, String>>(json)`, entries in map order.
///
/// Claimed: `None` exactly when parsing fails; otherwise the entries equal
/// `json_string_map(json)` (a name: the JSON grammar is not written out).
#[verifier::external_body]
fn parse_string_map(json: &str) -> (r: Option<Vec<(String, String)>>)
    ensures
        match r {
            None => json_string_map(json@) is None,
            Some(v) => json_string_map(json@) == Some(pair_views(v@)),
        },
{
    serde_json::from_str::<std::collections::BTreeMap<String, String>>(json).ok().map(
        |m| m.into_iter().collect(),
    )
}

/// `m` with the pairs inserted in order, later pairs overriding.
pub open spec fn extended(m: Map<Seq<char>, Seq<char>>, ps: Seq<(Seq<char>, Seq<char>)>) -> Map<
    Seq<char>,
    Seq<char>,
>
    decreases ps.len(),
{
    if ps.len() == 0 {
        m
    } else {
        extended(m, ps.drop_last()).insert(ps.last().0, ps.last().1)
    }
}

/// The entries of a JSON dictionary, or none when it does not parse.
pub open spec fn json_entries(json: Seq<char>) -> Seq<(Seq<char>, Seq<char>)> {
    match json_string_map(json) {
        Some(ps) => ps,
        None => Seq::empty(),
    }
}

/// `m` with the entries of the JSON texts merged in order.
pub open spec fn jsons_extended(m: Map<Seq<char>, Seq<char>>, texts: Seq<Seq<char>>) -> Map<
    Seq<char>,
    Seq<char>,
>
    decreases texts.len(),
{
    if texts.len() == 0 {
        m
    } else {
        extended(jsons_extended(m, texts.drop_last()), json_entries(texts.last()))
    }
}

/// The total number of entries the JSON texts hold.
pub open spec fn jsons_entry_count(texts: Seq<Seq<char>>) -> nat
    decreases texts.len(),
{
    if texts.len() == 0 {
        0
    } else {
        jsons_entry_count(texts.drop_last()) + json_entries(texts.last()).len()
    }
}

/// The built-in dictionary: symbols, then special words, then abbreviations.
pub open spec fn builtin_map() -> Map<Seq<char>, Seq<char>> {
    extended(
        extended(
            extended(Map::empty(), json_entries(SYMBOLS_JSON@)),
            json_entries(SPECIAL_JSON@),
        ),
        json_entries(RASHEJ_TEVOT_JSON@),
    )
}

/// Inserting two runs of pairs is inserting their concatenation.
pub proof fn lemma_extended_concat(
    m: Map<Seq<char>, Seq<char>>,
    a: Seq<(Seq<char>, Seq<char>)>,
    b: Seq<(Seq<char>, Seq<char>)>,
)
    ensures
        extended(m, a + b) == extended(extended(m, a), b),
    decreases b.len(),
{
    if b.len() == 0 {
        assert(a + b =~= a);
    } else {
        assert((a + b).drop_last() =~= a + b.drop_last());
        lemma_extended_concat(m, a, b.drop_last());
    }
}

/// Pairs after position `i` with another key do not affect key `k`.
proof fn lemma_extended_skip(
    m: Map<Seq<char>, Seq<char>>,
    ps: Seq<(Seq<char>, Seq<char>)>,
    k: Seq<char>,
    i: int,
)
    requires
        0 <= i <= ps.len(),
        forall|j: int| i <= j < ps.len() ==> #[trigger] ps[j].0 != k,
    ensures
        extended(m, ps).contains_key(k) == extended(m, ps.take(i)).contains_key(k),
        extended(m, ps).contains_key(k) ==> extended(m, ps)[k] == extended(m, ps.take(i))[k],
    decreases ps.len() - i,
{
    if i < ps.len() {
        lemma_extended_skip(m, ps, k, i + 1);
        assert(ps.take(i + 1).drop_last() =~= ps.take(i));
        assert(ps.take(i + 1).last() == ps[i]);
    } else {
        assert(ps.take(i) =~= ps);
    }
}

/// A word → IPA dictionary.
pub struct Dictionary {
    entries: Vec<(String, String)>,
}

impl View for Dictionary {
    type V = Map<Seq<char>, Seq<char>>;

    closed spec fn view(&self) -> Map<Seq<char>, Seq<char>> {
        extended(Map::empty(), pair_views(self.entries@))
    }
}

impl Dictionary {
    /// An empty dictionary.
    pub fn new() -> (d: Dictionary)
        ensures
            d@ == Map::<Seq<char>, Seq<char>>::empty(),
    {
        let d = Dictionary { entries: Vec::new() };
        assert(pair_views(d.entries@) =~= Seq::<(Seq<char>, Seq<char>)>::empty());
        d
    }

    /// The built-in dictionaries, merged in order.
    pub fn builtin() -> (d: Dictionary)
        ensures
            d@ == builtin_map(),
    {
        let mut d = Dictionary::new();
        d.extend_from_json(SYMBOLS_JSON);
        d.extend_from_json(SPECIAL_JSON);
        d.extend_from_json(RASHEJ_TEVOT_JSON);
        d
    }

    /// Adds or replaces the entry of `key`.
    pub fn insert(&mut self, key: String, value: String)
        ensures
            final(self)@ == old(self)@.insert(key@, value@),
    {
        let ghost old_e = self.entries@;
        self.entries.push((key, value));
        assert(pair_views(self.entries@).drop_last() =~= pair_views(old_e));
    }

    /// Inserts the pairs in order, later ones overriding earlier ones.
    pub fn extend_pairs(&mut self, pairs: &Vec<(String, String)>)
        ensures
            final(self)@ == extended(old(self)@, pair_views(pairs@)),
    {
        let mut i: usize = 0;
        let ghost start = self@;
        while i < pairs.len()
            invariant
                i <= pairs@.len(),
                self@ == extended(start, pair_views(pairs@).take(i as int)),
            decreases pairs@.len() - i,
        {
            let k = pairs[i].0.clone();
            let v = pairs[i].1.clone();
            assert(pair_views(pairs@).take(i + 1).drop_last() =~= pair_views(pairs@).take(i as int));
            self.insert(k, v);
            i = i + 1;
        }
        assert(pair_views(pairs@).take(pairs@.len() as int) =~= pair_views(pairs@));
    }

    /// Merges a JSON object of strings into the dictionary, its entries
    /// overriding existing ones; returns the number of entries it holds (0
    /// when it does not parse, leaving the dictionary unchanged).
    pub fn extend_from_json(&mut self, json: &str) -> (count: usize)
        ensures
            final(self)@ == extended(old(self)@, json_entries(json@)),
            count == json_entries(json@).len(),
    {
        match parse_string_map(json) {
            None => 0,
            Some(pairs) => {
                self.extend_pairs(&pairs);
                pairs.len()
            },
        }
    }

    /// Merges JSON texts into the dictionary in order, each as
    /// `extend_from_json` does; returns the total number of entries they
    /// hold (at most `usize::MAX`).
    pub fn extend_from_jsons(&mut self, texts: &Vec<String>) -> (count: usize)
        ensures
            final(self)@ == jsons_extended(old(self)@, views(texts@)),
            count == if jsons_entry_count(views(texts@)) <= usize::MAX {
                jsons_entry_count(views(texts@))
            } else {
                usize::MAX as nat
            },
    {
        let ghost start = self@;
        let ghost tv = views(texts@);
        let mut count: usize = 0;
        let mut i: usize = 0;
        while i < texts.len()
            invariant
                i <= texts@.len(),
                tv == views(texts@),
                self@ == jsons_extended(start, tv.take(i as int)),
                count == if jsons_entry_count(tv.take(i as int)) <= usize::MAX {
                    jsons_entry_count(tv.take(i as int))
                } else {
                    usize::MAX as nat
                },
            decreases texts@.len() - i,
        {
            assert(tv.take(i + 1).drop_last() =~= tv.take(i as int));
            assert(tv.take(i + 1).last() == texts@[i as int]@);
            let n = self.extend_from_json(texts[i].as_str());
            count = if count <= usize::MAX - n {
                count + n
            } else {
                usize::MAX
            };
            i = i + 1;
        }
        assert(tv.take(texts@.len() as int) =~= tv);
        count
    }

    /// The IPA of `word`, if the dictionary holds it.
    pub fn get(&self, word: &str) -> (r: Option<String>)
        ensures
            match r {
                Some(v) => self@.contains_key(word@) && self@[word@] == v@,
                None => !self@.contains_key(word@),
            },
    {
        let key = String::from_str(word);
        let ghost ps = pair_views(self.entries@);
        let mut i = self.entries.len();
        while i > 0
            invariant
                i <= self.entries@.len(),
                ps == pair_views(self.entries@),
                key@ == word@,
                forall|j: int| i <= j < ps.len() ==> #[trigger] ps[j].0 != word@,
            decreases i,
        {
            i = i - 1;
            if self.entries[i].0 == key {
                proof {
                    lemma_extended_skip(Map::empty(), ps, word@, i + 1);
                    assert(ps.take(i + 1).drop_last() =~= ps.take(i as int));
                    assert(ps.take(i + 1).last() == ps[i as int]);
                }
                return Some(self.entries[i].1.clone());
            }
        }
        proof {
            lemma_extended_skip(Map::empty(), ps, word@, 0);
            assert(ps.take(0) =~= Seq::<(Seq<char>, Seq<char>)>::empty());
        }
        None
    }
}

/// What the dictionary reads a word as: its IPA, or the word itself.
pub open spec fn lookup_or_word(dict: Map<Seq<char>, Seq<char>>, w: Seq<char>) -> Seq<char> {
    if dict.contains_key(w) {
        dict[w]
    } else {
        w
    }
}

/// Look up a word in the built-in dictionary. Returns IPA phonemes if found.
pub fn lookup(word: &str) -> (r: Option<String>)
    ensures
        match r {
            Some(v) => builtin_map().contains_key(word@) && builtin_map()[word@] == v@,
            None => !builtin_map().contains_key(word@),
        },
{
    Dictionary::builtin().get(word)
}

/// The whitespace-separated words of `text`, each read by the dictionary,
/// joined by single spaces.
pub open spec fn dictionary_words_spec(dict: Map<Seq<char>, Seq<char>>, text: Seq<char>) -> Seq<
    char,
> {
    join(
        ws_tokens(text).map_values(
            |r: (int, int)| lookup_or_word(dict, text.subrange(r.0, r.1)),
        ),
        seq![' '],
    )
}

/// Expand known dictionary words in `text`, replacing them with IPA.
/// Words not in the dictionary are left unchanged.
pub fn expand_dictionary_with(dict: &Dictionary, text: &str) -> (r: String)
    ensures
        r@ == dictionary_words_spec(dict@, text@),
{
    proof {
        reveal_strlit(" ");
        assert(" "@ =~= seq![' ']);
    }
    let chars = str_chars(text);
    let toks = token_ranges(&chars);
    let ghost tv = ranges_view(toks@);
    let mut words: Vec<String> = Vec::new();
    let mut i: usize = 0;
    proof {
        crate::text::lemma_ws_tokens_facts(chars@);
    }
    while i < toks.len()
        invariant
            i <= toks@.len(),
            tv == ranges_view(toks@),
            tv == ws_tokens(chars@),
            chars@ == text@,
            forall|j: int| 0 <= j < tv.len() ==> 0 <= #[trigger] tv[j].0 < tv[j].1 <= chars@.len(),
            views(words@) =~= tv.take(i as int).map_values(
                |r: (int, int)| lookup_or_word(dict@, chars@.subrange(r.0, r.1)),
            ),
        decreases toks@.len() - i,
    {
        let (a, b) = toks[i];
        assert(tv[i as int] == (a as int, b as int));
        let w = chars_to_string(&chars.as_slice()[a..b]);
        let ghost old_w = words@;
        match dict.get(w.as_str()) {
            Some(ipa) => words.push(ipa),
            None => words.push(w),
        }
        assert(views(words@) =~= views(old_w).push(
            lookup_or_word(dict@, chars@.subrange(a as int, b as int)),
        ));
        assert(tv.take(i + 1) =~= tv.take(i as int).push(tv[i as int]));
        i = i + 1;
    }
    assert(tv.take(toks@.len() as int) =~= tv);
    join_strings(&words, " ")
}

/// Expand known words of the built-in dictionary in `text`, replacing them
/// with IPA. Words not in the dictionary are left unchanged.
pub fn expand_dictionary(text: &str) -> (r: String)
    ensures
        r@ == dictionary_words_spec(builtin_map(), text@),
{
    expand_dictionary_with(&Dictionary::builtin(), text)
}

/// Later entries override earlier ones: after inserting `ps`, the key of
/// entry `i` reads as that entry when no later entry has the same key.
pub proof fn lemma_later_entries_override(
    m: Map<Seq<char>, Seq<char>>,
    ps: Seq<(Seq<char>, Seq<char>)>,
    i: int,
)
    requires
        0 <= i < ps.len(),
        forall|j: int| i < j < ps.len() ==> #[trigger] ps[j].0 != ps[i].0,
    ensures
        extended(m, ps).contains_key(ps[i].0),
        extended(m, ps)[ps[i].0] == ps[i].1,
{
    lemma_extended_skip(m, ps, ps[i].0, i + 1);
    assert(ps.take(i + 1).drop_last() =~= ps.take(i));
    assert(ps.take(i + 1).last() == ps[i]);
}

/// Keys that no inserted entry has keep what they read as before.
pub proof fn lemma_other_keys_kept(
    m: Map<Seq<char>, Seq<char>>,
    ps: Seq<(Seq<char>, Seq<char>)>,
    k: Seq<char>,
)
    requires
        forall|j: int| 0 <= j < ps.len() ==> #[trigger] ps[j].0 != k,
    ensures
        extended(m, ps).contains_key(k) == m.contains_key(k),
        m.contains_key(k) ==> extended(m, ps)[k] == m[k],
{
    lemma_extended_skip(m, ps, k, 0);
    assert(ps.take(0) =~= Seq::<(Seq<char>, Seq<char>)>::empty());
}

} // verus!
