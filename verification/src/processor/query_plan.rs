//! The boolean query language: the entries of a query (words, and phrases
//! in double quotes), the expansion of wildcards, the terms of phrase and
//! NEAR literals, and how the documents found for the entries combine.
use vstd::prelude::*;
use crate::index::k_gram_index::KGramIndex;
use crate::parser::query_parser::take_chars;
use crate::processor::query_processor::{get_wildcards, string_views, wildcard_defined, wildcards_spec};
use crate::parser::document_parser::{EnglishStemmer, english_stem, normalize_spec, normalize_token, stem_terms_with};
use crate::processor::query_processor::{has_infix, holds_term, infix_of};
use crate::text::{
    byte_len, byte_len_within, chars_of, contains_char, join_chars, join_spec, lemma_byte_len_ascii,
    one_byte_each, replace_chars, replace_spec, split_chars, split_spec, split_whitespace,
    string_from_chars, words_spec,
};

verus! {

/// A token that opens a quoted phrase: it starts with `"` or with `-"`.
pub open spec fn opens_quote(t: Seq<char>) -> bool {
    (t.len() > 0 && t[0] == '"') || (t.len() >= 2 && t[0] == '-' && t[1] == '"')
}

/// A token that closes a quoted phrase: it ends with `"`.
pub open spec fn closes_quote(t: Seq<char>) -> bool {
    t.len() > 0 && t.last() == '"'
}

/// The opening token of a phrase without its quote: `"x` gives `x`, `-"x`
/// gives `-x`.
pub open spec fn unquote(t: Seq<char>) -> Seq<char> {
    if t.len() > 0 && t[0] == '"' {
        t.skip(1)
    } else {
        seq!['-'] + t.skip(2)
    }
}

/// The closing token of a phrase cut to one character fewer than its byte
/// length, as `str::len` counts it.
pub open spec fn unquote_end(t: Seq<char>) -> Seq<char> {
    take_chars(t, byte_len(t) - 1)
}

/// After the first `n` tokens: the entries found, the words of the phrase
/// being read, and whether a phrase is being read.  A phrase that is never
/// closed is dropped.
pub open spec fn entry_state(ts: Seq<Seq<char>>, n: int) -> (Seq<Seq<char>>, Seq<Seq<char>>, bool)
    decreases n,
{
    if n <= 0 {
        (Seq::empty(), Seq::empty(), false)
    } else {
        let (es, b, q) = entry_state(ts, n - 1);
        let t = ts[n - 1];
        if !q {
            if opens_quote(t) {
                (es, b.push(unquote(t)), true)
            } else {
                (es.push(t), b, false)
            }
        } else if closes_quote(t) {
            (es.push(join_spec(b.push(unquote_end(t)), seq![' '])), Seq::empty(), false)
        } else {
            (es, b.push(t), true)
        }
    }
}

/// The entries of a query: its words, where the words from one that opens
/// a quote up to one that closes it make one entry, joined by spaces.
pub open spec fn and_entries_spec(query: Seq<char>) -> Seq<Seq<char>> {
    entry_state(words_spec(query), words_spec(query).len() as int).0
}

/// Whether the token opens a quoted phrase.
fn token_opens_quote(t: &Vec<char>) -> (r: bool)
    ensures
        r == opens_quote(t@),
{
    (t.len() > 0 && t[0] == '"') || (t.len() >= 2 && t[0] == '-' && t[1] == '"')
}

/// The opening token of a phrase without its quote.
fn token_unquote(t: &Vec<char>) -> (r: Vec<char>)
    requires
        opens_quote(t@),
    ensures
        r@ == unquote(t@),
{
    let mut r: Vec<char> = Vec::new();
    let mut i: usize;
    if t[0] == '"' {
        i = 1;
    } else {
        r.push('-');
        i = 2;
    }
    let ghost start = i as int;
    let ghost head = r@;
    while i < t.len()
        invariant
            start <= i <= t@.len(),
            start == 1 || start == 2,
            r@ == head + t@.subrange(start, i as int),
        decreases t@.len() - i,
    {
        r.push(t[i]);
        assert(t@.subrange(start, i + 1) =~= t@.subrange(start, i as int).push(t@[i as int]));
        i = i + 1;
    }
    if t[0] == '"' {
        assert(r@ =~= t@.skip(1));
    } else {
        assert(r@ =~= seq!['-'] + t@.skip(2));
    }
    r
}

/// The closing token of a phrase without its last character (see
/// `unquote_end`).
fn token_unquote_end(t: &Vec<char>) -> (r: Vec<char>)
    requires
        closes_quote(t@),
    ensures
        r@ == unquote_end(t@),
{
    proof {
        lemma_byte_len_ascii(t@);
    }
    let n = t.len();
    let keep = if one_byte_each(t) { n - 1 } else { n };
    let r = crate::text::chars_range(t, 0, keep);
    assert(r@ =~= take_chars(t@, byte_len(t@) - 1));
    r
}

/// The entries of a query (see `and_entries_spec`).
pub fn and_entries(query: &str) -> (entries: Vec<String>)
    ensures
        string_views(entries@) == and_entries_spec(query@),
{
    let ts = split_whitespace(query);
    let ghost tv = ts@.map_values(|v: Vec<char>| v@);
    let sep: Vec<char> = vec![' '];
    let mut entries: Vec<String> = Vec::new();
    let mut builder: Vec<Vec<char>> = Vec::new();
    let mut quoted = false;
    let mut k: usize = 0;
    assert(string_views(entries@) =~= Seq::<Seq<char>>::empty());
    assert(builder@.map_values(|v: Vec<char>| v@) =~= Seq::<Seq<char>>::empty());
    while k < ts.len()
        invariant
            k <= ts@.len(),
            tv == ts@.map_values(|v: Vec<char>| v@),
            tv == words_spec(query@),
            sep@ == seq![' '],
            entry_state(tv, k as int) == (string_views(entries@), builder@.map_values(|v: Vec<char>| v@), quoted),
        decreases ts@.len() - k,
    {
        let t = &ts[k];
        assert(tv[k as int] == t@);
        let ghost ev = string_views(entries@);
        let ghost bv = builder@.map_values(|v: Vec<char>| v@);
        if !quoted {
            if token_opens_quote(t) {
                builder.push(token_unquote(t));
                assert(builder@.map_values(|v: Vec<char>| v@) =~= bv.push(unquote(t@)));
                quoted = true;
            } else {
                entries.push(string_from_chars(t.as_slice()));
                assert(string_views(entries@) =~= ev.push(t@));
            }
        } else if t.len() > 0 && t[t.len() - 1] == '"' {
            builder.push(token_unquote_end(t));
            let joined = join_chars(&builder, &sep);
            assert(builder@.map_values(|v: Vec<char>| v@) =~= bv.push(unquote_end(t@)));
            entries.push(string_from_chars(joined.as_slice()));
            assert(string_views(entries@) =~= ev.push(join_spec(bv.push(unquote_end(t@)), seq![' '])));
            builder = Vec::new();
            assert(builder@.map_values(|v: Vec<char>| v@) =~= Seq::<Seq<char>>::empty());
            quoted = false;
        } else {
            let mut copy: Vec<char> = Vec::new();
            copy.extend_from_slice(t.as_slice());
            assert forall|q: int| 0 <= q < t@.len() implies copy@[q] == t@[q] by {
                assert(cloned::<char>(t@[q], copy@[q]));
            }
            assert(copy@ =~= t@);
            builder.push(copy);
            assert(builder@.map_values(|v: Vec<char>| v@) =~= bv.push(t@));
        }
        k = k + 1;
    }
    entries
}

/// The entries with each one that holds `*` replaced by the terms that it
/// stands for, when the k-gram index is switched on; unchanged otherwise.
pub open spec fn expand_entries(
    kg: Map<Seq<char>, Seq<Seq<char>>>,
    enabled: bool,
    entries: Seq<Seq<char>>,
) -> Seq<Seq<char>>
    decreases entries.len(),
{
    if !enabled || entries.len() == 0 {
        entries
    } else {
        let last = entries.last();
        expand_entries(kg, enabled, entries.drop_last()) + if last.contains('*') {
            wildcards_spec(kg, last)
        } else {
            seq![last]
        }
    }
}

/// Replaces the wildcard entries by their terms (see `expand_entries`).
pub fn expand_wildcard_entries(entries: Vec<String>, kgram: &KGramIndex) -> (expanded: Vec<String>)
    requires
        kgram.wf(),
        kgram.enabled() ==> forall|i: int|
            0 <= i < entries@.len() && (#[trigger] entries@[i])@.contains('*') ==> wildcard_defined(entries@[i]@),
    ensures
        string_views(expanded@) == expand_entries(kgram.gram_view(), kgram.enabled(), string_views(entries@)),
{
    if !kgram.is_enabled() {
        return entries;
    }
    let ghost ev = string_views(entries@);
    let mut out: Vec<String> = Vec::new();
    let mut i: usize = 0;
    assert(ev.take(0) =~= Seq::<Seq<char>>::empty());
    while i < entries.len()
        invariant
            i <= entries@.len(),
            kgram.wf(),
            kgram.enabled(),
            ev == string_views(entries@),
            forall|j: int| 0 <= j < entries@.len() && (#[trigger] entries@[j])@.contains('*') ==> wildcard_defined(entries@[j]@),
            string_views(out@) == expand_entries(kgram.gram_view(), true, ev.take(i as int)),
        decreases entries@.len() - i,
    {
        let ghost before = string_views(out@);
        assert(ev.take(i + 1).drop_last() =~= ev.take(i as int));
        assert(ev.take(i + 1).last() == entries@[i as int]@);
        let cs = chars_of(entries[i].as_str());
        if contains_char(&cs, '*') {
            let mut found = get_wildcards(entries[i].as_str(), kgram);
            let ghost fv = string_views(found@);
            out.append(&mut found);
            assert(string_views(out@) =~= before + fv);
        } else {
            out.push(entries[i].clone());
            assert(string_views(out@) =~= before + seq![entries@[i as int]@]);
        }
        i = i + 1;
    }
    assert(ev.take(entries@.len() as int) =~= ev);
    out
}

/// An entry that starts with `-` asks for the documents without it.
pub open spec fn negated_entry(e: Seq<char>) -> bool {
    e.len() > 0 && e[0] == '-'
}

/// An entry of more than one word is a phrase.
pub open spec fn phrase_entry(e: Seq<char>) -> bool {
    words_spec(e).len() > 1
}

/// Whether an entry is negated and whether it is a phrase.
pub fn classify_entry(entry: &str) -> (r: (bool, bool))
    ensures
        r.0 == negated_entry(entry@),
        r.1 == phrase_entry(entry@),
{
    let cs = chars_of(entry);
    let negated = cs.len() > 0 && cs[0] == '-';
    let words = split_whitespace(entry);
    assert(words@.map_values(|v: Vec<char>| v@).len() == words@.len());
    (negated, words.len() > 1)
}

/// A word can be normalized and stemmed without panicking: it takes at most
/// `i32::MAX` bytes and none of its normalized forms holds a NUL character.
pub open spec fn stemmable(word: Seq<char>) -> bool {
    &&& byte_len(word) <= i32::MAX
    &&& forall|i: int| 0 <= i < normalize_spec(word, byte_len(word)).len()
        ==> !(#[trigger] normalize_spec(word, byte_len(word))[i]).contains('\0')
}

/// The stem of the first normalized form of a word.
pub open spec fn first_stem(word: Seq<char>) -> Seq<char> {
    english_stem(normalize_spec(word, byte_len(word))[0])
}

/// The stem of the first normalized form of `word`, with `stemmer`; `None`
/// when the word cannot be stemmed (see `stemmable`).
fn stem_first(stemmer: &mut EnglishStemmer, word: &Vec<char>) -> (r: Option<String>)
    ensures
        match r {
            Some(s) => stemmable(word@) && s@ == first_stem(word@),
            None => !stemmable(word@),
        },
{
    if !byte_len_within(word, 2147483647) {
        return None;
    }
    let s = string_from_chars(word.as_slice());
    let normalized = normalize_token(s);
    let ghost nv = normalized@.map_values(|x: String| x@);
    assert(nv == normalize_spec(word@, byte_len(word@)));
    let mut i: usize = 0;
    while i < normalized.len()
        invariant
            i <= normalized@.len(),
            nv == normalized@.map_values(|x: String| x@),
            nv == normalize_spec(word@, byte_len(word@)),
            forall|j: int| 0 <= j < i ==> !(#[trigger] normalized@[j])@.contains('\0'),
        decreases normalized@.len() - i,
    {
        let cs = chars_of(normalized[i].as_str());
        if contains_char(&cs, '\0') {
            assert(nv[i as int] == normalized@[i as int]@);
            assert(nv[i as int].contains('\0'));
            assert(!stemmable(word@));
            return None;
        }
        i = i + 1;
    }
    assert forall|j: int| 0 <= j < nv.len() implies !(#[trigger] nv[j]).contains('\0') by {
        assert(nv[j] == normalized@[j]@);
    }
    assert(nv.len() >= 1);
    let stemmed = stem_terms_with(stemmer, normalized);
    let ghost sv = stemmed@.map_values(|x: String| x@);
    assert(sv.len() == stemmed@.len());
    assert(sv.len() == nv.len());
    assert(sv[0] == stemmed@[0]@);
    assert(sv[0] == english_stem(normalized@[0]@));
    assert(normalized@[0]@ == nv[0]);
    let first = stemmed[0].clone();
    Some(first)
}

/// The stems of the words of a phrase literal, split at each space.
pub open spec fn phrase_terms_spec(literal: Seq<char>) -> Seq<Seq<char>> {
    split_spec(literal, ' ').map_values(|w: Seq<char>| first_stem(w))
}

/// The stems of the words of a phrase literal (see `phrase_terms_spec`);
/// `None` exactly when one of them cannot be stemmed.
pub fn phrase_terms(literal: &str) -> (terms: Option<Vec<String>>)
    ensures
        terms is Some <==> forall|i: int| 0 <= i < split_spec(literal@, ' ').len() ==> stemmable(#[trigger] split_spec(literal@, ' ')[i]),
        terms matches Some(v) ==> string_views(v@) == phrase_terms_spec(literal@),
{
    let mut stemmer = match EnglishStemmer::new() {
        None => return None,
        Some(s) => s,
    };
    phrase_terms_with(&mut stemmer, literal)
}

/// The stems of the words of a phrase literal, with `stemmer` (see
/// `phrase_terms_spec`); `None` exactly when one of them cannot be stemmed.
pub fn phrase_terms_with(stemmer: &mut EnglishStemmer, literal: &str) -> (terms: Option<Vec<String>>)
    ensures
        terms is Some <==> forall|i: int| 0 <= i < split_spec(literal@, ' ').len() ==> stemmable(#[trigger] split_spec(literal@, ' ')[i]),
        terms matches Some(v) ==> string_views(v@) == phrase_terms_spec(literal@),
{
    let cs = chars_of(literal);
    let words = split_chars(&cs, ' ');
    let ghost wv = words@.map_values(|v: Vec<char>| v@);
    assert(wv == split_spec(literal@, ' '));
    let mut out: Vec<String> = Vec::new();
    let mut i: usize = 0;
    while i < words.len()
        invariant
            i <= words@.len(),
            wv == words@.map_values(|v: Vec<char>| v@),
            wv == split_spec(literal@, ' '),
            forall|j: int| 0 <= j < i ==> stemmable(#[trigger] wv[j]),
            string_views(out@) == wv.take(i as int).map_values(|w: Seq<char>| first_stem(w)),
        decreases words@.len() - i,
    {
        assert(wv[i as int] == words@[i as int]@);
        match stem_first(stemmer, &words[i]) {
            None => {
                assert(!stemmable(split_spec(literal@, ' ')[i as int]));
                return None;
            },
            Some(t) => {
                let ghost before = string_views(out@);
                out.push(t);
                assert(string_views(out@) =~= before.push(first_stem(wv[i as int])));
                assert(wv.take(i + 1).map_values(|w: Seq<char>| first_stem(w)) =~= wv.take(i as int).map_values(|w: Seq<char>| first_stem(w)).push(first_stem(wv[i as int])));
            },
        }
        i = i + 1;
    }
    assert(wv.take(words@.len() as int) =~= wv);
    Some(out)
}

/// Whether every character of `s` is an ASCII digit.
pub open spec fn all_digits(s: Seq<char>) -> bool {
    forall|i: int| 0 <= i < s.len() ==> '0' <= #[trigger] s[i] <= '9'
}

/// The number that the decimal digits `s` spell.
pub open spec fn digits_value(s: Seq<char>) -> int
    decreases s.len(),
{
    if s.len() == 0 {
        0
    } else {
        digits_value(s.drop_last()) * 10 + (s.last() as int - '0' as int)
    }
}

/// What `str::parse::<i32>` gives: an optional sign followed by at least
/// one decimal digit, whose value fits in an `i32`.
pub open spec fn parse_i32_spec(s: Seq<char>) -> Option<i32> {
    let negative = s.len() > 0 && s[0] == '-';
    let body = if s.len() > 0 && (s[0] == '-' || s[0] == '+') { s.skip(1) } else { s };
    let value = if negative { -digits_value(body) } else { digits_value(body) };
    if body.len() == 0 || !all_digits(body) || value < i32::MIN || value > i32::MAX {
        None
    } else {
        Some(value as i32)
    }
}

proof fn lemma_digits_prefix(s: Seq<char>, k: int)
    requires
        all_digits(s),
        0 <= k <= s.len(),
    ensures
        0 <= digits_value(s.take(k)) <= digits_value(s),
    decreases s.len(),
{
    if k == s.len() {
        assert(s.take(k) =~= s);
        if s.len() > 0 {
            lemma_digits_prefix(s.drop_last(), 0);
        }
    } else {
        assert(s.drop_last().take(k) =~= s.take(k));
        assert(all_digits(s.drop_last())) by {
            assert forall|i: int| 0 <= i < s.drop_last().len() implies '0' <= #[trigger] s.drop_last()[i] <= '9' by {
                assert(s.drop_last()[i] == s[i]);
            }
        }
        lemma_digits_prefix(s.drop_last(), k);
        lemma_digits_prefix(s.drop_last(), s.len() - 1);
        assert(s.drop_last().take(s.len() - 1) =~= s.drop_last());
    }
}

/// Parses a decimal `i32` (see `parse_i32_spec`).
pub fn parse_i32(s: &Vec<char>) -> (r: Option<i32>)
    ensures
        r == parse_i32_spec(s@),
{
    let n = s.len();
    let negative = n > 0 && s[0] == '-';
    let start: usize = if n > 0 && (s[0] == '-' || s[0] == '+') { 1 } else { 0 };
    let ghost body = if s@.len() > 0 && (s@[0] == '-' || s@[0] == '+') { s@.skip(1) } else { s@ };
    assert(body =~= s@.skip(start as int));
    if start == n {
        return None;
    }
    let mut value: i64 = 0;
    let mut i: usize = start;
    assert(body.take(0) =~= Seq::<char>::empty());
    while i < n
        invariant
            start <= i <= n == s@.len(),
            body == s@.skip(start as int),
            body == (if s@.len() > 0 && (s@[0] == '-' || s@[0] == '+') { s@.skip(1) } else { s@ }),
            negative == (s@.len() > 0 && s@[0] == '-'),
            body.len() > 0,
            value as int == digits_value(body.take(i - start)),
            0 <= value <= 2147483648,
            all_digits(body.take(i - start)),
        decreases n - i,
    {
        let c = s[i];
        assert(body[i - start] == c);
        if c < '0' || c > '9' {
            assert(!all_digits(body));
            assert(body.len() > 0);
            assert(parse_i32_spec(s@) is None);
            return None;
        }
        let d = (c as u32 - '0' as u32) as i64;
        assert(body.take(i + 1 - start).drop_last() =~= body.take(i - start));
        value = value * 10 + d;
        assert(all_digits(body.take(i + 1 - start))) by {
            assert forall|q: int| 0 <= q < i + 1 - start implies '0' <= #[trigger] body.take(i + 1 - start)[q] <= '9' by {
                if q < i - start {
                    assert(body.take(i + 1 - start)[q] == body.take(i - start)[q]);
                }
            }
        }
        if value > 2147483648 {
            proof {
                if all_digits(body) {
                    lemma_digits_prefix(body, i + 1 - start);
                    assert(digits_value(body) > 2147483648);
                }
            }
            assert(parse_i32_spec(s@) is None);
            return None;
        }
        i = i + 1;
    }
    assert(body.take(n - start) =~= body);
    if negative {
        Some((0 - value) as i32)
    } else if value > 2147483647 {
        None
    } else {
        Some(value as i32)
    }
}

/// The text `NEAR/`.
pub open spec fn near_marker() -> Seq<char> {
    seq!['N', 'E', 'A', 'R', '/']
}

/// A NEAR literal `a NEAR/k b` that can be read without a panic:
/// at least three pieces between single spaces, the first and third
/// stemmable and the second, without `NEAR/`, a decimal `i32`.
pub open spec fn near_defined(query: Seq<char>) -> bool {
    let pieces = split_spec(query, ' ');
    &&& pieces.len() >= 3
    &&& stemmable(pieces[0])
    &&& stemmable(pieces[2])
    &&& parse_i32_spec(replace_spec(pieces[1], near_marker(), Seq::empty())) is Some
}

/// The two stems and the distance of a NEAR literal `a NEAR/k b`; `None`
/// exactly when it is not one (see `near_defined`).
pub fn near_terms(query: &str) -> (r: Option<(String, String, i32)>)
    ensures
        r is Some <==> near_defined(query@),
        r matches Some((first, second, max)) ==> {
            let pieces = split_spec(query@, ' ');
            &&& first@ == first_stem(pieces[0])
            &&& second@ == first_stem(pieces[2])
            &&& Some(max) == parse_i32_spec(replace_spec(pieces[1], near_marker(), Seq::empty()))
        },
{
    let mut stemmer = match EnglishStemmer::new() {
        None => return None,
        Some(s) => s,
    };
    near_terms_with(&mut stemmer, query)
}

/// The two stems and the distance of a NEAR literal `a NEAR/k b`, with
/// `stemmer`; `None` exactly when it is not one (see `near_defined`).
pub fn near_terms_with(stemmer: &mut EnglishStemmer, query: &str) -> (r: Option<(String, String, i32)>)
    ensures
        r is Some <==> near_defined(query@),
        r matches Some((first, second, max)) ==> {
            let pieces = split_spec(query@, ' ');
            &&& first@ == first_stem(pieces[0])
            &&& second@ == first_stem(pieces[2])
            &&& Some(max) == parse_i32_spec(replace_spec(pieces[1], near_marker(), Seq::empty()))
        },
{
    let cs = chars_of(query);
    let pieces = split_chars(&cs, ' ');
    let ghost pv = pieces@.map_values(|v: Vec<char>| v@);
    assert(pv == split_spec(query@, ' '));
    if pieces.len() < 3 {
        return None;
    }
    assert(pv[0] == pieces@[0]@);
    assert(pv[1] == pieces@[1]@);
    assert(pv[2] == pieces@[2]@);
    let first = match stem_first(stemmer, &pieces[0]) {
        None => return None,
        Some(t) => t,
    };
    let marker: Vec<char> = vec!['N', 'E', 'A', 'R', '/'];
    assert(marker@ =~= near_marker());
    let empty: Vec<char> = Vec::new();
    let distance = replace_chars(&pieces[1], &marker, &empty);
    assert(empty@ =~= Seq::<char>::empty());
    let max = match parse_i32(&distance) {
        None => return None,
        Some(m) => m,
    };
    let second = match stem_first(stemmer, &pieces[2]) {
        None => return None,
        Some(t) => t,
    };
    Some((first, second, max))
}

/// Whether a query is a NEAR query: it contains `NEAR/`.
pub fn is_near_query(query: &str) -> (r: bool)
    ensures
        r == has_infix(query@, near_marker()),
{
    let cs = chars_of(query);
    let marker: Vec<char> = vec!['N', 'E', 'A', 'R', '/'];
    assert(marker@ =~= near_marker());
    infix_of(&marker, &cs)
}

/// A list of documents found for a term, where the term is in the index.
pub open spec fn found_view(o: Option<Vec<String>>) -> Option<Seq<Seq<char>>> {
    match o {
        Some(v) => Some(string_views(v@)),
        None => None,
    }
}

/// The index of the first term from `k` on that the index lacks, or the
/// number of terms when it has them all.
pub open spec fn first_missing(found: Seq<Option<Seq<Seq<char>>>>, k: int) -> int
    decreases found.len() - k,
{
    if k < 0 || k >= found.len() {
        found.len() as int
    } else if found[k] is None {
        k
    } else {
        first_missing(found, k + 1)
    }
}

/// The documents found for each term before the first one that the index
/// lacks.
pub open spec fn found_before_missing(found: Seq<Option<Seq<Seq<char>>>>) -> Seq<Seq<Seq<char>>> {
    Seq::new(first_missing(found, 0) as nat, |i: int| found[i]->0)
}

/// The lists one after the other.
pub open spec fn concat_all(lists: Seq<Seq<Seq<char>>>) -> Seq<Seq<char>>
    decreases lists.len(),
{
    if lists.len() == 0 {
        Seq::empty()
    } else {
        concat_all(lists.drop_last()) + lists.last()
    }
}

/// The lists that a word must meet: what was found for each of its terms
/// up to the first one that the index lacks, and then, when it lacks one,
/// an empty list: no document holds a term that the index does not.
pub open spec fn word_lists(found: Seq<Option<Seq<Seq<char>>>>) -> Seq<Seq<Seq<char>>> {
    if first_missing(found, 0) < found.len() {
        found_before_missing(found).push(Seq::empty())
    } else {
        found_before_missing(found)
    }
}

/// What an entry adds to its query: the document lists that every result
/// must be in, and the documents that no result may be.  A phrase adds what
/// was found for it (the only element of `found`).  A word that is not
/// negated adds its `word_lists`, so that a term the index lacks leaves the
/// query with no document.  A negated word takes out the documents found
/// for its terms up to the first one that the index lacks.
pub open spec fn contribution_spec(
    negated: bool,
    phrase: bool,
    found: Seq<Option<Seq<Seq<char>>>>,
) -> (Seq<Seq<Seq<char>>>, Seq<Seq<char>>) {
    if negated {
        (Seq::empty(), concat_all(if phrase { seq![found[0]->0] } else { found_before_missing(found) }))
    } else {
        (if phrase { seq![found[0]->0] } else { word_lists(found) }, Seq::empty())
    }
}

fn copy_names(v: &Vec<String>) -> (r: Vec<String>)
    ensures
        string_views(r@) == string_views(v@),
{
    let mut r: Vec<String> = Vec::new();
    let mut i: usize = 0;
    while i < v.len()
        invariant
            i <= v@.len(),
            string_views(r@) == string_views(v@).take(i as int),
        decreases v@.len() - i,
    {
        let ghost before = string_views(r@);
        r.push(v[i].clone());
        assert(string_views(r@) =~= before.push(v@[i as int]@));
        assert(string_views(v@).take(i + 1) =~= string_views(v@).take(i as int).push(v@[i as int]@));
        i = i + 1;
    }
    assert(string_views(v@).take(v@.len() as int) =~= string_views(v@));
    r
}

/// What an entry adds to its query (see `contribution_spec`).
pub fn entry_contribution(negated: bool, phrase: bool, found: &Vec<Option<Vec<String>>>) -> (r: (Vec<Vec<String>>, Vec<String>))
    requires
        phrase ==> found@.len() == 1 && found@[0] is Some,
    ensures
        r.0@.map_values(|v: Vec<String>| string_views(v@)) == contribution_spec(negated, phrase, found@.map_values(|o: Option<Vec<String>>| found_view(o))).0,
        string_views(r.1@) == contribution_spec(negated, phrase, found@.map_values(|o: Option<Vec<String>>| found_view(o))).1,
{
    let ghost fv = found@.map_values(|o: Option<Vec<String>>| found_view(o));
    let mut lists: Vec<Vec<String>> = Vec::new();
    let mut i: usize = 0;
    let ghost target = if phrase { seq![fv[0]->0] } else { found_before_missing(fv) };
    if phrase {
        match &found[0] {
            Some(names) => {
                lists.push(copy_names(names));
            },
            None => {},
        }
        assert(fv[0] == found_view(found@[0]));
        assert(lists@.map_values(|v: Vec<String>| string_views(v@)) =~= target);
    } else {
        while i < found.len() && found[i].is_some()
            invariant
                i <= found@.len(),
                fv == found@.map_values(|o: Option<Vec<String>>| found_view(o)),
                first_missing(fv, 0) == first_missing(fv, i as int),
                forall|j: int| 0 <= j < i ==> (#[trigger] fv[j]) is Some,
                lists@.map_values(|v: Vec<String>| string_views(v@)) == Seq::new(i as nat, |j: int| fv[j]->0),
            decreases found@.len() - i,
        {
            assert(fv[i as int] == found_view(found@[i as int]));
            let ghost before = lists@.map_values(|v: Vec<String>| string_views(v@));
            match &found[i] {
                Some(names) => {
                    assert(fv[i as int]->0 == string_views(names@));
                    let copy = copy_names(names);
                    lists.push(copy);
                    assert(lists@.map_values(|v: Vec<String>| string_views(v@)) =~= before.push(string_views(names@)));
                    assert(lists@.map_values(|v: Vec<String>| string_views(v@)) =~= Seq::new((i + 1) as nat, |j: int| fv[j]->0));
                },
                None => {},
            }
            i = i + 1;
        }
        if i < found.len() {
            assert(fv[i as int] == found_view(found@[i as int]));
        }
        assert(first_missing(fv, 0) == i as int);
        assert(lists@.map_values(|v: Vec<String>| string_views(v@)) =~= target);
    }
    if negated {
        let ghost lv = lists@.map_values(|v: Vec<String>| string_views(v@));
        let mut names: Vec<String> = Vec::new();
        let mut k: usize = 0;
        assert(lv.take(0) =~= Seq::<Seq<Seq<char>>>::empty());
        while k < lists.len()
            invariant
                k <= lists@.len(),
                lv == lists@.map_values(|v: Vec<String>| string_views(v@)),
                string_views(names@) == concat_all(lv.take(k as int)),
            decreases lists@.len() - k,
        {
            let ghost before = string_views(names@);
            let mut part = copy_names(&lists[k]);
            let ghost pv = string_views(part@);
            names.append(&mut part);
            assert(string_views(names@) =~= before + pv);
            assert(lv.take(k + 1).drop_last() =~= lv.take(k as int));
            assert(lv[k as int] == pv);
            k = k + 1;
        }
        assert(lv.take(lists@.len() as int) =~= lv);
        let empty: Vec<Vec<String>> = Vec::new();
        assert(empty@.map_values(|v: Vec<String>| string_views(v@)) =~= Seq::<Seq<Seq<char>>>::empty());
        (empty, names)
    } else {
        if !phrase && i < found.len() {
            let ghost before = lists@.map_values(|v: Vec<String>| string_views(v@));
            let none: Vec<String> = Vec::new();
            lists.push(none);
            assert(string_views(none@) =~= Seq::<Seq<char>>::empty());
            assert(lists@.map_values(|v: Vec<String>| string_views(v@)) =~= before.push(Seq::<Seq<char>>::empty()));
        }
        let names: Vec<String> = Vec::new();
        assert(string_views(names@) =~= Seq::<Seq<char>>::empty());
        (lists, names)
    }
}

/// The documents in every one of the lists (none when there is no list).
pub open spec fn meet_all(lists: Seq<Seq<Seq<char>>>) -> Set<Seq<char>>
    decreases lists.len(),
{
    if lists.len() == 0 {
        Set::empty()
    } else if lists.len() == 1 {
        lists[0].to_set()
    } else {
        meet_all(lists.drop_last()).intersect(lists.last().to_set())
    }
}

/// The documents in any of the lists.
pub open spec fn join_all(lists: Seq<Seq<Seq<char>>>) -> Set<Seq<char>>
    decreases lists.len(),
{
    if lists.len() == 0 {
        Set::empty()
    } else {
        join_all(lists.drop_last()).union(lists.last().to_set())
    }
}

/// What a sequence with one more element holds.
pub(crate) proof fn lemma_push_contains<A>(s: Seq<A>, a: A)
    ensures
        forall|x: A| #[trigger] s.push(a).contains(x) <==> (s.contains(x) || x == a),
{
    assert forall|x: A| #[trigger] s.push(a).contains(x) <==> (s.contains(x) || x == a) by {
        if s.contains(x) {
            let q = choose|q: int| 0 <= q < s.len() && s[q] == x;
            assert(s.push(a)[q] == x);
        }
        if x == a {
            assert(s.push(a)[s.len() as int] == x);
        }
        if s.push(a).contains(x) && x != a {
            let q = choose|q: int| 0 <= q < s.len() + 1 && s.push(a)[q] == x;
            assert(q < s.len());
            assert(s[q] == x);
        }
    }
}

/// The names of `v` that are (`keep_members`) or are not in `other`, each
/// once.
fn filter_names(v: &Vec<String>, other: &Vec<String>, keep_members: bool) -> (r: Vec<String>)
    requires
        string_views(v@).no_duplicates(),
    ensures
        string_views(r@).no_duplicates(),
        forall|x: Seq<char>| #[trigger] string_views(r@).contains(x) <==> (string_views(v@).contains(x)
            && string_views(other@).contains(x) == keep_members),
{
    let ghost vv = string_views(v@);
    let ghost ov = string_views(other@);
    let mut r: Vec<String> = Vec::new();
    let mut i: usize = 0;
    while i < v.len()
        invariant
            i <= v@.len(),
            vv == string_views(v@),
            ov == string_views(other@),
            vv.no_duplicates(),
            string_views(r@).no_duplicates(),
            forall|x: Seq<char>| #[trigger] string_views(r@).contains(x) <==> (vv.take(i as int).contains(x)
                && ov.contains(x) == keep_members),
        decreases v@.len() - i,
    {
        let ghost before = string_views(r@);
        assert(vv.take(i + 1) =~= vv.take(i as int).push(vv[i as int]));
        assert(vv[i as int] == v@[i as int]@);
        proof {
            lemma_push_contains(vv.take(i as int), vv[i as int]);
            lemma_push_contains(before, vv[i as int]);
        }
        if holds_term(other, &v[i]) == keep_members {
            r.push(v[i].clone());
            assert(string_views(r@) =~= before.push(vv[i as int]));
            assert(!vv.take(i as int).contains(vv[i as int])) by {
                if vv.take(i as int).contains(vv[i as int]) {
                    let t0 = vv.take(i as int);
                    let q = choose|q: int| 0 <= q < i && t0[q] == vv[i as int];
                    assert(vv[q] == vv[i as int]);
                }
            }
            assert(!before.contains(vv[i as int]));
            assert forall|p: int, q: int| 0 <= p < q < string_views(r@).len() implies
                string_views(r@)[p] != string_views(r@)[q] by {
                if q == before.len() {
                    assert(before[p] == string_views(r@)[p]);
                }
            }
        } else {
            assert(string_views(r@) == before);
        }
        i = i + 1;
    }
    assert(vv.take(v@.len() as int) =~= vv);
    r
}

/// Adds to `acc` each name of `v` that it lacks.
fn add_new_names(acc: &mut Vec<String>, v: &Vec<String>)
    requires
        string_views(old(acc)@).no_duplicates(),
    ensures
        string_views(final(acc)@).no_duplicates(),
        forall|x: Seq<char>| #[trigger] string_views(final(acc)@).contains(x) <==> (string_views(old(acc)@).contains(x)
            || string_views(v@).contains(x)),
{
    let ghost start = string_views(acc@);
    let ghost vv = string_views(v@);
    let mut i: usize = 0;
    while i < v.len()
        invariant
            i <= v@.len(),
            vv == string_views(v@),
            string_views(acc@).no_duplicates(),
            forall|x: Seq<char>| #[trigger] string_views(acc@).contains(x) <==> (start.contains(x)
                || vv.take(i as int).contains(x)),
        decreases v@.len() - i,
    {
        let ghost before = string_views(acc@);
        assert(vv.take(i + 1) =~= vv.take(i as int).push(vv[i as int]));
        assert(vv[i as int] == v@[i as int]@);
        proof {
            lemma_push_contains(vv.take(i as int), vv[i as int]);
            lemma_push_contains(before, vv[i as int]);
        }
        if !holds_term(acc, &v[i]) {
            acc.push(v[i].clone());
            assert(string_views(acc@) =~= before.push(vv[i as int]));
        } else {
            assert(string_views(acc@) == before);
        }
        i = i + 1;
    }
    assert(vv.take(v@.len() as int) =~= vv);
}

/// The documents of one alternative of a boolean query: those in every one
/// of `and_results` and in none of `not_results`, each once; `None` when
/// there is no list to meet, and the alternative is left out.
pub fn combine_and_not(and_results: &Vec<Vec<String>>, not_results: &Vec<String>) -> (r: Option<Vec<String>>)
    ensures
        r is None <==> and_results@.len() == 0,
        r matches Some(v) ==> {
            &&& string_views(v@).no_duplicates()
            &&& string_views(v@).to_set() == meet_all(and_results@.map_values(|l: Vec<String>| string_views(l@)))
                .difference(string_views(not_results@).to_set())
        },
{
    if and_results.len() == 0 {
        return None;
    }
    let ghost lv = and_results@.map_values(|l: Vec<String>| string_views(l@));
    let mut current: Vec<String> = Vec::new();
    assert(string_views(current@) =~= Seq::<Seq<char>>::empty());
    add_new_names(&mut current, &and_results[0]);
    assert(lv[0] == string_views(and_results@[0]@));
    assert(lv.take(1).len() == 1 && lv.take(1)[0] == lv[0]);
    assert(string_views(current@).to_set() =~= meet_all(lv.take(1)));
    let mut k: usize = 1;
    while k < and_results.len()
        invariant
            1 <= k <= and_results@.len(),
            lv == and_results@.map_values(|l: Vec<String>| string_views(l@)),
            string_views(current@).no_duplicates(),
            string_views(current@).to_set() == meet_all(lv.take(k as int)),
        decreases and_results@.len() - k,
    {
        let next = filter_names(&current, &and_results[k], true);
        assert(lv[k as int] == string_views(and_results@[k as int]@));
        assert(lv.take(k + 1).drop_last() =~= lv.take(k as int));
        assert(lv.take(k + 1).last() == lv[k as int]);
        assert(string_views(next@).to_set() =~= meet_all(lv.take(k as int)).intersect(lv[k as int].to_set()));
        current = next;
        k = k + 1;
    }
    assert(lv.take(and_results@.len() as int) =~= lv);
    let result = filter_names(&current, not_results, false);
    assert(string_views(result@).to_set() =~= meet_all(lv).difference(string_views(not_results@).to_set()));
    Some(result)
}

/// The documents of a boolean query: those of any of its alternatives, each
/// once.
pub fn union_all(or_results: &Vec<Vec<String>>) -> (r: Vec<String>)
    ensures
        string_views(r@).no_duplicates(),
        string_views(r@).to_set() == join_all(or_results@.map_values(|l: Vec<String>| string_views(l@))),
{
    let ghost lv = or_results@.map_values(|l: Vec<String>| string_views(l@));
    let mut acc: Vec<String> = Vec::new();
    let mut k: usize = 0;
    assert(string_views(acc@).to_set() =~= join_all(lv.take(0)));
    while k < or_results.len()
        invariant
            k <= or_results@.len(),
            lv == or_results@.map_values(|l: Vec<String>| string_views(l@)),
            string_views(acc@).no_duplicates(),
            string_views(acc@).to_set() == join_all(lv.take(k as int)),
        decreases or_results@.len() - k,
    {
        let ghost before = string_views(acc@);
        add_new_names(&mut acc, &or_results[k]);
        assert(lv[k as int] == string_views(or_results@[k as int]@));
        assert(lv.take(k + 1).drop_last() =~= lv.take(k as int));
        assert(lv.take(k + 1).last() == lv[k as int]);
        assert(string_views(acc@).to_set() =~= before.to_set().union(lv[k as int].to_set()));
        k = k + 1;
    }
    assert(lv.take(or_results@.len() as int) =~= lv);
    acc
}

} // verus!
