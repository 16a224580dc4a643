//! Token normalization and stemming, and the indexing of a document's text.
use vstd::prelude::*;
use stemmer::Stemmer;
use crate::index::positional_inverted_index::{PositionalInvertedIndex, add_term_spec};
use crate::index::term_map::TermMap;
use crate::index::k_gram_index::{KGramIndex, add_all, grams_of, lemma_add_all_keeps, lemma_check_term_indexes_all_grams, marked};
use crate::text::{byte_len, lemma_byte_len_at_least_chars, words_spec, split_whitespace, chars_of, contains_char, replace_chars, replace_spec, split_chars, split_spec, string_from_chars};

verus! {

/// Whether `c` has the Unicode Alphabetic property (`char::is_alphabetic`).
pub uninterp spec fn alphabetic(c: char) -> bool;

/// The lowercase form of `s` (`str::to_lowercase`).
pub uninterp spec fn lowercase(s: Seq<char>) -> Seq<char>;

/// `char::is_alphabetic`: the result is the Alphabetic property of `c`.
#[verifier::external_body]
fn is_alphabetic(c: char) -> (r: bool)
    ensures
        r == alphabetic(c),
{
    c.is_alphabetic()
}

/// `str::to_lowercase`: the result is the lowercase form of `s`.
#[verifier::external_body]
fn to_lowercase(s: &str) -> (r: String)
    ensures
        r@ == lowercase(s@),
{
    s.to_lowercase()
}

/// A decimal digit (`char::is_digit(10)`).
pub open spec fn decimal_digit(c: char) -> bool {
    '0' <= c && c <= '9'
}

/// A letter or a decimal digit.
pub open spec fn alphanumeric(c: char) -> bool {
    decimal_digit(c) || alphabetic(c)
}

/// The number of characters before the first alphanumeric one.
pub open spec fn leading_symbols(t: Seq<char>) -> nat
    decreases t.len(),
{
    if t.len() == 0 || alphanumeric(t[0]) {
        0
    } else {
        1 + leading_symbols(t.drop_first())
    }
}

/// The number of characters after the last alphanumeric one.
pub open spec fn trailing_symbols(t: Seq<char>) -> nat
    decreases t.len(),
{
    if t.len() == 0 || alphanumeric(t.last()) {
        0
    } else {
        1 + trailing_symbols(t.drop_last())
    }
}

/// The left single quotation mark U+2018, which is replaced by an
/// apostrophe.
pub open spec fn left_quote_text() -> Seq<char> {
    seq!['\u{2018}']
}

/// The right single quotation mark U+2019, used as a typographic
/// apostrophe, which is replaced by an apostrophe.
pub open spec fn right_quote_text() -> Seq<char> {
    seq!['\u{2019}']
}

/// What `normalize_token` gives for a token with characters `t` that takes
/// `byte_len` bytes: the token without its leading and trailing symbols
/// (all of them, counted in characters), with the quote texts
/// turned into apostrophes, apostrophes removed and parentheses turned into
/// hyphens; if a hyphen remains, the pieces between hyphens followed by the
/// word without hyphens, else the word; each in lowercase.  A one-byte token
/// that is a symbol, or a token with nothing left, gives one empty string.
pub open spec fn normalize_spec(t: Seq<char>, byte_len: int) -> Seq<Seq<char>> {
    let start = leading_symbols(t) as int;
    let end = t.len() - 1 - trailing_symbols(t) as int;
    if byte_len == 1 && t.len() >= 1 && !alphanumeric(t[0]) {
        seq![Seq::<char>::empty()]
    } else if start > end {
        seq![Seq::<char>::empty()]
    } else {
        let kept = t.skip(start).take(if end - start + 1 < t.len() - start { end - start + 1 } else { t.len() - start });
        let r1 = replace_spec(kept, left_quote_text(), seq!['\'']);
        let r2 = replace_spec(r1, right_quote_text(), seq!['\'']);
        let r3 = replace_spec(r2, seq!['\''], Seq::<char>::empty());
        let r4 = replace_spec(r3, seq!['('], seq!['-']);
        let r5 = replace_spec(r4, seq![')'], seq!['-']);
        let words = if r5.contains('-') {
            split_spec(r5, '-').push(replace_spec(r5, seq!['-'], Seq::<char>::empty()))
        } else {
            seq![r5]
        };
        words.map_values(|w: Seq<char>| lowercase(w))
    }
}

fn is_alphanumeric(c: char) -> (r: bool)
    ensures
        r == alphanumeric(c),
{
    ('0' <= c && c <= '9') || is_alphabetic(c)
}

fn empty_result() -> (r: Vec<String>)
    ensures
        r@.map_values(|s: String| s@) == seq![Seq::<char>::empty()],
{
    let mut r: Vec<String> = Vec::new();
    r.push(String::new());
    assert(r@.map_values(|s: String| s@) =~= seq![Seq::<char>::empty()]);
    r
}

proof fn lemma_leading(t: Seq<char>, k: int)
    requires
        0 <= k <= t.len(),
        forall|m: int| 0 <= m < k ==> !alphanumeric(#[trigger] t[m]),
    ensures
        leading_symbols(t) == k + leading_symbols(t.skip(k)),
    decreases k,
{
    if k > 0 {
        assert(t.skip(1).skip(k - 1) =~= t.skip(k));
        assert forall|m: int| 0 <= m < k - 1 implies !alphanumeric(#[trigger] t.skip(1)[m]) by {
            assert(t.skip(1)[m] == t[m + 1]);
        }
        lemma_leading(t.skip(1), k - 1);
        assert(t.drop_first() =~= t.skip(1));
    } else {
        assert(t.skip(0) =~= t);
    }
}

proof fn lemma_trailing(t: Seq<char>, k: int)
    requires
        0 <= k <= t.len(),
        forall|m: int| t.len() - k <= m < t.len() ==> !alphanumeric(#[trigger] t[m]),
    ensures
        trailing_symbols(t) == k + trailing_symbols(t.take(t.len() - k)),
    decreases k,
{
    if k > 0 {
        let d = t.drop_last();
        assert(d.take(d.len() - (k - 1)) =~= t.take(t.len() - k));
        assert forall|m: int| d.len() - (k - 1) <= m < d.len() implies !alphanumeric(#[trigger] d[m]) by {
            assert(d[m] == t[m]);
        }
        lemma_trailing(d, k - 1);
    } else {
        assert(t.take(t.len() as int) =~= t);
    }
}

/// Some character of `t` is a letter or a decimal digit.
pub open spec fn has_alphanumeric(t: Seq<char>) -> bool {
    exists|i: int| 0 <= i < t.len() && alphanumeric(#[trigger] t[i])
}

proof fn lemma_leading_bound(t: Seq<char>, i: int)
    requires
        0 <= i < t.len(),
        alphanumeric(t[i]),
    ensures
        leading_symbols(t) <= i,
    decreases t.len(),
{
    if !alphanumeric(t[0]) {
        assert(t.drop_first()[i - 1] == t[i]);
        lemma_leading_bound(t.drop_first(), i - 1);
    }
}

proof fn lemma_trailing_bound(t: Seq<char>, i: int)
    requires
        0 <= i < t.len(),
        alphanumeric(t[i]),
    ensures
        trailing_symbols(t) <= t.len() - 1 - i,
    decreases t.len(),
{
    if !alphanumeric(t.last()) {
        assert(i < t.len() - 1);
        assert(t.drop_last()[i] == t[i]);
        lemma_trailing_bound(t.drop_last(), i);
    }
}

proof fn lemma_all_symbols(t: Seq<char>)
    requires
        !has_alphanumeric(t),
    ensures
        leading_symbols(t) == t.len(),
        trailing_symbols(t) == t.len(),
    decreases t.len(),
{
    if t.len() > 0 {
        assert(!alphanumeric(t[0]));
        assert(!alphanumeric(t[t.len() - 1]));
        assert(!has_alphanumeric(t.drop_first())) by {
            if has_alphanumeric(t.drop_first()) {
                let i = choose|i: int| 0 <= i < t.drop_first().len() && alphanumeric(#[trigger] t.drop_first()[i]);
                assert(t[i + 1] == t.drop_first()[i]);
            }
        }
        assert(!has_alphanumeric(t.drop_last())) by {
            if has_alphanumeric(t.drop_last()) {
                let i = choose|i: int| 0 <= i < t.drop_last().len() && alphanumeric(#[trigger] t.drop_last()[i]);
                assert(t[i] == t.drop_last()[i]);
            }
        }
        lemma_all_symbols(t.drop_first());
        lemma_all_symbols(t.drop_last());
    }
}

proof fn lemma_trailing_prepend(c: char, t: Seq<char>)
    requires
        has_alphanumeric(t),
    ensures
        trailing_symbols(seq![c] + t) == trailing_symbols(t),
    decreases t.len(),
{
    let u = seq![c] + t;
    assert(u.last() == t.last());
    if !alphanumeric(t.last()) {
        let i = choose|i: int| 0 <= i < t.len() && alphanumeric(#[trigger] t[i]);
        assert(i < t.len() - 1);
        assert(t.drop_last()[i] == t[i]);
        assert(u.drop_last() =~= seq![c] + t.drop_last());
        lemma_trailing_prepend(c, t.drop_last());
    }
}

proof fn lemma_leading_append(t: Seq<char>, c: char)
    requires
        has_alphanumeric(t),
    ensures
        leading_symbols(t + seq![c]) == leading_symbols(t),
    decreases t.len(),
{
    let u = t + seq![c];
    assert(u[0] == t[0]);
    if !alphanumeric(t[0]) {
        let i = choose|i: int| 0 <= i < t.len() && alphanumeric(#[trigger] t[i]);
        assert(i > 0);
        assert(t.drop_first()[i - 1] == t[i]);
        assert(u.drop_first() =~= t.drop_first() + seq![c]);
        lemma_leading_append(t.drop_first(), c);
    }
}

/// A symbol before a token changes nothing: for any character `c` that is
/// not a letter or a decimal digit, and any token `t`, normalizing `c`
/// followed by `t` gives what normalizing `t` gives.  So every leading
/// symbol of a token is dropped, however many there are.
pub proof fn lemma_normalize_drops_leading_symbol(c: char, t: Seq<char>)
    requires
        !alphanumeric(c),
    ensures
        normalize_spec(seq![c] + t, byte_len(seq![c] + t)) == normalize_spec(t, byte_len(t)),
{
    let u = seq![c] + t;
    let n = t.len() as int;
    assert(u[0] == c);
    assert(u.drop_first() =~= t);
    lemma_byte_len_at_least_chars(u);
    lemma_byte_len_at_least_chars(t);
    if has_alphanumeric(t) {
        let i = choose|i: int| 0 <= i < t.len() && alphanumeric(#[trigger] t[i]);
        lemma_trailing_prepend(c, t);
        lemma_leading_bound(t, i);
        lemma_trailing_bound(t, i);
        if byte_len(t) == 1 {
            assert(n == 1);
            assert(alphanumeric(t[0]));
        }
        let l = leading_symbols(t) as int;
        assert(u.skip(1 + l) =~= t.skip(l));
    } else {
        assert(!has_alphanumeric(u)) by {
            if has_alphanumeric(u) {
                let i = choose|i: int| 0 <= i < u.len() && alphanumeric(#[trigger] u[i]);
                assert(i > 0);
                assert(t[i - 1] == u[i]);
            }
        }
        lemma_all_symbols(t);
        lemma_all_symbols(u);
    }
}

/// A symbol after a token changes nothing: for any character `c` that is
/// not a letter or a decimal digit, and any token `t`, normalizing `t`
/// followed by `c` gives what normalizing `t` gives.  So every trailing
/// symbol of a token is dropped, however many there are.
pub proof fn lemma_normalize_drops_trailing_symbol(t: Seq<char>, c: char)
    requires
        !alphanumeric(c),
    ensures
        normalize_spec(t + seq![c], byte_len(t + seq![c])) == normalize_spec(t, byte_len(t)),
{
    let u = t + seq![c];
    let n = t.len() as int;
    assert(u.last() == c);
    assert(u.drop_last() =~= t);
    lemma_byte_len_at_least_chars(u);
    lemma_byte_len_at_least_chars(t);
    if has_alphanumeric(t) {
        let i = choose|i: int| 0 <= i < t.len() && alphanumeric(#[trigger] t[i]);
        lemma_leading_append(t, c);
        lemma_leading_bound(t, i);
        lemma_trailing_bound(t, i);
        assert(u[0] == t[0]);
        if byte_len(t) == 1 {
            assert(n == 1);
            assert(alphanumeric(t[0]));
        }
        let l = leading_symbols(t) as int;
        let k = n - trailing_symbols(t) - l;
        assert(u.skip(l).take(k) =~= t.skip(l).take(k));
    } else {
        assert(!has_alphanumeric(u)) by {
            if has_alphanumeric(u) {
                let i = choose|i: int| 0 <= i < u.len() && alphanumeric(#[trigger] u[i]);
                assert(i < n);
                assert(t[i] == u[i]);
            }
        }
        lemma_all_symbols(t);
        lemma_all_symbols(u);
        if n >= 1 {
            assert(u[0] == t[0]);
        }
    }
}

proof fn lemma_replace_absent(s: Seq<char>, c: char, rep: Seq<char>)
    requires
        !s.contains(c),
    ensures
        replace_spec(s, seq![c], rep) == s,
    decreases s.len(),
{
    if s.len() >= 1 {
        assert(s.take(1) != seq![c]) by {
            assert(s.take(1)[0] == s[0]);
        }
        assert(!s.skip(1).contains(c)) by {
            if s.skip(1).contains(c) {
                let k = choose|k: int| 0 <= k < s.skip(1).len() && s.skip(1)[k] == c;
                assert(s[k + 1] == c);
            }
        }
        lemma_replace_absent(s.skip(1), c, rep);
        assert(seq![s[0]] + s.skip(1) =~= s);
    }
}

/// The characters that normalization rewrites inside a word: apostrophes
/// (straight and typographic), parentheses and hyphens.
pub open spec fn rewritten(c: char) -> bool {
    c == '\'' || c == '\u{2018}' || c == '\u{2019}' || c == '(' || c == ')' || c == '-'
}

/// A token with a letter or digit and none of the characters that
/// normalization rewrites normalizes to one term: the token from its first
/// to its last letter or digit, in lowercase.
pub proof fn lemma_normalize_plain_word(t: Seq<char>)
    requires
        has_alphanumeric(t),
        forall|i: int| 0 <= i < t.len() ==> !rewritten(#[trigger] t[i]),
    ensures
        normalize_spec(t, byte_len(t)) == seq![lowercase(t.subrange(leading_symbols(t) as int, t.len() - trailing_symbols(t)))],
{
    let n = t.len() as int;
    let i = choose|i: int| 0 <= i < t.len() && alphanumeric(#[trigger] t[i]);
    lemma_leading_bound(t, i);
    lemma_trailing_bound(t, i);
    lemma_byte_len_at_least_chars(t);
    if byte_len(t) == 1 {
        assert(n == 1);
        assert(alphanumeric(t[0]));
    }
    let l = leading_symbols(t) as int;
    let core = t.subrange(l, n - trailing_symbols(t));
    assert(t.skip(l).take(n - trailing_symbols(t) - l) =~= core);
    assert forall|k: int| 0 <= k < core.len() implies !rewritten(#[trigger] core[k]) by {
        assert(core[k] == t[l + k]);
    }
    assert forall|ch: char| rewritten(ch) implies !core.contains(ch) by {
        if core.contains(ch) {
            let k = choose|k: int| 0 <= k < core.len() && core[k] == ch;
            assert(!rewritten(core[k]));
        }
    }
    assert(rewritten('\u{2018}') && rewritten('\u{2019}') && rewritten('\'') && rewritten('(') && rewritten(')') && rewritten('-'));
    lemma_replace_absent(core, '\u{2018}', seq!['\'']);
    lemma_replace_absent(core, '\u{2019}', seq!['\'']);
    lemma_replace_absent(core, '\'', Seq::<char>::empty());
    lemma_replace_absent(core, '(', seq!['-']);
    lemma_replace_absent(core, ')', seq!['-']);
    assert(left_quote_text() == seq!['\u{2018}']);
    assert(right_quote_text() == seq!['\u{2019}']);
    assert(!core.contains('-'));
    assert(seq![core].map_values(|w: Seq<char>| lowercase(w)) =~= seq![lowercase(core)]);
}

/// Normalizes a token: see `normalize_spec`.
pub fn normalize_token(term: String) -> (normalized: Vec<String>)
    requires
        byte_len(term@) <= i32::MAX,
    ensures
        normalized@.map_values(|s: String| s@) == normalize_spec(term@, byte_len(term@)),
{
    let ghost t = term@;
    let ts = term.as_str();
    let blen = ts.len();
    proof {
        lemma_byte_len_at_least_chars(t);
        assert(ts@ == t);
        assert(blen as int == byte_len(t));
    }
    let tc = chars_of(ts);
    let n = tc.len();
    let mut start_index: i32 = 0;
    let mut end_index: i32 = (n as i32) - 1;
    let mut i: usize = 0;
    while i < n && !is_alphanumeric(tc[i])
        invariant
            i <= n,
            n == t.len(),
            n == tc@.len(),
            tc@ == t,
            blen <= i32::MAX,
            n <= blen,
            start_index == i,
            forall|m: int| 0 <= m < i ==> !alphanumeric(#[trigger] t[m]),
            blen == 1 ==> i == 0,
            blen as int == byte_len(t),
            t == term@,
        decreases n - i,
    {
        if blen == 1 {
            assert(!alphanumeric(t[0]));
            assert(byte_len(t) == 1);
            return empty_result();
        }
        start_index = start_index + 1;
        i = i + 1;
    }
    proof {
        lemma_leading(t, i as int);
        if i < n {
            assert(t.skip(i as int)[0] == t[i as int]);
        } else {
            assert(t.skip(i as int).len() == 0);
        }
    }
    let mut k: usize = 0;
    while k < n && !is_alphanumeric(tc[n - 1 - k])
        invariant
            k <= n,
            n == t.len(),
            n == tc@.len(),
            tc@ == t,
            blen <= i32::MAX,
            n <= blen,
            end_index == n - 1 - k,
            forall|m: int| n - k <= m < n ==> !alphanumeric(#[trigger] t[m]),
        decreases n - k,
    {
        end_index = end_index - 1;
        k = k + 1;
    }
    proof {
        lemma_trailing(t, k as int);
        if k < n {
            assert(t.take(n - k).last() == t[n - 1 - k]);
        } else {
            assert(t.take(n - k).len() == 0);
        }
        if blen == 1 && n >= 1 {
            assert(alphanumeric(t[0]));
        }
    }
    if start_index > end_index {
        return empty_result();
    }
    let count = (end_index - start_index + 1) as usize;
    let s = start_index as usize;
    let take = if count < n - s { count } else { n - s };
    let mut kept: Vec<char> = Vec::new();
    let mut m: usize = 0;
    while m < take
        invariant
            m <= take,
            s + take <= n,
            n == tc@.len(),
            tc@ == t,
            kept@ == t.skip(s as int).take(m as int),
        decreases take - m,
    {
        kept.push(tc[s + m]);
        assert(t.skip(s as int).take(m + 1) =~= t.skip(s as int).take(m as int).push(t[s + m]));
        m = m + 1;
    }
    let apostrophe: Vec<char> = vec!['\''];
    let nothing: Vec<char> = Vec::new();
    let hyphen: Vec<char> = vec!['-'];
    let left = vec!['\u{2018}'];
    let right = vec!['\u{2019}'];
    assert(left@ =~= left_quote_text());
    assert(hyphen@ =~= seq!['-']);
    assert(apostrophe@ =~= seq!['\'']);
    assert(nothing@ =~= Seq::<char>::empty());
    assert(right@ =~= right_quote_text());
    let r1 = replace_chars(&kept, &left, &apostrophe);
    let r2 = replace_chars(&r1, &right, &apostrophe);
    let r3 = replace_chars(&r2, &apostrophe, &nothing);
    let open_paren: Vec<char> = vec!['('];
    let close_paren: Vec<char> = vec![')'];
    assert(open_paren@ =~= seq!['(']);
    assert(close_paren@ =~= seq![')']);
    let r4 = replace_chars(&r3, &open_paren, &hyphen);
    let r5 = replace_chars(&r4, &close_paren, &hyphen);
    proof {
        assert(kept@ =~= t.skip(s as int).take(take as int));
        assert(start_index as int == leading_symbols(t) as int);
        assert(end_index as int == t.len() - 1 - trailing_symbols(t) as int);
    }
    let mut words: Vec<Vec<char>> = Vec::new();
    if contains_char(&r5, '-') {
        words = split_chars(&r5, '-');
        let joined = replace_chars(&r5, &hyphen, &nothing);
        let ghost before = words@;
        words.push(joined);
        assert(words@.map_values(|v: Vec<char>| v@) =~= before.map_values(|v: Vec<char>| v@).push(joined@));
    } else {
        words.push(r5);
    }
    let ghost wv = words@.map_values(|v: Vec<char>| v@);
    let mut normalized: Vec<String> = Vec::new();
    let mut w: usize = 0;
    while w < words.len()
        invariant
            w <= words@.len(),
            wv == words@.map_values(|v: Vec<char>| v@),
            normalized@.map_values(|s: String| s@) == wv.take(w as int).map_values(|x: Seq<char>| lowercase(x)),
        decreases words@.len() - w,
    {
        let word = string_from_chars(words[w].as_slice());
        let lower = to_lowercase(word.as_str());
        let ghost before = normalized@;
        normalized.push(lower);
        assert(wv[w as int] == words@[w as int]@);
        assert(lower@ == lowercase(wv[w as int]));
        assert(wv.take(w + 1) =~= wv.take(w as int).push(wv[w as int]));
        assert(wv.take(w + 1).map_values(|x: Seq<char>| lowercase(x)) =~= wv.take(w as int).map_values(|x: Seq<char>| lowercase(x)).push(lowercase(wv[w as int])));
        assert(normalized@ == before.push(lower));
        assert(normalized@.map_values(|s: String| s@) =~= before.map_values(|s: String| s@).push(lower@));
        w = w + 1;
    }
    assert(wv.take(words@.len() as int) =~= wv);
    proof {
        let r5v = r5@;
        assert(r5v == replace_spec(replace_spec(replace_spec(replace_spec(replace_spec(
            t.skip(leading_symbols(t) as int).take(take as int), left_quote_text(), seq!['\'']),
            right_quote_text(), seq!['\'']), seq!['\''], Seq::<char>::empty()), seq!['('], seq!['-']), seq![')'], seq!['-']));
        if r5v.contains('-') {
            assert(wv =~= split_spec(r5v, '-').push(replace_spec(r5v, seq!['-'], Seq::<char>::empty())));
        } else {
            assert(wv =~= seq![r5v]);
        }
    }
    normalized
}

/// The normalized terms of the first `n` words, each with the index of its word.
pub open spec fn word_terms(words: Seq<Seq<char>>, n: int) -> Seq<(Seq<char>, int)>
    decreases n,
{
    if n <= 0 {
        Seq::empty()
    } else {
        word_terms(words, n - 1) + normalize_spec(words[n - 1], byte_len(words[n - 1])).map_values(
            |t: Seq<char>| (t, n - 1),
        )
    }
}

/// The normalized terms of a body, each with the index of its word.
pub open spec fn doc_terms(body: Seq<char>) -> Seq<(Seq<char>, int)> {
    word_terms(words_spec(body), words_spec(body).len() as int)
}

/// Adds each term of `pairs`, at its position, for document `d`.
pub open spec fn add_terms_spec(
    m: Map<Seq<char>, Seq<(u64, Seq<u64>)>>,
    pairs: Seq<(Seq<char>, int)>,
    d: u64,
) -> Map<Seq<char>, Seq<(u64, Seq<u64>)>>
    decreases pairs.len(),
{
    if pairs.len() == 0 {
        m
    } else {
        add_term_spec(add_terms_spec(m, pairs.drop_last(), d), pairs.last().0, d, pairs.last().1 as u64)
    }
}

/// How many of the pairs hold term `t`.
pub open spec fn count_occ(pairs: Seq<(Seq<char>, int)>, t: Seq<char>) -> nat
    decreases pairs.len(),
{
    if pairs.len() == 0 {
        0
    } else {
        count_occ(pairs.drop_last(), t) + if pairs.last().0 == t { 1nat } else { 0nat }
    }
}

/// Each term of the pairs mapped to how many pairs hold it.
pub open spec fn count_map(pairs: Seq<(Seq<char>, int)>) -> Map<Seq<char>, nat> {
    Map::new(|t: Seq<char>| count_occ(pairs, t) > 0, |t: Seq<char>| count_occ(pairs, t))
}

proof fn lemma_count_prefix(s: Seq<(Seq<char>, int)>, k: int, t: Seq<char>)
    requires
        0 <= k <= s.len(),
    ensures
        count_occ(s.take(k), t) <= count_occ(s, t),
    decreases s.len() - k,
{
    if k < s.len() {
        lemma_count_prefix(s, k + 1, t);
        assert(s.take(k + 1).drop_last() =~= s.take(k));
    } else {
        assert(s.take(k) =~= s);
    }
}

proof fn lemma_word_terms_prefix(words: Seq<Seq<char>>, a: int, b: int)
    requires
        0 <= a <= b,
    ensures
        word_terms(words, a).len() <= word_terms(words, b).len(),
        word_terms(words, b).take(word_terms(words, a).len() as int) == word_terms(words, a),
    decreases b - a,
{
    if a < b {
        lemma_word_terms_prefix(words, a, b - 1);
        let wa = word_terms(words, a);
        let wb1 = word_terms(words, b - 1);
        assert(word_terms(words, b).take(wb1.len() as int) =~= wb1);
        assert(word_terms(words, b).take(wa.len() as int) =~= wb1.take(wa.len() as int));
    }
}

/// Indexes the words of a document's body: each normalized term of the
/// word at index `j` is added at position `j` for `doc_id`.  Returns how many
/// times each term occurs.
pub fn index_document(index: &mut PositionalInvertedIndex, doc_id: u64, body: &str) -> (counts: TermMap<u32>)
    requires
        old(index).wf(),
        forall|j: int| 0 <= j < words_spec(body@).len() ==> byte_len(#[trigger] words_spec(body@)[j]) <= i32::MAX,
        forall|t: Seq<char>| count_occ(doc_terms(body@), t) <= u32::MAX,
    ensures
        final(index).wf(),
        final(index).index_view() == add_terms_spec(old(index).index_view(), doc_terms(body@), doc_id),
        counts.wf(),
        counts.map_view().map_values(|c: u32| c as nat) == count_map(doc_terms(body@)),
{
    let ghost m0 = index.index_view();
    let ghost ws = words_spec(body@);
    let ghost all = doc_terms(body@);
    let words = split_whitespace(body);
    let mut counts: TermMap<u32> = TermMap::new();
    let mut j: usize = 0;
    assert(counts.map_view().map_values(|c: u32| c as nat) =~= count_map(word_terms(ws, 0)));
    while j < words.len()
        invariant
            j <= words@.len(),
            ws == words@.map_values(|v: Vec<char>| v@),
            ws == words_spec(body@),
            all == word_terms(ws, ws.len() as int),
            forall|i: int| 0 <= i < ws.len() ==> byte_len(#[trigger] ws[i]) <= i32::MAX,
            forall|t: Seq<char>| count_occ(all, t) <= u32::MAX,
            index.wf(),
            index.index_view() == add_terms_spec(m0, word_terms(ws, j as int), doc_id),
            counts.wf(),
            counts.map_view().map_values(|c: u32| c as nat) == count_map(word_terms(ws, j as int)),
        decreases words@.len() - j,
    {
        let word = crate::text::string_from_chars(words[j].as_slice());
        assert(word@ == ws[j as int]);
        let terms = normalize_token(word);
        let ghost tv = terms@.map_values(|s: String| s@);
        let ghost base = word_terms(ws, j as int);
        let ghost mine = tv.map_values(|t: Seq<char>| (t, j as int));
        assert(word_terms(ws, j + 1) == base + mine);
        proof {
            lemma_word_terms_prefix(ws, j + 1, ws.len() as int);
        }
        let mut k: usize = 0;
        assert(base + mine.take(0) =~= base);
        while k < terms.len()
            invariant
                k <= terms@.len(),
                tv == terms@.map_values(|s: String| s@),
                mine == tv.map_values(|t: Seq<char>| (t, j as int)),
                j < ws.len(),
                all == word_terms(ws, ws.len() as int),
                (base + mine).len() <= all.len(),
                all.take((base + mine).len() as int) == base + mine,
                forall|t: Seq<char>| count_occ(all, t) <= u32::MAX,
                index.wf(),
                index.index_view() == add_terms_spec(m0, base + mine.take(k as int), doc_id),
                counts.wf(),
                counts.map_view().map_values(|c: u32| c as nat) == count_map(base + mine.take(k as int)),
            decreases terms@.len() - k,
        {
            let ghost pre = base + mine.take(k as int);
            let ghost post = base + mine.take(k + 1);
            assert(post.drop_last() =~= pre);
            assert(post.last() == (tv[k as int], j as int));
            assert(tv[k as int] == terms@[k as int]@);
            let term = terms[k].as_str();
            proof {
                assert(post =~= all.take(post.len() as int)) by {
                    assert((base + mine).take(post.len() as int) =~= post);
                    assert(all.take((base + mine).len() as int).take(post.len() as int) =~= all.take(post.len() as int));
                }
                lemma_count_prefix(all, post.len() as int, term@);
                assert(count_occ(post, term@) == count_occ(pre, term@) + 1);
            }
            let ghost cm = counts.map_view();
            let ghost cmv = cm.map_values(|c: u32| c as nat);
            assert(cmv == count_map(pre));
            if counts.contains_key(term) {
                let c = counts.replace(term, 0);
                assert(cmv.contains_key(term@));
                assert(cmv[term@] == c as nat);
                assert(count_map(pre)[term@] == count_occ(pre, term@));
                counts.replace(term, c + 1);
            } else {
                assert(!cmv.contains_key(term@));
                assert(count_occ(pre, term@) == 0);
                counts.insert_new(term.to_owned(), 1);
            }
            assert(counts.map_view().map_values(|c: u32| c as nat) =~= count_map(post)) by {
                let nm = counts.map_view().map_values(|c: u32| c as nat);
                assert forall|t: Seq<char>| #[trigger] nm.contains_key(t) <==> count_map(post).contains_key(t) by {
                    if t != term@ {
                        assert(count_occ(post, t) == count_occ(pre, t));
                        assert(cmv.contains_key(t) <==> count_map(pre).contains_key(t));
                    }
                }
                assert forall|t: Seq<char>| #[trigger] nm.contains_key(t) implies nm[t] == count_map(post)[t] by {
                    if t != term@ {
                        assert(count_occ(post, t) == count_occ(pre, t));
                        assert(cmv[t] == count_map(pre)[t]);
                    }
                }
            }
            index.add_term(term, doc_id, j as u64);
            k = k + 1;
        }
        assert(mine.take(terms@.len() as int) =~= mine);
        j = j + 1;
    }
    counts
}

/// The gram map after `check_term` on the term of each pair, in order.
pub open spec fn add_terms_grams(
    m: Map<Seq<char>, Seq<Seq<char>>>,
    pairs: Seq<(Seq<char>, int)>,
) -> Map<Seq<char>, Seq<Seq<char>>>
    decreases pairs.len(),
{
    if pairs.len() == 0 {
        m
    } else {
        let t = pairs.last().0;
        add_all(add_terms_grams(m, pairs.drop_last()), grams_of(t), t)
    }
}

/// Once the k-gram index has been filled from a list of terms, every 1-, 2-
/// and 3-gram of each non-empty term, marked with `$` at both ends, maps to a
/// list that holds the term.
pub proof fn lemma_terms_grams_indexed(
    m: Map<Seq<char>, Seq<Seq<char>>>,
    pairs: Seq<(Seq<char>, int)>,
    k: int,
    a: int,
    len: int,
)
    requires
        0 <= k < pairs.len(),
        pairs[k].0.len() >= 1,
        1 <= len <= 3,
        0 <= a,
        a + len <= marked(pairs[k].0).len(),
    ensures
        add_terms_grams(m, pairs).contains_key(marked(pairs[k].0).subrange(a, a + len)),
        add_terms_grams(m, pairs)[marked(pairs[k].0).subrange(a, a + len)].contains(pairs[k].0),
    decreases pairs.len(),
{
    let prev = add_terms_grams(m, pairs.drop_last());
    let last = pairs.last().0;
    if k == pairs.len() - 1 {
        lemma_check_term_indexes_all_grams(prev, last, a, len);
    } else {
        assert(pairs.drop_last()[k] == pairs[k]);
        lemma_terms_grams_indexed(m, pairs.drop_last(), k, a, len);
        lemma_add_all_keeps(prev, grams_of(last), last, marked(pairs[k].0).subrange(a, a + len), pairs[k].0);
    }
}

/// Fills the k-gram index with the normalized terms of a document's body,
/// word by word, when the index is switched on; leaves it as it is when not.
pub fn index_document_grams(kgram: &mut KGramIndex, body: &str)
    requires
        old(kgram).wf(),
        forall|j: int| 0 <= j < words_spec(body@).len() ==> byte_len(#[trigger] words_spec(body@)[j]) <= i32::MAX,
    ensures
        final(kgram).wf(),
        final(kgram).enabled() == old(kgram).enabled(),
        final(kgram).gram_view() == if old(kgram).enabled() {
            add_terms_grams(old(kgram).gram_view(), doc_terms(body@))
        } else {
            old(kgram).gram_view()
        },
{
    if !kgram.is_enabled() {
        return;
    }
    let ghost m0 = kgram.gram_view();
    let ghost ws = words_spec(body@);
    let words = split_whitespace(body);
    let mut j: usize = 0;
    while j < words.len()
        invariant
            j <= words@.len(),
            ws == words@.map_values(|v: Vec<char>| v@),
            ws == words_spec(body@),
            forall|i: int| 0 <= i < ws.len() ==> byte_len(#[trigger] ws[i]) <= i32::MAX,
            kgram.wf(),
            kgram.enabled(),
            kgram.gram_view() == add_terms_grams(m0, word_terms(ws, j as int)),
        decreases words@.len() - j,
    {
        let word = crate::text::string_from_chars(words[j].as_slice());
        assert(word@ == ws[j as int]);
        let terms = normalize_token(word);
        let ghost tv = terms@.map_values(|s: String| s@);
        let ghost base = word_terms(ws, j as int);
        let ghost mine = tv.map_values(|t: Seq<char>| (t, j as int));
        assert(word_terms(ws, j + 1) == base + mine);
        let mut k: usize = 0;
        assert(base + mine.take(0) =~= base);
        while k < terms.len()
            invariant
                k <= terms@.len(),
                tv == terms@.map_values(|s: String| s@),
                mine == tv.map_values(|t: Seq<char>| (t, j as int)),
                kgram.wf(),
                kgram.enabled(),
                kgram.gram_view() == add_terms_grams(m0, base + mine.take(k as int)),
            decreases terms@.len() - k,
        {
            kgram.check_term(terms[k].as_str());
            assert((base + mine.take(k + 1)).drop_last() =~= base + mine.take(k as int));
            assert((base + mine.take(k + 1)).last().0 == terms@[k as int]@);
            k = k + 1;
        }
        assert(mine.take(terms@.len() as int) =~= mine);
        j = j + 1;
    }
    assert(word_terms(ws, words@.len() as int) == doc_terms(body@));
}

#[verifier::external_type_specification]
#[verifier::external_body]
pub struct ExStemmer(Stemmer);

/// The stem that Snowball's English stemmer gives for `word`.
pub uninterp spec fn english_stem(word: Seq<char>) -> Seq<char>;

/// A stemmer for English; it can only be made by `new_english_stemmer`.
pub struct EnglishStemmer {
    inner: Stemmer,
}

/// `Stemmer::new("english")`: a stemmer for English.  The crate documents
/// `Some` for every algorithm that exists, English among them; the C library
/// returns no stemmer only when memory cannot be allocated, which is left
/// aside here.
#[verifier::external_body]
fn new_english_stemmer() -> (r: Option<EnglishStemmer>)
    ensures
        r is Some,
{
    match Stemmer::new("english") {
        Some(inner) => Some(EnglishStemmer { inner }),
        None => None,
    }
}

/// `Stemmer::stem`: the English stem of `word`.  The word must hold no NUL
/// character, on which the call panics.
#[verifier::external_body]
fn stem_word(stemmer: &mut EnglishStemmer, word: &str) -> (r: String)
    requires
        !word@.contains('\0'),
    ensures
        r@ == english_stem(word@),
{
    stemmer.inner.stem(word)
}

impl EnglishStemmer {
    /// A stemmer for English (`Stemmer::new("english")`); it is always made.
    pub fn new() -> (r: Option<EnglishStemmer>)
        ensures
            r is Some,
    {
        new_english_stemmer()
    }
}

/// Replaces each word by its English stem, with `stemmer`.
pub fn stem_terms_with(stemmer: &mut EnglishStemmer, strings_to_stem: Vec<String>) -> (r: Vec<String>)
    requires
        forall|i: int| 0 <= i < strings_to_stem@.len() ==> !(#[trigger] strings_to_stem@[i])@.contains('\0'),
    ensures
        r@.map_values(|s: String| s@) == strings_to_stem@.map_values(|s: String| english_stem(s@)),
{
    let mut stemmed: Vec<String> = Vec::new();
    let mut i: usize = 0;
    while i < strings_to_stem.len()
        invariant
            i <= strings_to_stem@.len(),
            forall|k: int| 0 <= k < strings_to_stem@.len() ==> !(#[trigger] strings_to_stem@[k])@.contains('\0'),
            stemmed@.map_values(|s: String| s@) == strings_to_stem@.take(i as int).map_values(|s: String| english_stem(s@)),
        decreases strings_to_stem@.len() - i,
    {
        let word = stem_word(stemmer, strings_to_stem[i].as_str());
        let ghost before = stemmed@;
        stemmed.push(word);
        assert(strings_to_stem@.take(i + 1) =~= strings_to_stem@.take(i as int).push(strings_to_stem@[i as int]));
        assert(stemmed@.map_values(|s: String| s@) =~= before.map_values(|s: String| s@).push(word@));
        i = i + 1;
    }
    assert(strings_to_stem@.take(strings_to_stem@.len() as int) =~= strings_to_stem@);
    stemmed
}

/// Replaces each word by its English stem (see `stem_terms_with`).
pub fn stem_terms(strings_to_stem: Vec<String>) -> (r: Option<Vec<String>>)
    requires
        forall|i: int| 0 <= i < strings_to_stem@.len() ==> !(#[trigger] strings_to_stem@[i])@.contains('\0'),
    ensures
        r matches Some(v) && v@.map_values(|s: String| s@) == strings_to_stem@.map_values(|s: String| english_stem(s@)),
{
    let mut stemmer = match EnglishStemmer::new() {
        Some(s) => s,
        None => return None,
    };
    Some(stem_terms_with(&mut stemmer, strings_to_stem))
}

} // verus!
