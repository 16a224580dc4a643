//! Answering a boolean query against the on-disk index: each alternative of
//! the query is split into entries, each entry is looked up, and the
//! documents found are combined by name.
use vstd::prelude::*;
use std::collections::HashMap;
use crate::index::disk_inverted_index::{DiskInvertedIndex, DiskPosting, posting_view};
use crate::parser::document_parser::{EnglishStemmer, english_stem, normalize_spec, normalize_token, stem_terms_with};
use crate::processor::query_plan::{
    and_entries, and_entries_spec, classify_entry, combine_and_not, contribution_spec, entry_contribution,
    expand_entries, expand_wildcard_entries, first_stem, found_view, is_near_query, meet_all,
    near_defined, near_marker, negated_entry, opens_quote, entry_state, word_lists, first_missing, found_before_missing, concat_all, parse_i32_spec, phrase_entry, phrase_terms_spec, stemmable,
};
use crate::processor::query_processor::{
    has_infix, near_query_with, near_spec, phrase_query_with, phrase_spec, plist_view,
    small_plist, small_positions, string_views, wildcard_defined,
};
use crate::index::k_gram_index::KGramIndex;
use crate::parser::query_parser::{lemma_plain_query, lemma_plus_splits, plain_tokens, process_spec, space};
use crate::text::{
    ascii_chars, byte_len, byte_len_within, chars_of, chars_range, contains_char, lemma_byte_len_ascii,
    one_byte_each, replace_spec, split_chars, split_spec, string_from_chars, words_spec, white_space, join_spec, lemma_words_single, lemma_words_append,
};

verus! {

broadcast use vstd::std_specs::hash::group_hash_axioms;

/// The names that `names` gives the documents `docs`, in order; `None` when
/// one of them has none.
pub open spec fn names_of(names: Map<u32, String>, docs: Seq<u32>) -> Option<Seq<Seq<char>>>
    decreases docs.len(),
{
    if docs.len() == 0 {
        Some(Seq::empty())
    } else {
        match names_of(names, docs.drop_last()) {
            None => None,
            Some(front) => if names.contains_key(docs.last()) {
                Some(front.push(names[docs.last()]@))
            } else {
                None
            },
        }
    }
}

/// A document without a name leaves every longer list without names.
proof fn lemma_names_of_none(names: Map<u32, String>, docs: Seq<u32>, k: int)
    requires
        0 <= k <= docs.len(),
        names_of(names, docs.take(k)) is None,
    ensures
        names_of(names, docs) is None,
    decreases docs.len() - k,
{
    if k < docs.len() {
        assert(docs.take(k + 1).drop_last() =~= docs.take(k));
        lemma_names_of_none(names, docs, k + 1);
    } else {
        assert(docs.take(k) =~= docs);
    }
}

/// The names of the documents `docs` (see `names_of`).
pub(crate) fn doc_names(names: &HashMap<u32, String>, docs: &Vec<u32>) -> (r: Option<Vec<String>>)
    ensures
        match names_of(names@, docs@) {
            None => r is None,
            Some(ns) => r matches Some(v) && string_views(v@) == ns,
        },
{
    let mut out: Vec<String> = Vec::new();
    let mut i: usize = 0;
    assert(docs@.take(0) =~= Seq::<u32>::empty());
    while i < docs.len()
        invariant
            i <= docs@.len(),
            names_of(names@, docs@.take(i as int)) == Some(string_views(out@)),
        decreases docs@.len() - i,
    {
        assert(docs@.take(i + 1).drop_last() =~= docs@.take(i as int));
        assert(docs@.take(i + 1).last() == docs@[i as int]);
        match names.get(&docs[i]) {
            None => {
                proof {
                    lemma_names_of_none(names@, docs@, i + 1);
                }
                return None;
            },
            Some(name) => {
                let ghost before = string_views(out@);
                out.push(name.clone());
                assert(string_views(out@) =~= before.push(name@));
            },
        }
        i = i + 1;
    }
    assert(docs@.take(docs@.len() as int) =~= docs@);
    Some(out)
}

/// The document ids of a postings list.
pub open spec fn list_docs(l: Seq<(u32, u32, u64, u64, u64, u64, Seq<u32>)>) -> Seq<u32> {
    l.map_values(|x: (u32, u32, u64, u64, u64, u64, Seq<u32>)| x.0)
}

/// What looking up one term gives: `None` where the lookup panics,
/// `Some(None)` when the vocabulary lacks the term, and otherwise the names
/// of the documents of its list.
pub open spec fn term_names(index: &DiskInvertedIndex, names: Map<u32, String>, term: Seq<char>) -> Option<Option<Seq<Seq<char>>>> {
    match index.search(term) {
        None => None,
        Some(p) => if p == -1 {
            Some(None)
        } else {
            match index.postings_of(term, true) {
                Some(Ok(l)) => match names_of(names, list_docs(l)) {
                    Some(ns) => Some(Some(ns)),
                    None => None,
                },
                _ => None,
            }
        },
    }
}

/// Looks up the terms one after the other and stops after the first one
/// that the vocabulary lacks: what was found for the first `n` terms and
/// whether the lookup has stopped; `None` where a lookup panics.
pub open spec fn lookup_state(
    index: &DiskInvertedIndex,
    names: Map<u32, String>,
    terms: Seq<Seq<char>>,
    n: int,
) -> Option<(Seq<Option<Seq<Seq<char>>>>, bool)>
    decreases n,
{
    if n <= 0 {
        Some((Seq::empty(), false))
    } else {
        match lookup_state(index, names, terms, n - 1) {
            None => None,
            Some((found, stopped)) => if stopped {
                Some((found, true))
            } else {
                match term_names(index, names, terms[n - 1]) {
                    None => None,
                    Some(None) => Some((found.push(None), true)),
                    Some(Some(ns)) => Some((found.push(Some(ns)), false)),
                }
            },
        }
    }
}

/// What is found for a word entry: its stems are looked up in turn (see
/// `lookup_state`); `None` where normalizing, stemming or a lookup panics.
pub open spec fn word_found(index: &DiskInvertedIndex, names: Map<u32, String>, entry: Seq<char>) -> Option<Seq<Option<Seq<Seq<char>>>>> {
    if !stemmable(entry) {
        None
    } else {
        let stems = normalize_spec(entry, byte_len(entry)).map_values(|w: Seq<char>| english_stem(w));
        match lookup_state(index, names, stems, stems.len() as int) {
            None => None,
            Some((found, _)) => Some(found),
        }
    }
}

/// Once stopped, the lookup stays as it was.
proof fn lemma_lookup_stopped(index: &DiskInvertedIndex, names: Map<u32, String>, terms: Seq<Seq<char>>, k: int, n: int)
    requires
        0 <= k <= n,
        lookup_state(index, names, terms, k) matches Some((_, stopped)) && stopped,
    ensures
        lookup_state(index, names, terms, n) == lookup_state(index, names, terms, k),
    decreases n - k,
{
    if k < n {
        lemma_lookup_stopped(index, names, terms, k, n - 1);
    }
}

/// A failed lookup leaves the whole lookup failed.
proof fn lemma_lookup_failed(index: &DiskInvertedIndex, names: Map<u32, String>, terms: Seq<Seq<char>>, k: int, n: int)
    requires
        0 <= k <= n,
        lookup_state(index, names, terms, k) is None,
    ensures
        lookup_state(index, names, terms, n) is None,
    decreases n - k,
{
    if k < n {
        lemma_lookup_failed(index, names, terms, k, n - 1);
    }
}

/// The English stems of the normalized forms of `word`, with `stemmer`;
/// `None` when the word cannot be stemmed (see `stemmable`).
fn stems_of(stemmer: &mut EnglishStemmer, word: &str) -> (r: Option<Vec<String>>)
    ensures
        match r {
            Some(v) => stemmable(word@) && string_views(v@)
                == normalize_spec(word@, byte_len(word@)).map_values(|w: Seq<char>| english_stem(w)),
            None => !stemmable(word@),
        },
{
    let cs = chars_of(word);
    if !byte_len_within(&cs, 2147483647) {
        return None;
    }
    let normalized = normalize_token(word.to_string());
    let ghost nv = normalized@.map_values(|x: String| x@);
    assert(nv == normalize_spec(word@, byte_len(word@)));
    let mut i: usize = 0;
    while i < normalized.len()
        invariant
            i <= normalized@.len(),
            nv == normalized@.map_values(|x: String| x@),
            nv == normalize_spec(word@, byte_len(word@)),
            forall|j: int| 0 <= j < i ==> !(#[trigger] normalized@[j])@.contains('\0'),
        decreases normalized@.len() - i,
    {
        let ns = chars_of(normalized[i].as_str());
        if contains_char(&ns, '\0') {
            assert(nv[i as int] == normalized@[i as int]@);
            assert(nv[i as int].contains('\0'));
            assert(!stemmable(word@));
            return None;
        }
        i = i + 1;
    }
    assert forall|j: int| 0 <= j < nv.len() implies !(#[trigger] nv[j]).contains('\0') by {
        assert(nv[j] == normalized@[j]@);
    }
    let stemmed = stem_terms_with(stemmer, normalized);
    assert(string_views(stemmed@) =~= nv.map_values(|w: Seq<char>| english_stem(w)));
    Some(stemmed)
}

/// Looks up one term (see `term_names`).
fn lookup_term(index: &DiskInvertedIndex, names: &HashMap<u32, String>, term: &str) -> (r: Option<Option<Vec<String>>>)
    ensures
        match term_names(index, names@, term@) {
            None => r is None,
            Some(o) => r matches Some(x) && found_view(x) == o,
        },
{
    let p = match index.try_binary_search_vocabulary(term) {
        None => return None,
        Some(p) => p,
    };
    if p == -1 {
        return Some(None);
    }
    match index.try_get_postings(term) {
        Some(Ok(list)) => {
            let mut docs: Vec<u32> = Vec::new();
            let mut i: usize = 0;
            while i < list.len()
                invariant
                    i <= list@.len(),
                    docs@ == list@.take(i as int).map_values(|x: DiskPosting| x.0),
                decreases list@.len() - i,
            {
                docs.push(list[i].0);
                assert(list@.take(i + 1).map_values(|x: DiskPosting| x.0) =~= list@.take(i as int).map_values(|x: DiskPosting| x.0).push(list@[i as int].0));
                i = i + 1;
            }
            assert(list@.take(list@.len() as int) =~= list@);
            assert(docs@ =~= list_docs(list@.map_values(|x: DiskPosting| posting_view(x))));
            match doc_names(names, &docs) {
                None => None,
                Some(v) => Some(Some(v)),
            }
        },
        _ => None,
    }
}

/// Looks up the stems of a word entry, made with `stemmer` (see
/// `word_found`).
fn word_lookups(
    stemmer: &mut EnglishStemmer,
    entry: &str,
    index: &DiskInvertedIndex,
    names: &HashMap<u32, String>,
) -> (r: Option<Vec<Option<Vec<String>>>>)
    ensures
        match word_found(index, names@, entry@) {
            None => r is None,
            Some(f) => r matches Some(v) && v@.map_values(|o: Option<Vec<String>>| found_view(o)) == f,
        },
{
    let stems = match stems_of(stemmer, entry) {
        None => return None,
        Some(s) => s,
    };
    let ghost sv = string_views(stems@);
    let mut found: Vec<Option<Vec<String>>> = Vec::new();
    let mut stopped = false;
    let mut k: usize = 0;
    assert(found@.map_values(|o: Option<Vec<String>>| found_view(o)) =~= Seq::<Option<Seq<Seq<char>>>>::empty());
    while k < stems.len() && !stopped
        invariant
            k <= stems@.len(),
            sv == string_views(stems@),
            stemmable(entry@),
            sv == normalize_spec(entry@, byte_len(entry@)).map_values(|w: Seq<char>| english_stem(w)),
            lookup_state(index, names@, sv, k as int) == Some((found@.map_values(|o: Option<Vec<String>>| found_view(o)), stopped)),
        decreases stems@.len() - k,
    {
        assert(sv[k as int] == stems@[k as int]@);
        let ghost before = found@.map_values(|o: Option<Vec<String>>| found_view(o));
        match lookup_term(index, names, stems[k].as_str()) {
            None => {
                proof {
                    lemma_lookup_failed(index, names@, sv, k + 1, sv.len() as int);
                }
                return None;
            },
            Some(x) => {
                let missing = x.is_none();
                found.push(x);
                assert(found@.map_values(|o: Option<Vec<String>>| found_view(o)) =~= before.push(found_view(x)));
                stopped = missing;
            },
        }
        k = k + 1;
    }
    proof {
        if stopped {
            lemma_lookup_stopped(index, names@, sv, k as int, sv.len() as int);
        }
    }
    Some(found)
}

/// A postings list as document ids with their positions.
pub open spec fn list_positions(l: Seq<(u32, u32, u64, u64, u64, u64, Seq<u32>)>) -> Seq<(u32, Seq<u32>)> {
    l.map_values(|x: (u32, u32, u64, u64, u64, u64, Seq<u32>)| (x.0, x.6))
}

/// The positional list of one term; `None` where reading it panics, or
/// where a position is beyond `i32::MAX`.
pub open spec fn term_positions(index: &DiskInvertedIndex, term: Seq<char>) -> Option<Seq<(u32, Seq<u32>)>> {
    match index.postings_of(term, true) {
        Some(Ok(l)) => if small_plist(list_positions(l)) {
            Some(list_positions(l))
        } else {
            None
        },
        _ => None,
    }
}

/// The positional lists of `terms`, in order (see `term_positions`).
pub open spec fn term_lists(index: &DiskInvertedIndex, terms: Seq<Seq<char>>) -> Option<Seq<Seq<(u32, Seq<u32>)>>>
    decreases terms.len(),
{
    if terms.len() == 0 {
        Some(Seq::empty())
    } else {
        match term_lists(index, terms.drop_last()) {
            None => None,
            Some(ls) => match term_positions(index, terms.last()) {
                Some(l) => Some(ls.push(l)),
                None => None,
            },
        }
    }
}

/// The documents where the words of a phrase literal occur in a row (see
/// `phrase_spec`); `None` where stemming a word or reading a list fails.
pub open spec fn phrase_docs(index: &DiskInvertedIndex, literal: Seq<char>) -> Option<Seq<u32>> {
    let pieces = split_spec(literal, ' ');
    if exists|i: int| 0 <= i < pieces.len() && !stemmable(#[trigger] pieces[i]) {
        None
    } else {
        match term_lists(index, phrase_terms_spec(literal)) {
            None => None,
            Some(ls) => Some(phrase_spec(ls, ls.len() as int).map_values(|p: (u32, Seq<u32>)| p.0)),
        }
    }
}

/// The names of the documents where a phrase literal occurs (see
/// `phrase_docs`); `None` also where a document has no name.
pub open spec fn phrase_names(index: &DiskInvertedIndex, names: Map<u32, String>, literal: Seq<char>) -> Option<Seq<Seq<char>>> {
    match phrase_docs(index, literal) {
        None => None,
        Some(docs) => names_of(names, docs),
    }
}

/// A failed list leaves every longer run of lists failed.
pub(crate) proof fn lemma_term_lists_none(index: &DiskInvertedIndex, terms: Seq<Seq<char>>, k: int)
    requires
        0 <= k <= terms.len(),
        term_lists(index, terms.take(k)) is None,
    ensures
        term_lists(index, terms) is None,
    decreases terms.len() - k,
{
    if k < terms.len() {
        assert(terms.take(k + 1).drop_last() =~= terms.take(k));
        lemma_term_lists_none(index, terms, k + 1);
    } else {
        assert(terms.take(k) =~= terms);
    }
}

/// A copy of the positions.
fn copy_positions(v: &Vec<u32>) -> (r: Vec<u32>)
    ensures
        r@ == v@,
{
    let mut r: Vec<u32> = Vec::new();
    let mut i: usize = 0;
    while i < v.len()
        invariant
            i <= v@.len(),
            r@ == v@.take(i as int),
        decreases v@.len() - i,
    {
        r.push(v[i]);
        assert(v@.take(i + 1) =~= v@.take(i as int).push(v@[i as int]));
        i = i + 1;
    }
    assert(v@.take(v@.len() as int) =~= v@);
    r
}

/// Reads the positional list of `term` (see `term_positions`).
pub(crate) fn positional_list(index: &DiskInvertedIndex, term: &str) -> (r: Option<Vec<(u32, Vec<u32>)>>)
    ensures
        match term_positions(index, term@) {
            None => r is None,
            Some(l) => r matches Some(v) && plist_view(v@) == l,
        },
{
    let list = match index.try_get_postings(term) {
        Some(Ok(list)) => list,
        _ => return None,
    };
    let ghost lv = list@.map_values(|x: DiskPosting| posting_view(x));
    let ghost target = list_positions(lv);
    assert(index.postings_of(term@, true) == Some(Ok::<Seq<(u32, u32, u64, u64, u64, u64, Seq<u32>)>, ()>(lv)));
    let mut out: Vec<(u32, Vec<u32>)> = Vec::new();
    let mut i: usize = 0;
    while i < list.len()
        invariant
            i <= list@.len(),
            lv == list@.map_values(|x: DiskPosting| posting_view(x)),
            target == list_positions(lv),
            index.postings_of(term@, true) == Some(Ok::<Seq<(u32, u32, u64, u64, u64, u64, Seq<u32>)>, ()>(lv)),
            plist_view(out@) == target.take(i as int),
            small_plist(plist_view(out@)),
        decreases list@.len() - i,
    {
        let positions = &list[i].6;
        let mut j: usize = 0;
        while j < positions.len()
            invariant
                j <= positions@.len(),
                i < list@.len(),
                lv == list@.map_values(|x: DiskPosting| posting_view(x)),
                target == list_positions(lv),
                index.postings_of(term@, true) == Some(Ok::<Seq<(u32, u32, u64, u64, u64, u64, Seq<u32>)>, ()>(lv)),
                positions@ == list@[i as int].6@,
                forall|q: int| 0 <= q < j ==> #[trigger] positions@[q] <= i32::MAX,
            decreases positions@.len() - j,
        {
            if positions[j] > 2147483647 {
                assert(target[i as int].1 == positions@);
                assert(!small_positions(target[i as int].1));
                assert(!small_plist(target));
                return None;
            }
            j = j + 1;
        }
        let ghost before = plist_view(out@);
        out.push((list[i].0, copy_positions(positions)));
        assert(plist_view(out@) =~= before.push((list@[i as int].0, positions@)));
        assert(target.take(i + 1) =~= target.take(i as int).push(target[i as int]));
        assert(small_positions(positions@));
        i = i + 1;
    }
    assert(target.take(list@.len() as int) =~= target);
    Some(out)
}

/// The names of the documents where a phrase literal occurs (see
/// `phrase_names`).
fn phrase_doc_names(
    stemmer: &mut EnglishStemmer,
    literal: &str,
    index: &DiskInvertedIndex,
    names: &HashMap<u32, String>,
) -> (r: Option<Vec<String>>)
    ensures
        match phrase_names(index, names@, literal@) {
            None => r is None,
            Some(ns) => r matches Some(v) && string_views(v@) == ns,
        },
{
    match phrase_query_with(stemmer, literal.to_string(), index) {
        None => None,
        Some(docs) => doc_names(names, &docs),
    }
}

/// The documents that a NEAR literal `a NEAR/k b` reports (see
/// `near_spec`); the list of `b` is read only when that of `a` is not
/// empty.  `None` where reading the literal or a list fails.
pub open spec fn near_docs(index: &DiskInvertedIndex, query: Seq<char>) -> Option<Seq<u32>> {
    if !near_defined(query) {
        None
    } else {
        let pieces = split_spec(query, ' ');
        let max = parse_i32_spec(replace_spec(pieces[1], near_marker(), Seq::empty()))->0;
        match term_positions(index, first_stem(pieces[0])) {
            None => None,
            Some(f) => if f.len() == 0 {
                Some(Seq::empty())
            } else {
                match term_positions(index, first_stem(pieces[2])) {
                    None => None,
                    Some(s) => Some(near_spec(f, s, max as int, 0)),
                }
            },
        }
    }
}

/// The names of the documents that a NEAR literal reports (see
/// `near_docs`); `None` also where a document has no name.
pub open spec fn near_names(index: &DiskInvertedIndex, names: Map<u32, String>, query: Seq<char>) -> Option<Seq<Seq<char>>> {
    match near_docs(index, query) {
        None => None,
        Some(docs) => names_of(names, docs),
    }
}

/// The names of the documents that a NEAR literal reports (see
/// `near_names`).
fn near_doc_names(
    stemmer: &mut EnglishStemmer,
    query: &str,
    index: &DiskInvertedIndex,
    names: &HashMap<u32, String>,
) -> (r: Option<Vec<String>>)
    ensures
        match near_names(index, names@, query@) {
            None => r is None,
            Some(ns) => r matches Some(v) && string_views(v@) == ns,
        },
{
    match near_query_with(stemmer, query.to_string(), index) {
        None => None,
        Some(docs) => doc_names(names, &docs),
    }
}

/// What is found for one entry: a phrase gives the names of the documents
/// where it occurs (see `phrase_names`; a negated phrase is read without its
/// `-`), a word what its stems give (see `word_found`).
pub open spec fn entry_found(index: &DiskInvertedIndex, names: Map<u32, String>, e: Seq<char>) -> Option<Seq<Option<Seq<Seq<char>>>>> {
    if phrase_entry(e) {
        match phrase_names(index, names, if negated_entry(e) { e.skip(1) } else { e }) {
            Some(ns) => Some(seq![Some(ns)]),
            None => None,
        }
    } else {
        word_found(index, names, e)
    }
}

/// What the first `n` entries add to their query (see `contribution_spec`):
/// the lists that every result must be in and the documents that none may
/// be; `None` where looking up one of them fails.
pub open spec fn entries_parts(
    index: &DiskInvertedIndex,
    names: Map<u32, String>,
    entries: Seq<Seq<char>>,
    n: int,
) -> Option<(Seq<Seq<Seq<char>>>, Seq<Seq<char>>)>
    decreases n,
{
    if n <= 0 {
        Some((Seq::empty(), Seq::empty()))
    } else {
        match entries_parts(index, names, entries, n - 1) {
            None => None,
            Some((ands, nots)) => match entry_found(index, names, entries[n - 1]) {
                None => None,
                Some(found) => {
                    let c = contribution_spec(negated_entry(entries[n - 1]), phrase_entry(entries[n - 1]), found);
                    Some((ands + c.0, nots + c.1))
                },
            },
        }
    }
}

/// A failed entry leaves the whole query failed.
proof fn lemma_entries_parts_none(index: &DiskInvertedIndex, names: Map<u32, String>, entries: Seq<Seq<char>>, k: int, n: int)
    requires
        0 <= k <= n,
        entries_parts(index, names, entries, k) is None,
    ensures
        entries_parts(index, names, entries, n) is None,
    decreases n - k,
{
    if k < n {
        lemma_entries_parts_none(index, names, entries, k, n - 1);
    }
}

/// Looks up one entry, with `stemmer` for its words (see `entry_found`).
fn entry_lookups(
    stemmer: &mut EnglishStemmer,
    entry: &String,
    index: &DiskInvertedIndex,
    names: &HashMap<u32, String>,
) -> (r: Option<Vec<Option<Vec<String>>>>)
    ensures
        match entry_found(index, names@, entry@) {
            None => r is None,
            Some(f) => r matches Some(v) && v@.map_values(|o: Option<Vec<String>>| found_view(o)) == f,
        },
        r matches Some(v) ==> (phrase_entry(entry@) ==> v@.len() == 1 && v@[0] is Some),
{
    let (negated, phrase) = classify_entry(entry.as_str());
    if phrase {
        let literal: String = if negated {
            let cs = chars_of(entry.as_str());
            let rest = chars_range(&cs, 1, cs.len());
            assert(rest@ =~= entry@.skip(1));
            string_from_chars(rest.as_slice())
        } else {
            entry.clone()
        };
        match phrase_doc_names(stemmer, literal.as_str(), index, names) {
            None => None,
            Some(v) => {
                let ghost vv = string_views(v@);
                let r = vec![Some(v)];
                assert(found_view(r@[0]) == Some(vv));
                assert(r@.map_values(|o: Option<Vec<String>>| found_view(o)) =~= seq![Some(vv)]);
                Some(r)
            },
        }
    } else {
        word_lookups(stemmer, entry.as_str(), index, names)
    }
}

/// What the entries add to their query (see `entries_parts`).
fn entries_results(
    stemmer: &mut EnglishStemmer,
    entries: &Vec<String>,
    index: &DiskInvertedIndex,
    names: &HashMap<u32, String>,
) -> (r: Option<(Vec<Vec<String>>, Vec<String>)>)
    ensures
        match entries_parts(index, names@, string_views(entries@), entries@.len() as int) {
            None => r is None,
            Some(parts) => r matches Some((ands, nots))
                && parts == (ands@.map_values(|l: Vec<String>| string_views(l@)), string_views(nots@)),
        },
{
    let ghost ev = string_views(entries@);
    let mut ands: Vec<Vec<String>> = Vec::new();
    let mut nots: Vec<String> = Vec::new();
    let mut k: usize = 0;
    assert(ands@.map_values(|l: Vec<String>| string_views(l@)) =~= Seq::<Seq<Seq<char>>>::empty());
    assert(string_views(nots@) =~= Seq::<Seq<char>>::empty());
    while k < entries.len()
        invariant
            k <= entries@.len(),
            ev == string_views(entries@),
            entries_parts(index, names@, ev, k as int) == Some((ands@.map_values(|l: Vec<String>| string_views(l@)), string_views(nots@))),
        decreases entries@.len() - k,
    {
        assert(ev[k as int] == entries@[k as int]@);
        let found = match entry_lookups(stemmer, &entries[k], index, names) {
            None => {
                proof {
                    lemma_entries_parts_none(index, names@, ev, k + 1, ev.len() as int);
                }
                return None;
            },
            Some(f) => f,
        };
        let (negated, phrase) = classify_entry(entries[k].as_str());
        let (mut more_ands, mut more_nots) = entry_contribution(negated, phrase, &found);
        let ghost a0 = ands@.map_values(|l: Vec<String>| string_views(l@));
        let ghost n0 = string_views(nots@);
        let ghost a1 = more_ands@.map_values(|l: Vec<String>| string_views(l@));
        let ghost n1 = string_views(more_nots@);
        ands.append(&mut more_ands);
        nots.append(&mut more_nots);
        assert(ands@.map_values(|l: Vec<String>| string_views(l@)) =~= a0 + a1);
        assert(string_views(nots@) =~= n0 + n1);
        k = k + 1;
    }
    Some((ands, nots))
}

/// The documents of one alternative of a boolean query: `Some(None)` when
/// it gives no list to meet, and is left out; otherwise those in every list
/// that its entries give and in none of the documents that its negated
/// entries give.  A NEAR alternative gives the documents of its literal
/// (see `near_names`), as one list when there are any.  `None` where a
/// wildcard cannot be expanded (with the k-gram index switched on) or an
/// entry cannot be looked up.
#[verifier::opaque]
pub open spec fn alternative_result(
    index: &DiskInvertedIndex,
    kg: Map<Seq<char>, Seq<Seq<char>>>,
    enabled: bool,
    names: Map<u32, String>,
    query: Seq<char>,
) -> Option<Option<Set<Seq<char>>>> {
    let entries = and_entries_spec(query);
    if enabled && exists|i: int| 0 <= i < entries.len() && (#[trigger] entries[i]).contains('*') && !wildcard_defined(entries[i]) {
        None
    } else {
        let parts = if has_infix(query, near_marker()) {
            match near_names(index, names, query) {
                None => None,
                Some(ns) => Some((if ns.len() == 0 { Seq::empty() } else { seq![ns] }, Seq::<Seq<char>>::empty())),
            }
        } else {
            let expanded = expand_entries(kg, enabled, entries);
            entries_parts(index, names, expanded, expanded.len() as int)
        };
        match parts {
            None => None,
            Some((ands, nots)) => if ands.len() == 0 {
                Some(None)
            } else {
                Some(Some(meet_all(ands).difference(nots.to_set())))
            },
        }
    }
}

/// The documents of the first `n` alternatives of a query: those of any of
/// them (see `alternative_result`); `None` where one of them fails.
pub open spec fn alternatives_result(
    index: &DiskInvertedIndex,
    kg: Map<Seq<char>, Seq<Seq<char>>>,
    enabled: bool,
    names: Map<u32, String>,
    alternatives: Seq<Seq<char>>,
    n: int,
) -> Option<Set<Seq<char>>>
    decreases n,
{
    if n <= 0 {
        Some(Set::empty())
    } else {
        match alternatives_result(index, kg, enabled, names, alternatives, n - 1) {
            None => None,
            Some(found) => match alternative_result(index, kg, enabled, names, alternatives[n - 1]) {
                None => None,
                Some(None) => Some(found),
                Some(Some(more)) => Some(found.union(more)),
            },
        }
    }
}

/// The names of the documents that a boolean query finds: those of any of
/// the alternatives that the query parser makes of it (see `process_spec`
/// and `alternative_result`).  `None` where the query has `i32::MAX`
/// characters or more, the parser refuses it, or an alternative fails.
pub open spec fn bool_query_result(
    index: &DiskInvertedIndex,
    kg: Map<Seq<char>, Seq<Seq<char>>>,
    enabled: bool,
    names: Map<u32, String>,
    input: Seq<char>,
) -> Option<Set<Seq<char>>> {
    if input.len() >= i32::MAX {
        None
    } else {
        match process_spec(input) {
            None => None,
            Some(alternatives) => alternatives_result(index, kg, enabled, names, alternatives, alternatives.len() as int),
        }
    }
}

/// Whether an alternative has a list to meet and `x` among its documents.
pub open spec fn alternative_has(
    index: &DiskInvertedIndex,
    kg: Map<Seq<char>, Seq<Seq<char>>>,
    enabled: bool,
    names: Map<u32, String>,
    query: Seq<char>,
    x: Seq<char>,
) -> bool {
    match alternative_result(index, kg, enabled, names, query) {
        Some(Some(t)) => t.contains(x),
        _ => false,
    }
}

/// A failed alternative leaves the whole query failed, and otherwise the
/// documents of the first `n` alternatives are exactly those of any one of
/// them: a document is among them if and only if some alternative with a
/// list to meet has it.
pub proof fn lemma_documents_of_alternatives(
    index: &DiskInvertedIndex,
    kg: Map<Seq<char>, Seq<Seq<char>>>,
    enabled: bool,
    names: Map<u32, String>,
    alternatives: Seq<Seq<char>>,
    n: int,
    x: Seq<char>,
)
    requires
        0 <= n <= alternatives.len(),
    ensures
        (exists|k: int| 0 <= k < n && #[trigger] alternative_result(index, kg, enabled, names, alternatives[k]) is None)
            ==> alternatives_result(index, kg, enabled, names, alternatives, n) is None,
        alternatives_result(index, kg, enabled, names, alternatives, n) is Some ==> (
            alternatives_result(index, kg, enabled, names, alternatives, n)->0.contains(x)
                <==> exists|k: int| 0 <= k < n && #[trigger] alternative_has(index, kg, enabled, names, alternatives[k], x)),
    decreases n,
{
    if n > 0 {
        lemma_documents_of_alternatives(index, kg, enabled, names, alternatives, n - 1, x);
        let now = alternatives_result(index, kg, enabled, names, alternatives, n);
        let before = alternatives_result(index, kg, enabled, names, alternatives, n - 1);
        if now is Some {
            if now->0.contains(x) && !before->0.contains(x) {
                assert(alternative_has(index, kg, enabled, names, alternatives[n - 1], x));
            }
            if exists|k: int| 0 <= k < n && #[trigger] alternative_has(index, kg, enabled, names, alternatives[k], x) {
                let k = choose|k: int| 0 <= k < n && #[trigger] alternative_has(index, kg, enabled, names, alternatives[k], x);
                if k < n - 1 {
                    assert(before->0.contains(x));
                }
            }
        }
        if exists|k: int| 0 <= k < n && #[trigger] alternative_result(index, kg, enabled, names, alternatives[k]) is None {
            let k = choose|k: int| 0 <= k < n && #[trigger] alternative_result(index, kg, enabled, names, alternatives[k]) is None;
            if k < n - 1 {
                assert(before is None);
            }
        }
    }
}

/// Whether every character is ASCII.
fn all_ascii(cs: &Vec<char>) -> (r: bool)
    ensures
        r == ascii_chars(cs@),
{
    proof {
        lemma_byte_len_ascii(cs@);
    }
    one_byte_each(cs)
}

/// Whether `get_wildcards` takes `e`: exactly `wildcard_defined`.
pub fn wildcard_ok(e: &str) -> (r: bool)
    ensures
        r == wildcard_defined(e@),
{
    let cs = chars_of(e);
    if cs.len() > 0 && cs[0] == '*' {
        cs.len() >= 2 && all_ascii(&cs)
    } else if cs.len() > 0 && cs[cs.len() - 1] == '*' {
        all_ascii(&cs)
    } else {
        let pieces = split_chars(&cs, '*');
        let ghost pv = pieces@.map_values(|v: Vec<char>| v@);
        if pieces.len() < 2 {
            return false;
        }
        assert(pv[0] == pieces@[0]@);
        assert(pv[1] == pieces@[1]@);
        pieces[1].len() > 0 && all_ascii(&pieces[0]) && all_ascii(&pieces[1])
    }
}

/// The documents of one alternative (see `alternative_result`), each once.
pub(crate) fn alternative_documents(
    stemmer: &mut EnglishStemmer,
    query: &String,
    index: &DiskInvertedIndex,
    kgram: &KGramIndex,
    names: &HashMap<u32, String>,
) -> (r: Option<Option<Vec<String>>>)
    requires
        kgram.wf(),
    ensures
        match alternative_result(index, kgram.gram_view(), kgram.enabled(), names@, query@) {
            None => r is None,
            Some(None) => r == Some(None::<Vec<String>>),
            Some(Some(t)) => r matches Some(Some(v)) && string_views(v@).no_duplicates() && string_views(v@).to_set() == t,
        },
{
    reveal(alternative_result);
    let entries = and_entries(query.as_str());
    let ghost ev = string_views(entries@);
    if kgram.is_enabled() {
        let mut i: usize = 0;
        while i < entries.len()
            invariant
                i <= entries@.len(),
                ev == string_views(entries@),
                ev == and_entries_spec(query@),
                kgram.enabled(),
                forall|j: int| 0 <= j < i && (#[trigger] entries@[j])@.contains('*') ==> wildcard_defined(entries@[j]@),
            decreases entries@.len() - i,
        {
            let cs = chars_of(entries[i].as_str());
            if contains_char(&cs, '*') && !wildcard_ok(entries[i].as_str()) {
                assert(ev[i as int] == entries@[i as int]@);
                assert(ev[i as int].contains('*') && !wildcard_defined(ev[i as int]));
                proof {
                    reveal(alternative_result);
                }
                return None;
            }
            i = i + 1;
        }
    }
    assert(!(kgram.enabled() && exists|i: int| 0 <= i < ev.len() && (#[trigger] ev[i]).contains('*') && !wildcard_defined(ev[i]))) by {
        if kgram.enabled() {
            assert forall|i: int| 0 <= i < ev.len() && (#[trigger] ev[i]).contains('*') implies wildcard_defined(ev[i]) by {
                assert(ev[i] == entries@[i]@);
            }
        }
    }
    let expanded = expand_wildcard_entries(entries, kgram);
    let parts: (Vec<Vec<String>>, Vec<String>) = if is_near_query(query.as_str()) {
        match near_doc_names(stemmer, query.as_str(), index, names) {
            None => return None,
            Some(ns) => {
                let nots: Vec<String> = Vec::new();
                assert(string_views(nots@) =~= Seq::<Seq<char>>::empty());
                if ns.len() == 0 {
                    let ands: Vec<Vec<String>> = Vec::new();
                    assert(ands@.map_values(|l: Vec<String>| string_views(l@)) =~= Seq::<Seq<Seq<char>>>::empty());
                    (ands, nots)
                } else {
                    let ghost nv = string_views(ns@);
                    let ands: Vec<Vec<String>> = vec![ns];
                    assert(ands@.map_values(|l: Vec<String>| string_views(l@)) =~= seq![nv]);
                    (ands, nots)
                }
            },
        }
    } else {
        match entries_results(stemmer, &expanded, index, names) {
            None => return None,
            Some(p) => p,
        }
    };
    Some(combine_and_not(&parts.0, &parts.1))
}


proof fn lemma_alternatives_prefix(
    index: &DiskInvertedIndex,
    kg: Map<Seq<char>, Seq<Seq<char>>>,
    enabled: bool,
    names: Map<u32, String>,
    s: Seq<Seq<char>>,
    t: Seq<Seq<char>>,
    n: int,
)
    requires
        0 <= n <= s.len(),
        n <= t.len(),
        s.take(n) == t.take(n),
    ensures
        alternatives_result(index, kg, enabled, names, s, n) == alternatives_result(index, kg, enabled, names, t, n),
    decreases n,
{
    if n > 0 {
        assert(s.take(n - 1) =~= t.take(n - 1)) by {
            assert forall|i: int| 0 <= i < n - 1 implies #[trigger] s.take(n - 1)[i] == t.take(n - 1)[i] by {
                assert(s.take(n)[i] == t.take(n)[i]);
            }
        }
        assert(s[n - 1] == s.take(n)[n - 1]);
        assert(t[n - 1] == t.take(n)[n - 1]);
        lemma_alternatives_prefix(index, kg, enabled, names, s, t, n - 1);
    }
}

/// `+` is OR: the documents of two lists of alternatives put one after the
/// other are those of the first list joined with those of the second, and
/// the whole fails exactly where one of the two fails.
pub proof fn lemma_alternatives_union(
    index: &DiskInvertedIndex,
    kg: Map<Seq<char>, Seq<Seq<char>>>,
    enabled: bool,
    names: Map<u32, String>,
    a: Seq<Seq<char>>,
    b: Seq<Seq<char>>,
)
    ensures
        alternatives_result(index, kg, enabled, names, a + b, (a + b).len() as int) == match (
            alternatives_result(index, kg, enabled, names, a, a.len() as int),
            alternatives_result(index, kg, enabled, names, b, b.len() as int),
        ) {
            (Some(x), Some(y)) => Some(x.union(y)),
            _ => None::<Set<Seq<char>>>,
        },
    decreases b.len(),
{
    let ab = a + b;
    let n = ab.len() as int;
    if b.len() == 0 {
        assert(ab =~= a);
        if let Some(x) = alternatives_result(index, kg, enabled, names, a, a.len() as int) {
            assert(x.union(Set::empty()) =~= x);
        }
    } else {
        let b1 = b.drop_last();
        let m = b.len() as int;
        lemma_alternatives_union(index, kg, enabled, names, a, b1);
        assert(ab.take(n - 1) =~= (a + b1).take(n - 1));
        lemma_alternatives_prefix(index, kg, enabled, names, ab, a + b1, n - 1);
        assert(b.take(m - 1) =~= b1.take(m - 1));
        lemma_alternatives_prefix(index, kg, enabled, names, b, b1, m - 1);
        assert((a + b1).len() == n - 1);
        assert(ab[n - 1] == b[m - 1]);
        let ra = alternatives_result(index, kg, enabled, names, a, a.len() as int);
        let rb1 = alternatives_result(index, kg, enabled, names, b1, m - 1);
        let last = alternative_result(index, kg, enabled, names, b[m - 1]);
        if let (Some(x), Some(y)) = (ra, rb1) {
            if let Some(Some(more)) = last {
                assert(x.union(y).union(more) =~= x.union(y.union(more)));
            }
        }
    }
}

proof fn lemma_entries_parts_prefix(
    index: &DiskInvertedIndex,
    names: Map<u32, String>,
    s: Seq<Seq<char>>,
    t: Seq<Seq<char>>,
    n: int,
)
    requires
        0 <= n <= s.len(),
        n <= t.len(),
        s.take(n) == t.take(n),
    ensures
        entries_parts(index, names, s, n) == entries_parts(index, names, t, n),
    decreases n,
{
    if n > 0 {
        assert(s.take(n - 1) =~= t.take(n - 1)) by {
            assert forall|i: int| 0 <= i < n - 1 implies #[trigger] s.take(n - 1)[i] == t.take(n - 1)[i] by {
                assert(s.take(n)[i] == t.take(n)[i]);
            }
        }
        assert(s[n - 1] == s.take(n)[n - 1]);
        assert(t[n - 1] == t.take(n)[n - 1]);
        lemma_entries_parts_prefix(index, names, s, t, n - 1);
    }
}

/// The documents that a negated entry excludes, where looking it up succeeds.
pub open spec fn excluded_names(index: &DiskInvertedIndex, names: Map<u32, String>, e: Seq<char>) -> Option<Seq<Seq<char>>> {
    match entry_found(index, names, e) {
        None => None,
        Some(f) => Some(contribution_spec(true, phrase_entry(e), f).1),
    }
}

/// `-` excludes: appending a negated entry to an alternative's entries
/// leaves the lists to meet as they were and takes exactly the entry's
/// documents out of the result; the whole fails exactly where the entries
/// before it or the entry's lookup fail.
pub proof fn lemma_negated_entry_excludes(
    index: &DiskInvertedIndex,
    names: Map<u32, String>,
    es: Seq<Seq<char>>,
    e: Seq<char>,
)
    requires
        negated_entry(e),
    ensures
        entries_parts(index, names, es.push(e), es.len() + 1int) == match (
            entries_parts(index, names, es, es.len() as int),
            excluded_names(index, names, e),
        ) {
            (Some((ands, nots)), Some(x)) => Some((ands, nots + x)),
            _ => None::<(Seq<Seq<Seq<char>>>, Seq<Seq<char>>)>,
        },
        forall|ands: Seq<Seq<Seq<char>>>, nots: Seq<Seq<char>>, x: Seq<Seq<char>>|
            #[trigger] meet_all(ands).difference((nots + x).to_set())
                == meet_all(ands).difference(nots.to_set()).difference(x.to_set()),
{
    let t = es.push(e);
    assert(t.take(es.len() as int) =~= es.take(es.len() as int));
    lemma_entries_parts_prefix(index, names, t, es, es.len() as int);
    assert(t[es.len() as int] == e);
    if let Some((ands, nots)) = entries_parts(index, names, es, es.len() as int) {
        assert(ands + Seq::<Seq<Seq<char>>>::empty() =~= ands);
    }
    assert forall|ands: Seq<Seq<Seq<char>>>, nots: Seq<Seq<char>>, x: Seq<Seq<char>>|
        #[trigger] meet_all(ands).difference((nots + x).to_set())
            == meet_all(ands).difference(nots.to_set()).difference(x.to_set()) by {
        assert forall|d: Seq<char>| (nots + x).to_set().contains(d) <==> (nots.to_set().contains(d) || x.to_set().contains(d)) by {
            if nots.contains(d) {
                let i = choose|i: int| 0 <= i < nots.len() && nots[i] == d;
                assert((nots + x)[i] == d);
            }
            if x.contains(d) {
                let i = choose|i: int| 0 <= i < x.len() && x[i] == d;
                assert((nots + x)[nots.len() + i] == d);
            }
            if (nots + x).contains(d) {
                let i = choose|i: int| 0 <= i < (nots + x).len() && (nots + x)[i] == d;
                if i < nots.len() {
                    assert(nots[i] == d);
                } else {
                    assert(x[i - nots.len()] == d);
                }
            }
        }
        assert(meet_all(ands).difference((nots + x).to_set()) =~= meet_all(ands).difference(nots.to_set()).difference(x.to_set()));
    }
}


/// `+` is OR: a query made of two queries of plain words (no `+` token, no
/// token that opens with `(` or ends with `)`) put together with ` + `
/// finds the documents that either one finds, and fails exactly where one
/// of them fails.
pub proof fn lemma_plus_is_or(
    index: &DiskInvertedIndex,
    kg: Map<Seq<char>, Seq<Seq<char>>>,
    enabled: bool,
    names: Map<u32, String>,
    a: Seq<char>,
    b: Seq<char>,
)
    requires
        words_spec(a).len() > 0,
        words_spec(b).len() > 0,
        plain_tokens(words_spec(a)),
        plain_tokens(words_spec(b)),
        (a + seq![' ', '+', ' '] + b).len() < i32::MAX,
    ensures
        bool_query_result(index, kg, enabled, names, a + seq![' ', '+', ' '] + b) == match (
            bool_query_result(index, kg, enabled, names, a),
            bool_query_result(index, kg, enabled, names, b),
        ) {
            (Some(x), Some(y)) => Some(x.union(y)),
            _ => None::<Set<Seq<char>>>,
        },
{
    lemma_plus_splits(a, b);
    lemma_plain_query(a);
    lemma_plain_query(b);
    let pa = process_spec(a)->0;
    let pb = process_spec(b)->0;
    lemma_alternatives_union(index, kg, enabled, names, pa, pb);
}


proof fn lemma_two_words_parse(x: Seq<char>, w: Seq<char>)
    requires
        x.len() > 0,
        w.len() > 0,
        forall|i: int| 0 <= i < x.len() ==> !white_space(#[trigger] x[i]),
        forall|i: int| 0 <= i < w.len() ==> !white_space(#[trigger] w[i]),
        plain_tokens(seq![x, w]),
    ensures
        process_spec(x + seq![' '] + w) == Some(seq![x + seq![' '] + w]),
        process_spec(x) == Some(seq![x]),
        words_spec(x + seq![' '] + w) == seq![x, w],
        words_spec(x) == seq![x],
        words_spec(w) == seq![w],
{
    let q = x + seq![' '] + w;
    lemma_words_single(x);
    lemma_words_single(w);
    assert(q =~= x.push(' ') + w);
    assert(x.push(' ').drop_last() =~= x);
    assert(x.push(' ').last() == ' ');
    lemma_words_append(x.push(' '), w);
    assert(words_spec(q) =~= seq![x, w]);
    assert(plain_tokens(seq![x])) by {
        assert(seq![x, w][0] == x);
    }
    lemma_plain_query(q);
    lemma_plain_query(x);
    assert(seq![x, w].drop_last() =~= seq![x]);
    assert(seq![x, w].last() == w);
    assert(join_spec(seq![x], space()) == x);
    assert(join_spec(seq![x, w], space()) =~= q);
}

proof fn lemma_two_words_entries(x: Seq<char>, w: Seq<char>)
    requires
        !opens_quote(x),
        !opens_quote(w),
    ensures
        entry_state(seq![x, w], 2).0 == seq![x, w],
        entry_state(seq![x], 1).0 == seq![x],
{
    let ts = seq![x, w];
    assert(entry_state(ts, 1) == (seq![x], Seq::<Seq<char>>::empty(), false)) by {
        assert(entry_state(ts, 0) == (Seq::<Seq<char>>::empty(), Seq::<Seq<char>>::empty(), false));
        assert(Seq::<Seq<char>>::empty().push(x) =~= seq![x]);
    }
    assert(entry_state(ts, 2).0 =~= ts);
    let tx = seq![x];
    assert(entry_state(tx, 1).0 =~= tx) by {
        assert(entry_state(tx, 0) == (Seq::<Seq<char>>::empty(), Seq::<Seq<char>>::empty(), false));
        assert(Seq::<Seq<char>>::empty().push(x) =~= tx);
    }
}

proof fn lemma_minus_word(x: Seq<char>, y: Seq<char>)
    requires
        y.len() > 0,
        y[0] != '"',
        forall|i: int| 0 <= i < y.len() ==> !white_space(#[trigger] y[i]),
    ensures
        x + seq![' ', '-'] + y == x + seq![' '] + (seq!['-'] + y),
        !opens_quote(seq!['-'] + y),
        forall|i: int| 0 <= i < (seq!['-'] + y).len() ==> !white_space(#[trigger] (seq!['-'] + y)[i]),
{
    let d = seq!['-'] + y;
    assert(x + seq![' ', '-'] + y =~= x + seq![' '] + d);
    assert(d[0] == '-');
    if d.len() >= 2 {
        assert(d[1] == y[0]);
    }
    assert forall|i: int| 0 <= i < d.len() implies !white_space(#[trigger] d[i]) by {
        if i > 0 {
            assert(d[i] == y[i - 1]);
        }
    }
}

/// `-` excludes: with the k-gram index switched off, the query `x -y` of
/// two words (no white space in either, neither opening a quote, no NEAR
/// literal, and the parser taking both as they are) finds the documents
/// that `x` finds less those that the negated word `-y` stands for, and
/// fails exactly where `x` or the lookup of `-y` fails.
#[verifier::spinoff_prover]
pub proof fn lemma_minus_excludes(
    index: &DiskInvertedIndex,
    kg: Map<Seq<char>, Seq<Seq<char>>>,
    names: Map<u32, String>,
    x: Seq<char>,
    y: Seq<char>,
)
    requires
        x.len() > 0,
        y.len() > 0,
        forall|i: int| 0 <= i < x.len() ==> !white_space(#[trigger] x[i]),
        forall|i: int| 0 <= i < y.len() ==> !white_space(#[trigger] y[i]),
        x[0] != '-' && x[0] != '"' && y[0] != '"',
        plain_tokens(seq![x, seq!['-'] + y]),
        !has_infix(x + seq![' ', '-'] + y, near_marker()),
        !has_infix(x, near_marker()),
        (x + seq![' ', '-'] + y).len() < i32::MAX,
    ensures
        bool_query_result(index, kg, false, names, x + seq![' ', '-'] + y) == match (
            bool_query_result(index, kg, false, names, x),
            excluded_names(index, names, seq!['-'] + y),
        ) {
            (Some(t), Some(e)) => Some(t.difference(e.to_set())),
            _ => None::<Set<Seq<char>>>,
        },
{
    let d = seq!['-'] + y;
    let q = x + seq![' ', '-'] + y;
    let ts = seq![x, d];
    let tx = seq![x];
    lemma_minus_word(x, y);
    assert(!opens_quote(x));
    lemma_two_words_parse(x, d);
    lemma_two_words_entries(x, d);
    assert(and_entries_spec(q) == ts);
    assert(and_entries_spec(x) == tx);
    assert(expand_entries(kg, false, ts) == ts);
    assert(expand_entries(kg, false, tx) == tx);
    assert(negated_entry(d));
    lemma_negated_entry_excludes(index, names, tx, d);
    assert(tx.push(d) =~= ts);
    assert(seq![q][0] == q);
    assert(seq![x][0] == x);
    reveal(alternative_result);
    let aq = alternative_result(index, kg, false, names, q);
    let ax = alternative_result(index, kg, false, names, x);
    assert(aq == match entries_parts(index, names, ts, 2) {
        None => None,
        Some((ands, nots)) => if ands.len() == 0 {
            Some(None)
        } else {
            Some(Some(meet_all(ands).difference(nots.to_set())))
        },
    });
    assert(ax == match entries_parts(index, names, tx, 1) {
        None => None,
        Some((ands, nots)) => if ands.len() == 0 {
            Some(None)
        } else {
            Some(Some(meet_all(ands).difference(nots.to_set())))
        },
    });
    assert(x.len() < i32::MAX);
    assert(bool_query_result(index, kg, false, names, q) == alternatives_result(index, kg, false, names, seq![q], 1));
    assert(bool_query_result(index, kg, false, names, x) == alternatives_result(index, kg, false, names, seq![x], 1));
    assert(alternatives_result(index, kg, false, names, seq![q], 0) == Some(Set::<Seq<char>>::empty()));
    assert(alternatives_result(index, kg, false, names, seq![x], 0) == Some(Set::<Seq<char>>::empty()));
    if let (Some(px), Some(e)) = (entries_parts(index, names, tx, 1), excluded_names(index, names, d)) {
        let (ands, nots) = px;
        if ands.len() == 0 {
            assert(Set::<Seq<char>>::empty().difference(e.to_set()) =~= Set::<Seq<char>>::empty());
        } else {
            let t = meet_all(ands).difference(nots.to_set());
            assert(Set::<Seq<char>>::empty().union(t) =~= t);
            assert(Set::<Seq<char>>::empty().union(t.difference(e.to_set())) =~= t.difference(e.to_set()));
            assert(meet_all(ands).difference((nots + e).to_set()) == t.difference(e.to_set()));
        }
    }
}


proof fn lemma_meet_empty_last(lists: Seq<Seq<Seq<char>>>)
    requires
        lists.len() > 0,
        lists.last().len() == 0,
    ensures
        meet_all(lists) == Set::<Seq<char>>::empty(),
{
    assert(lists.last().to_set() =~= Set::<Seq<char>>::empty());
    if lists.len() == 1 {
        assert(lists[0] == lists.last());
    } else {
        assert(meet_all(lists) =~= Set::<Seq<char>>::empty());
    }
}

/// An AND with a word that the index lacks finds nothing: with the k-gram
/// index switched off, the query `x y` of two words (no white space in
/// either, neither negated nor opening a quote, no NEAR literal, the parser
/// taking both as they are), where some term of `y` is not in the
/// vocabulary, finds no document; it fails exactly where `x` fails.
#[verifier::spinoff_prover]
pub proof fn lemma_and_missing_word_finds_nothing(
    index: &DiskInvertedIndex,
    kg: Map<Seq<char>, Seq<Seq<char>>>,
    names: Map<u32, String>,
    x: Seq<char>,
    y: Seq<char>,
)
    requires
        x.len() > 0,
        y.len() > 0,
        forall|i: int| 0 <= i < x.len() ==> !white_space(#[trigger] x[i]),
        forall|i: int| 0 <= i < y.len() ==> !white_space(#[trigger] y[i]),
        x[0] != '-' && x[0] != '"' && y[0] != '-' && y[0] != '"',
        plain_tokens(seq![x, y]),
        !has_infix(x + seq![' '] + y, near_marker()),
        !has_infix(x, near_marker()),
        (x + seq![' '] + y).len() < i32::MAX,
        entry_found(index, names, y) matches Some(f) && first_missing(f, 0) < f.len(),
    ensures
        bool_query_result(index, kg, false, names, x + seq![' '] + y) == if bool_query_result(index, kg, false, names, x) is Some {
            Some(Set::<Seq<char>>::empty())
        } else {
            None
        },
{
    let q = x + seq![' '] + y;
    let ts = seq![x, y];
    let tx = seq![x];
    assert(!opens_quote(x) && !opens_quote(y));
    lemma_two_words_parse(x, y);
    lemma_two_words_entries(x, y);
    assert(and_entries_spec(q) == ts);
    assert(and_entries_spec(x) == tx);
    assert(expand_entries(kg, false, ts) == ts);
    assert(expand_entries(kg, false, tx) == tx);
    assert(ts.take(1) =~= tx.take(1));
    lemma_entries_parts_prefix(index, names, ts, tx, 1);
    assert(ts[1] == y);
    assert(!negated_entry(y));
    assert(!phrase_entry(y));
    reveal(alternative_result);
    assert(seq![q][0] == q);
    assert(seq![x][0] == x);
    let f = entry_found(index, names, y)->0;
    let wl = word_lists(f);
    assert(wl.len() > 0 && wl.last().len() == 0);
    assert(contribution_spec(false, false, f) == (wl, Seq::<Seq<char>>::empty()));
    let aq = alternative_result(index, kg, false, names, q);
    let ax = alternative_result(index, kg, false, names, x);
    assert(aq == match entries_parts(index, names, ts, 2) {
        None => None,
        Some((ands, nots)) => if ands.len() == 0 {
            Some(None)
        } else {
            Some(Some(meet_all(ands).difference(nots.to_set())))
        },
    });
    assert(ax == match entries_parts(index, names, tx, 1) {
        None => None,
        Some((ands, nots)) => if ands.len() == 0 {
            Some(None)
        } else {
            Some(Some(meet_all(ands).difference(nots.to_set())))
        },
    });
    assert(x.len() < i32::MAX);
    assert(bool_query_result(index, kg, false, names, q) == alternatives_result(index, kg, false, names, seq![q], 1));
    assert(bool_query_result(index, kg, false, names, x) == alternatives_result(index, kg, false, names, seq![x], 1));
    assert(alternatives_result(index, kg, false, names, seq![q], 0) == Some(Set::<Seq<char>>::empty()));
    assert(alternatives_result(index, kg, false, names, seq![x], 0) == Some(Set::<Seq<char>>::empty()));
    if let Some((ands, nots)) = entries_parts(index, names, tx, 1) {
        assert(entries_parts(index, names, ts, 2) == Some((ands + wl, nots + Seq::<Seq<char>>::empty())));
        let all = ands + wl;
        assert(all.last() == wl.last());
        lemma_meet_empty_last(all);
        assert(Set::<Seq<char>>::empty().difference(nots.to_set()) =~= Set::<Seq<char>>::empty());
        assert(Set::<Seq<char>>::empty().union(Set::<Seq<char>>::empty()) =~= Set::<Seq<char>>::empty());
    }
}

/// `-` is set difference: with the k-gram index switched off, for two words
/// `x` and `y` as in `lemma_minus_excludes`, where `-y` normalizes as `y`
/// does and `y` normalizes to one term, the query `x -y` finds the
/// documents that `x` finds less those that `y` finds; it fails exactly
/// where one of `x` and `y` fails.
#[verifier::spinoff_prover]
pub proof fn lemma_minus_is_difference(
    index: &DiskInvertedIndex,
    kg: Map<Seq<char>, Seq<Seq<char>>>,
    names: Map<u32, String>,
    x: Seq<char>,
    y: Seq<char>,
)
    requires
        x.len() > 0,
        y.len() > 0,
        forall|i: int| 0 <= i < x.len() ==> !white_space(#[trigger] x[i]),
        forall|i: int| 0 <= i < y.len() ==> !white_space(#[trigger] y[i]),
        x[0] != '-' && x[0] != '"' && y[0] != '-' && y[0] != '"',
        plain_tokens(seq![x, seq!['-'] + y]),
        plain_tokens(seq![y]),
        !has_infix(x + seq![' ', '-'] + y, near_marker()),
        !has_infix(x, near_marker()),
        !has_infix(y, near_marker()),
        (x + seq![' ', '-'] + y).len() < i32::MAX,
        byte_len(seq!['-'] + y) <= i32::MAX,
        normalize_spec(seq!['-'] + y, byte_len(seq!['-'] + y)) == normalize_spec(y, byte_len(y)),
        normalize_spec(y, byte_len(y)).len() == 1,
    ensures
        bool_query_result(index, kg, false, names, x + seq![' ', '-'] + y) == match (
            bool_query_result(index, kg, false, names, x),
            bool_query_result(index, kg, false, names, y),
        ) {
            (Some(t), Some(u)) => Some(t.difference(u)),
            _ => None::<Set<Seq<char>>>,
        },
{
    let d = seq!['-'] + y;
    lemma_minus_excludes(index, kg, names, x, y);
    lemma_minus_word(x, y);
    lemma_two_words_parse(x, d);
    lemma_words_single(y);
    assert(!phrase_entry(d));
    assert(!phrase_entry(y));
    assert(byte_len(y) <= byte_len(d)) by {
        crate::text::lemma_byte_len_concat(seq!['-'], y);
        crate::text::lemma_byte_len_at_least_chars(seq!['-']);
    }
    assert(stemmable(d) == stemmable(y));
    assert(entry_found(index, names, d) == entry_found(index, names, y));
    // The query `y` alone.
    assert(plain_tokens(words_spec(y)));
    lemma_plain_query(y);
    assert(join_spec(seq![y], space()) == y);
    assert(!opens_quote(y));
    lemma_two_words_entries(y, y);
    let ty = seq![y];
    assert(and_entries_spec(y) == ty);
    assert(expand_entries(kg, false, ty) == ty);
    assert(ty[0] == y);
    reveal(alternative_result);
    assert(seq![y][0] == y);
    if let Some(f) = entry_found(index, names, y) {
        let stems = normalize_spec(y, byte_len(y)).map_values(|w: Seq<char>| english_stem(w));
        assert(stems.len() == 1);
        assert(lookup_state(index, names, stems, 0) == Some((Seq::<Option<Seq<Seq<char>>>>::empty(), false)));
        assert(Some(f) == word_found(index, names, y));
        assert(f.len() == 1);
        let ex = concat_all(found_before_missing(f));
        let wl = word_lists(f);
        let u = meet_all(wl);
        assert(entries_parts(index, names, ty, 0) == Some((Seq::<Seq<Seq<char>>>::empty(), Seq::<Seq<char>>::empty())));
        assert(contribution_spec(false, false, f) == (wl, Seq::<Seq<char>>::empty()));
        assert(entries_parts(index, names, ty, 1) == Some((Seq::<Seq<Seq<char>>>::empty() + wl, Seq::<Seq<char>>::empty() + Seq::<Seq<char>>::empty())));
        assert(excluded_names(index, names, d) == Some(ex));
        assert(y.len() < i32::MAX);
        assert(bool_query_result(index, kg, false, names, y) == alternatives_result(index, kg, false, names, seq![y], 1));
        assert(alternatives_result(index, kg, false, names, seq![y], 0) == Some(Set::<Seq<char>>::empty()));
        assert(wl.len() > 0);
        assert(Seq::<Seq<Seq<char>>>::empty() + wl =~= wl);
        assert(Seq::<Seq<char>>::empty() + Seq::<Seq<char>>::empty() =~= Seq::<Seq<char>>::empty());
        assert(Seq::<Seq<char>>::empty().to_set() =~= Set::<Seq<char>>::empty());
        assert(u.difference(Set::<Seq<char>>::empty()) =~= u);
        assert(Set::<Seq<char>>::empty().union(u) =~= u);
        if f[0] is Some {
            assert(first_missing(f, 1) == 1);
            assert(found_before_missing(f) =~= seq![f[0]->0]);
            assert(wl =~= seq![f[0]->0]);
            assert(seq![f[0]->0].drop_last() =~= Seq::<Seq<Seq<char>>>::empty());
            assert(concat_all(Seq::<Seq<Seq<char>>>::empty()) == Seq::<Seq<char>>::empty());
            assert(ex =~= f[0]->0);
            assert(u == (f[0]->0).to_set());
            assert(bool_query_result(index, kg, false, names, y) == Some(ex.to_set()));
        } else {
            assert(found_before_missing(f) =~= Seq::<Seq<Seq<char>>>::empty());
            assert(ex =~= Seq::<Seq<char>>::empty());
            lemma_meet_empty_last(wl);
            assert(ex.to_set() =~= Set::<Seq<char>>::empty());
            assert(bool_query_result(index, kg, false, names, y) == Some(Set::<Seq<char>>::empty()));
            if let Some(t) = bool_query_result(index, kg, false, names, x) {
                assert(t.difference(Set::<Seq<char>>::empty()) =~= t);
            }
        }
    }
}

} // verus!
