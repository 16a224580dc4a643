//! The vocabulary over all classes: the terms of the on-disk indexes of the
//! three authors, each once.
use vstd::prelude::*;
use crate::index::disk_inverted_index::{DiskInvertedIndex, first_occurrences, vocab_readable, vocab_terms};
use crate::processor::query_plan::{join_all, union_all};
use crate::processor::query_processor::string_views;
use crate::text::{lex_lt, ref_views, sort_terms};

verus! {

/// Whether the vocabulary of an index can be read.
pub open spec fn readable(index: &DiskInvertedIndex) -> bool {
    vocab_readable(index.table(), index.vocab_bytes())
}

/// The terms of the vocabulary of an index.
pub open spec fn vocabulary(index: &DiskInvertedIndex) -> Set<Seq<char>> {
    first_occurrences(vocab_terms(index.table(), index.vocab_bytes())).to_set()
}

/// The terms of the three vocabularies, each once and in no particular
/// order; `None` where one of them cannot be read.
pub fn get_all_vocab(hamilton: &DiskInvertedIndex, jay: &DiskInvertedIndex, madison: &DiskInvertedIndex) -> (r: Option<Vec<String>>)
    ensures
        r is Some <==> readable(hamilton) && readable(jay) && readable(madison),
        r matches Some(v) ==> {
            &&& string_views(v@).no_duplicates()
            &&& string_views(v@).to_set() == vocabulary(hamilton) + vocabulary(jay) + vocabulary(madison)
        },
{
    let h = match hamilton.try_get_vocab() {
        None => return None,
        Some(v) => v,
    };
    let j = match jay.try_get_vocab() {
        None => return None,
        Some(v) => v,
    };
    let m = match madison.try_get_vocab() {
        None => return None,
        Some(v) => v,
    };
    let ghost hv = string_views(h@);
    let ghost jv = string_views(j@);
    let ghost mv = string_views(m@);
    let lists = vec![h, j, m];
    let ghost lv = lists@.map_values(|l: Vec<String>| string_views(l@));
    assert(lv =~= seq![hv, jv, mv]);
    assert(lv.drop_last() =~= seq![hv, jv]);
    assert(lv.drop_last().drop_last() =~= seq![hv]);
    assert(lv.drop_last().drop_last().drop_last() =~= Seq::<Seq<Seq<char>>>::empty());
    assert(join_all(lv) =~= Set::<Seq<char>>::empty().union(hv.to_set()).union(jv.to_set()).union(mv.to_set())) by {
        reveal_with_fuel(join_all, 4);
    }
    let all = union_all(&lists);
    assert(string_views(all@).to_set() =~= hv.to_set() + jv.to_set() + mv.to_set());
    Some(all)
}

/// The terms of the three vocabularies, each once, in ascending order;
/// `None` where one of them cannot be read.
pub fn get_all_vocab_sorted(hamilton: &DiskInvertedIndex, jay: &DiskInvertedIndex, madison: &DiskInvertedIndex) -> (r: Option<Vec<String>>)
    ensures
        r is Some <==> readable(hamilton) && readable(jay) && readable(madison),
        r matches Some(v) ==> {
            &&& forall|i: int, k: int| 0 <= i < k < v@.len() ==> lex_lt(#[trigger] v@[i]@, #[trigger] v@[k]@)
            &&& string_views(v@).to_set() == vocabulary(hamilton) + vocabulary(jay) + vocabulary(madison)
        },
{
    let all = match get_all_vocab(hamilton, jay, madison) {
        None => return None,
        Some(v) => v,
    };
    let mut refs: Vec<&String> = Vec::new();
    let mut i: usize = 0;
    while i < all.len()
        invariant
            i <= all@.len(),
            ref_views(refs@) == string_views(all@).take(i as int),
        decreases all@.len() - i,
    {
        refs.push(&all[i]);
        assert(string_views(all@).take(i + 1) =~= string_views(all@).take(i as int).push(all@[i as int]@));
        assert(ref_views(refs@) =~= string_views(all@).take(i + 1));
        i = i + 1;
    }
    assert(string_views(all@).take(all@.len() as int) =~= string_views(all@));
    let sorted = sort_terms(refs);
    let mut out: Vec<String> = Vec::new();
    let mut k: usize = 0;
    while k < sorted.len()
        invariant
            k <= sorted@.len(),
            string_views(out@) == ref_views(sorted@).take(k as int),
        decreases sorted@.len() - k,
    {
        out.push(sorted[k].clone());
        assert(ref_views(sorted@).take(k + 1) =~= ref_views(sorted@).take(k as int).push(sorted@[k as int]@));
        assert(string_views(out@) =~= ref_views(sorted@).take(k + 1));
        k = k + 1;
    }
    assert(ref_views(sorted@).take(sorted@.len() as int) =~= ref_views(sorted@));
    assert forall|a: int, b: int| 0 <= a < b < out@.len() implies lex_lt(#[trigger] out@[a]@, #[trigger] out@[b]@) by {
        assert(out@[a]@ == string_views(out@)[a]);
        assert(out@[b]@ == string_views(out@)[b]);
        assert(ref_views(sorted@)[a] == sorted@[a]@);
        assert(ref_views(sorted@)[b] == sorted@[b]@);
    }
    Some(out)
}

} // verus!
