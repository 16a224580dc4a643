//! Merging of postings for queries: proximity (NEAR) and phrase matching of
//! position lists, and intersection of sorted term lists.
use vstd::prelude::*;
use crate::text::{ascii_chars, chars_of, chars_range, contains_char, lex_lt, lemma_lex_order, ref_views, sort_terms, split_chars, split_spec, str_lt, string_from_chars};
use crate::index::k_gram_index::{KGramIndex, marked};
use crate::index::disk_inverted_index::DiskInvertedIndex;
use crate::parser::query_parser::{QueryParser, opt_string_views, process_spec};
use crate::processor::boolean_query::{
    alternative_documents, alternative_result, alternatives_result, bool_query_result, lemma_documents_of_alternatives, lemma_term_lists_none, near_docs,
    phrase_docs, positional_list, term_lists,
};
use crate::processor::query_plan::{near_terms_with, phrase_terms_with, phrase_terms_spec, stemmable};
use crate::parser::document_parser::{EnglishStemmer, add_terms_grams, lemma_terms_grams_indexed};
use crate::text::{lemma_split_nonempty, lemma_split_pieces};
use crate::processor::query_plan::{join_all, union_all};
use std::collections::HashMap;

verus! {

/// Every position fits in an `i32`.
pub open spec fn small_positions(s: Seq<u32>) -> bool {
    forall|i: int| 0 <= i < s.len() ==> #[trigger] s[i] <= i32::MAX
}

/// A strictly increasing sequence of positions.
pub open spec fn ascending(s: Seq<u32>) -> bool {
    forall|i: int, j: int| 0 <= i < j < s.len() ==> s[i] < s[j]
}

/// The walk of `is_near` from indices `i` (first list) and `j` (second list):
/// whether it finds a position of the second list that follows one of the
/// first by at least one and at most `max`.  It moves on in the second list
/// while its position is not past the first list's, else in the first.
pub open spec fn near_walk(f: Seq<u32>, s: Seq<u32>, max: int, i: int, j: int) -> bool
    decreases f.len() - i + s.len() - j,
{
    if i < 0 || j < 0 || i >= f.len() || j >= s.len() {
        false
    } else {
        let diff = s[j] - f[i];
        if diff <= max && diff > 0 {
            true
        } else if diff <= 0 {
            near_walk(f, s, max, i, j + 1)
        } else {
            near_walk(f, s, max, i + 1, j)
        }
    }
}

/// Some position of the second list follows some position of the first by
/// at least one and at most `max`.
pub open spec fn some_near(f: Seq<u32>, s: Seq<u32>, max: int) -> bool {
    exists|i: int, j: int| 0 <= i < f.len() && 0 <= j < s.len() && 0 < #[trigger] s[j] - #[trigger] f[i] <= max
}

/// Whether some position of `second_positions` comes after some position of
/// `first_positions`, at most `max_distance` later, found by a merge walk
/// over both lists (see `near_walk`); on strictly increasing lists this is
/// exactly `some_near` (see `lemma_is_near_exact`).
pub fn is_near(first_positions: &Vec<u32>, second_positions: &Vec<u32>, max_distance: i32) -> (r: bool)
    requires
        small_positions(first_positions@),
        small_positions(second_positions@),
    ensures
        r == near_walk(first_positions@, second_positions@, max_distance as int, 0, 0),
        ascending(first_positions@) && ascending(second_positions@)
            ==> r == some_near(first_positions@, second_positions@, max_distance as int),
{
    let ghost f = first_positions@;
    let ghost s = second_positions@;
    let ghost max = max_distance as int;
    proof {
        if ascending(f) && ascending(s) {
            lemma_is_near_exact(f, s, max_distance);
        }
    }
    let mut i: usize = 0;
    let mut j: usize = 0;
    let mut difference: i32;
    while i < first_positions.len() && j < second_positions.len()
        invariant
            i <= f.len(),
            j <= s.len(),
            f == first_positions@,
            s == second_positions@,
            max == max_distance as int,
            small_positions(f),
            small_positions(s),
            near_walk(f, s, max, i as int, j as int) == near_walk(f, s, max, 0, 0),
        decreases f.len() - i + s.len() - j,
    {
        difference = (second_positions[j] as i32) - (first_positions[i] as i32);
        if difference <= max_distance && difference > 0 {
            return true;
        } else if difference <= 0 {
            j = j + 1;
        } else {
            i = i + 1;
        }
    }
    false
}

proof fn lemma_near_walk_complete(f: Seq<u32>, s: Seq<u32>, max: int, i: int, j: int)
    requires
        ascending(f),
        ascending(s),
        0 <= i <= f.len(),
        0 <= j <= s.len(),
        forall|a: int, b: int| 0 <= a < f.len() && 0 <= b < s.len() && 0 < #[trigger] s[b] - #[trigger] f[a] <= max
            ==> a >= i && b >= j,
    ensures
        near_walk(f, s, max, i, j) == some_near(f, s, max),
    decreases f.len() - i + s.len() - j,
{
    if i >= f.len() || j >= s.len() {
        if some_near(f, s, max) {
            let (a, b) = choose|a: int, b: int| 0 <= a < f.len() && 0 <= b < s.len() && 0 < #[trigger] s[b] - #[trigger] f[a] <= max;
        }
    } else {
        let diff = s[j] - f[i];
        if diff <= max && diff > 0 {
            assert(0 < s[j] - f[i] <= max);
        } else if diff <= 0 {
            assert forall|a: int, b: int| 0 <= a < f.len() && 0 <= b < s.len() && 0 < #[trigger] s[b] - #[trigger] f[a] <= max
                implies a >= i && b >= j + 1 by {
                if b == j && a >= i {
                    assert(f[i] <= f[a]) by {
                        if a > i {
                            assert(f[i] < f[a]);
                        }
                    }
                }
            }
            lemma_near_walk_complete(f, s, max, i, j + 1);
        } else {
            assert forall|a: int, b: int| 0 <= a < f.len() && 0 <= b < s.len() && 0 < #[trigger] s[b] - #[trigger] f[a] <= max
                implies a >= i + 1 && b >= j by {
                if a == i && b >= j {
                    assert(s[j] <= s[b]) by {
                        if b > j {
                            assert(s[j] < s[b]);
                        }
                    }
                }
            }
            lemma_near_walk_complete(f, s, max, i + 1, j);
        }
    }
}

/// On strictly increasing position lists, the walk of `is_near` answers
/// whether some position of the second list follows one of the first by at
/// least one and at most `max_distance`, shared positions included.
pub proof fn lemma_is_near_exact(f: Seq<u32>, s: Seq<u32>, max_distance: i32)
    requires
        ascending(f),
        ascending(s),
    ensures
        near_walk(f, s, max_distance as int, 0, 0) == some_near(f, s, max_distance as int),
{
    lemma_near_walk_complete(f, s, max_distance as int, 0, 0);
}

/// The walk of `adjacent_positions` from index `j` of `tp` and `i` of `p`:
/// the positions of `tp` it keeps, in order.
pub open spec fn adjacent_walk(tp: Seq<u32>, p: Seq<u32>, j: int, i: int) -> Seq<u32>
    decreases tp.len() - j + p.len() - i,
{
    if j < 0 || i < 0 || j >= tp.len() || i >= p.len() {
        Seq::empty()
    } else {
        let diff = tp[j] - p[i];
        if diff == 1 {
            seq![tp[j]] + adjacent_walk(tp, p, j + 1, i + 1)
        } else if diff <= 0 {
            adjacent_walk(tp, p, j + 1, i)
        } else {
            adjacent_walk(tp, p, j, i + 1)
        }
    }
}

/// The positions of `term_positions` that directly follow some position of
/// `positions`, found by a merge walk over both lists; on strictly increasing
/// lists these are exactly the positions `x` of `term_positions` with `x - 1`
/// in `positions`.
pub fn adjacent_positions(term_positions: &Vec<u32>, positions: &Vec<u32>) -> (r: Vec<u32>)
    requires
        small_positions(term_positions@),
        small_positions(positions@),
    ensures
        r@ == adjacent_walk(term_positions@, positions@, 0, 0),
        ascending(term_positions@) && ascending(positions@) ==>
            r@ == term_positions@.filter(|x: u32| positions@.contains((x - 1) as u32) && x >= 1),
{
    let ghost tp = term_positions@;
    let ghost p = positions@;
    let mut i: usize = 0;
    let mut j: usize = 0;
    let mut off_by_one_positions: Vec<u32> = Vec::new();
    while j < term_positions.len() && i < positions.len()
        invariant
            j <= tp.len(),
            i <= p.len(),
            tp == term_positions@,
            p == positions@,
            small_positions(tp),
            small_positions(p),
            off_by_one_positions@ + adjacent_walk(tp, p, j as int, i as int) == adjacent_walk(tp, p, 0, 0),
        decreases tp.len() - j + p.len() - i,
    {
        let difference = (term_positions[j] as i32) - (positions[i] as i32);
        if difference == 1 {
            off_by_one_positions.push(term_positions[j]);
            i = i + 1;
            j = j + 1;
        } else if difference <= 0 {
            j = j + 1;
        } else if difference > 1 {
            i = i + 1;
        }
        assert(off_by_one_positions@ + adjacent_walk(tp, p, j as int, i as int) =~= adjacent_walk(tp, p, 0, 0));
    }
    assert(adjacent_walk(tp, p, j as int, i as int) =~= Seq::<u32>::empty());
    proof {
        if ascending(tp) && ascending(p) {
            lemma_adjacent_walk_filter(tp, p, 0, 0);
            assert(tp.skip(0) =~= tp);
        }
    }
    off_by_one_positions
}

proof fn lemma_adjacent_walk_filter(tp: Seq<u32>, p: Seq<u32>, j: int, i: int)
    requires
        ascending(tp),
        ascending(p),
        0 <= j <= tp.len(),
        0 <= i <= p.len(),
        j < tp.len() ==> forall|a: int| 0 <= a < i ==> #[trigger] p[a] + 1 < tp[j],
    ensures
        adjacent_walk(tp, p, j, i) == tp.skip(j).filter(|x: u32| p.contains((x - 1) as u32) && x >= 1),
    decreases tp.len() - j + p.len() - i,
{
    let pred = |x: u32| p.contains((x - 1) as u32) && x >= 1;
    if j >= tp.len() {
        assert(tp.skip(j) =~= Seq::<u32>::empty());
        assert(tp.skip(j).filter(pred) =~= Seq::<u32>::empty());
    } else if i >= p.len() {
        assert forall|k: int| 0 <= k < tp.skip(j).len() implies !pred(#[trigger] tp.skip(j)[k]) by {
            let x = tp[j + k];
            assert(tp.skip(j)[k] == x);
            if p.contains((x - 1) as u32) && x >= 1 {
                let a = choose|a: int| 0 <= a < p.len() && p[a] == (x - 1) as u32;
                assert(p[a] + 1 < tp[j]);
                if k > 0 {
                    assert(tp[j] < tp[j + k]);
                }
            }
        }
        lemma_filter_none(tp.skip(j), pred);
    } else {
        let x = tp[j];
        assert(tp.skip(j) =~= seq![x] + tp.skip(j + 1));
        lemma_filter_cons(x, tp.skip(j + 1), pred);
        let diff = tp[j] - p[i];
        if j + 1 < tp.len() {
            assert(tp[j] < tp[j + 1]);
        }
        if diff == 1 {
            assert(p[i] == (x - 1) as u32);
            assert(pred(x));
            if j + 1 < tp.len() && i + 1 <= p.len() {
                assert forall|a: int| 0 <= a < i + 1 implies #[trigger] p[a] + 1 < tp[j + 1] by {
                    if a < i {
                        assert(p[a] < p[i]);
                    }
                }
            }
            lemma_adjacent_walk_filter(tp, p, j + 1, i + 1);
        } else if diff <= 0 {
            if pred(x) {
                let a = choose|a: int| 0 <= a < p.len() && p[a] == (x - 1) as u32;
                if a >= i {
                    if a > i {
                        assert(p[i] < p[a]);
                    }
                }
            }
            assert(!pred(x));
            if j + 1 < tp.len() {
                assert forall|a: int| 0 <= a < i implies #[trigger] p[a] + 1 < tp[j + 1] by {
                    assert(p[a] + 1 < tp[j]);
                }
            }
            lemma_adjacent_walk_filter(tp, p, j + 1, i);
        } else {
            assert forall|a: int| 0 <= a < i + 1 implies #[trigger] p[a] + 1 < tp[j] by {}
            lemma_adjacent_walk_filter(tp, p, j, i + 1);
        }
    }
}

proof fn lemma_filter_cons(x: u32, rest: Seq<u32>, pred: spec_fn(u32) -> bool)
    ensures
        (seq![x] + rest).filter(pred) == if pred(x) { seq![x] + rest.filter(pred) } else { rest.filter(pred) },
{
    rest.lemma_filter_prepend(x, pred);
    if !pred(x) {
        assert(Seq::<u32>::empty() + rest.filter(pred) =~= rest.filter(pred));
    }
}

proof fn lemma_filter_none(s: Seq<u32>, pred: spec_fn(u32) -> bool)
    requires
        forall|k: int| 0 <= k < s.len() ==> !pred(#[trigger] s[k]),
    ensures
        s.filter(pred) == Seq::<u32>::empty(),
    decreases s.len(),
{
    reveal(Seq::filter);
    if s.len() > 0 {
        lemma_filter_none(s.drop_last(), pred);
        assert(!pred(s.last()));
    }
}

/// The postings of one term as document ids with their positions.
pub open spec fn plist_view(v: Seq<(u32, Vec<u32>)>) -> Seq<(u32, Seq<u32>)> {
    v.map_values(|p: (u32, Vec<u32>)| (p.0, p.1@))
}

/// Every position of every posting fits in an `i32`.
pub open spec fn small_plist(l: Seq<(u32, Seq<u32>)>) -> bool {
    forall|k: int| 0 <= k < l.len() ==> small_positions(#[trigger] l[k].1)
}

/// One step of the phrase merge, walking both postings lists by document
/// from indices `i` and `j`: a document in both keeps the positions of the
/// next term that directly follow one of the current positions, if any.
pub open spec fn phrase_step(cur: Seq<(u32, Seq<u32>)>, next: Seq<(u32, Seq<u32>)>, i: int, j: int) -> Seq<(u32, Seq<u32>)>
    decreases cur.len() - i + next.len() - j,
{
    if i < 0 || j < 0 || i >= cur.len() || j >= next.len() {
        Seq::empty()
    } else if cur[i].0 == next[j].0 {
        let mp = adjacent_walk(next[j].1, cur[i].1, 0, 0);
        if mp.len() == 0 {
            phrase_step(cur, next, i + 1, j + 1)
        } else {
            seq![(cur[i].0, mp)] + phrase_step(cur, next, i + 1, j + 1)
        }
    } else if cur[i].0 < next[j].0 {
        phrase_step(cur, next, i + 1, j)
    } else {
        phrase_step(cur, next, i, j + 1)
    }
}

/// The phrase merge of the first `n` postings lists.
pub open spec fn phrase_spec(lists: Seq<Seq<(u32, Seq<u32>)>>, n: int) -> Seq<(u32, Seq<u32>)>
    decreases n,
{
    if n <= 1 {
        lists[0]
    } else {
        phrase_step(phrase_spec(lists, n - 1), lists[n - 1], 0, 0)
    }
}

proof fn lemma_adjacent_walk_small(tp: Seq<u32>, p: Seq<u32>, j: int, i: int)
    requires
        small_positions(tp),
    ensures
        small_positions(adjacent_walk(tp, p, j, i)),
    decreases tp.len() - j + p.len() - i,
{
    if j < 0 || i < 0 || j >= tp.len() || i >= p.len() {
    } else {
        let diff = tp[j] - p[i];
        if diff == 1 {
            lemma_adjacent_walk_small(tp, p, j + 1, i + 1);
            let r = adjacent_walk(tp, p, j + 1, i + 1);
            assert forall|k: int| 0 <= k < (seq![tp[j]] + r).len() implies #[trigger] (seq![tp[j]] + r)[k] <= i32::MAX by {
                if k > 0 {
                    assert((seq![tp[j]] + r)[k] == r[k - 1]);
                }
            }
        } else if diff <= 0 {
            lemma_adjacent_walk_small(tp, p, j + 1, i);
        } else {
            lemma_adjacent_walk_small(tp, p, j, i + 1);
        }
    }
}

proof fn lemma_phrase_step_small(cur: Seq<(u32, Seq<u32>)>, next: Seq<(u32, Seq<u32>)>, i: int, j: int)
    requires
        small_plist(next),
    ensures
        small_plist(phrase_step(cur, next, i, j)),
    decreases cur.len() - i + next.len() - j,
{
    if i < 0 || j < 0 || i >= cur.len() || j >= next.len() {
    } else if cur[i].0 == next[j].0 {
        lemma_phrase_step_small(cur, next, i + 1, j + 1);
        let mp = adjacent_walk(next[j].1, cur[i].1, 0, 0);
        assert(small_positions(next[j].1));
        lemma_adjacent_walk_small(next[j].1, cur[i].1, 0, 0);
        let r = phrase_step(cur, next, i + 1, j + 1);
        if mp.len() > 0 {
            assert forall|k: int| 0 <= k < (seq![(cur[i].0, mp)] + r).len() implies small_positions(
                #[trigger] (seq![(cur[i].0, mp)] + r)[k].1) by {
                if k > 0 {
                    assert((seq![(cur[i].0, mp)] + r)[k] == r[k - 1]);
                }
            }
        }
    } else if cur[i].0 < next[j].0 {
        lemma_phrase_step_small(cur, next, i + 1, j);
    } else {
        lemma_phrase_step_small(cur, next, i, j + 1);
    }
}

/// Postings in strictly increasing document order, each with strictly
/// increasing positions.
pub open spec fn sorted_plist(l: Seq<(u32, Seq<u32>)>) -> bool {
    &&& forall|a: int, b: int| 0 <= a < b < l.len() ==> (#[trigger] l[a]).0 < (#[trigger] l[b]).0
    &&& forall|a: int| 0 <= a < l.len() ==> ascending(#[trigger] l[a].1)
}

/// The positions of `next_ps` that directly follow a position of `cur_ps`.
pub open spec fn following(next_ps: Seq<u32>, cur_ps: Seq<u32>) -> Seq<u32> {
    next_ps.filter(|x: u32| cur_ps.contains((x - 1) as u32) && x >= 1)
}

proof fn lemma_phrase_step_complete(cur: Seq<(u32, Seq<u32>)>, next: Seq<(u32, Seq<u32>)>, i: int, j: int)
    requires
        sorted_plist(cur),
        sorted_plist(next),
        0 <= i,
        0 <= j,
    ensures
        forall|a: int, b: int| i <= a < cur.len() && j <= b < next.len() && (#[trigger] cur[a]).0 == (#[trigger] next[b]).0
            && following(next[b].1, cur[a].1).len() > 0
            ==> phrase_step(cur, next, i, j).contains((cur[a].0, following(next[b].1, cur[a].1))),
    decreases cur.len() - i + next.len() - j,
{
    let r = phrase_step(cur, next, i, j);
    if i >= cur.len() || j >= next.len() {
    } else if cur[i].0 == next[j].0 {
        lemma_phrase_step_complete(cur, next, i + 1, j + 1);
        let rest = phrase_step(cur, next, i + 1, j + 1);
        assert(ascending(next[j].1) && ascending(cur[i].1));
        lemma_adjacent_walk_filter(next[j].1, cur[i].1, 0, 0);
        assert(next[j].1.skip(0) =~= next[j].1);
        let mp = adjacent_walk(next[j].1, cur[i].1, 0, 0);
        assert(mp == following(next[j].1, cur[i].1));
        let head = if mp.len() == 0 { Seq::<(u32, Seq<u32>)>::empty() } else { seq![(cur[i].0, mp)] };
        assert(r == head + rest);
        assert forall|a: int, b: int| i <= a < cur.len() && j <= b < next.len() && (#[trigger] cur[a]).0 == (#[trigger] next[b]).0
            && following(next[b].1, cur[a].1).len() > 0
            implies r.contains((cur[a].0, following(next[b].1, cur[a].1))) by {
            if a == i {
                if b > j {
                    assert(next[j].0 < next[b].0);
                }
                assert(r[0] == (cur[i].0, mp));
            } else {
                assert(cur[i].0 < cur[a].0);
                if b == j {
                    assert(false);
                }
                let x = (cur[a].0, following(next[b].1, cur[a].1));
                let k = choose|k: int| 0 <= k < rest.len() && rest[k] == x;
                assert(r[head.len() + k] == x);
            }
        }
    } else if cur[i].0 < next[j].0 {
        lemma_phrase_step_complete(cur, next, i + 1, j);
        assert forall|a: int, b: int| i <= a < cur.len() && j <= b < next.len() && (#[trigger] cur[a]).0 == (#[trigger] next[b]).0
            && following(next[b].1, cur[a].1).len() > 0
            implies r.contains((cur[a].0, following(next[b].1, cur[a].1))) by {
            if a == i {
                if b > j {
                    assert(next[j].0 < next[b].0);
                }
                assert(false);
            }
        }
    } else {
        lemma_phrase_step_complete(cur, next, i, j + 1);
        assert forall|a: int, b: int| i <= a < cur.len() && j <= b < next.len() && (#[trigger] cur[a]).0 == (#[trigger] next[b]).0
            && following(next[b].1, cur[a].1).len() > 0
            implies r.contains((cur[a].0, following(next[b].1, cur[a].1))) by {
            if b == j {
                if a > i {
                    assert(cur[i].0 < cur[a].0);
                }
                assert(false);
            }
        }
    }
}

proof fn lemma_phrase_step_sound(cur: Seq<(u32, Seq<u32>)>, next: Seq<(u32, Seq<u32>)>, i: int, j: int, k: int) -> (ab: (int, int))
    requires
        sorted_plist(cur),
        sorted_plist(next),
        0 <= i,
        0 <= j,
        0 <= k < phrase_step(cur, next, i, j).len(),
    ensures
        i <= ab.0 < cur.len(),
        j <= ab.1 < next.len(),
        cur[ab.0].0 == next[ab.1].0,
        phrase_step(cur, next, i, j)[k] == (cur[ab.0].0, following(next[ab.1].1, cur[ab.0].1)),
        following(next[ab.1].1, cur[ab.0].1).len() > 0,
    decreases cur.len() - i + next.len() - j,
{
    let r = phrase_step(cur, next, i, j);
    if cur[i].0 == next[j].0 {
        let rest = phrase_step(cur, next, i + 1, j + 1);
        assert(ascending(next[j].1) && ascending(cur[i].1));
        lemma_adjacent_walk_filter(next[j].1, cur[i].1, 0, 0);
        assert(next[j].1.skip(0) =~= next[j].1);
        let mp = adjacent_walk(next[j].1, cur[i].1, 0, 0);
        assert(mp == following(next[j].1, cur[i].1));
        let head = if mp.len() == 0 { Seq::<(u32, Seq<u32>)>::empty() } else { seq![(cur[i].0, mp)] };
        assert(r == head + rest);
        if k < head.len() {
            assert(r[k] == (cur[i].0, mp));
            (i, j)
        } else {
            assert(r[k] == rest[k - head.len()]);
            lemma_phrase_step_sound(cur, next, i + 1, j + 1, k - head.len())
        }
    } else if cur[i].0 < next[j].0 {
        lemma_phrase_step_sound(cur, next, i + 1, j, k)
    } else {
        lemma_phrase_step_sound(cur, next, i, j + 1, k)
    }
}

/// `x` comes from a document that both lists hold: it is the document with
/// the positions of the next term that directly follow a position of the
/// current one, and there is at least one.
pub open spec fn merged_from(cur: Seq<(u32, Seq<u32>)>, next: Seq<(u32, Seq<u32>)>, x: (u32, Seq<u32>)) -> bool {
    exists|a: int, b: int|
        0 <= a < cur.len() && 0 <= b < next.len() && (#[trigger] cur[a]).0 == (#[trigger] next[b]).0
            && x == (cur[a].0, following(next[b].1, cur[a].1))
            && following(next[b].1, cur[a].1).len() > 0
}

/// On sorted postings lists, one step of the phrase merge gives exactly the
/// documents that both lists hold in which some position of the next term
/// directly follows a position of the current one, each with those
/// positions of the next term.
pub proof fn lemma_phrase_step_exact(cur: Seq<(u32, Seq<u32>)>, next: Seq<(u32, Seq<u32>)>)
    requires
        sorted_plist(cur),
        sorted_plist(next),
    ensures
        forall|k: int| 0 <= k < phrase_step(cur, next, 0, 0).len()
            ==> #[trigger] merged_from(cur, next, phrase_step(cur, next, 0, 0)[k]),
        forall|a: int, b: int| 0 <= a < cur.len() && 0 <= b < next.len() && (#[trigger] cur[a]).0 == (#[trigger] next[b]).0
            && following(next[b].1, cur[a].1).len() > 0
            ==> phrase_step(cur, next, 0, 0).contains((cur[a].0, following(next[b].1, cur[a].1))),
{
    lemma_phrase_step_complete(cur, next, 0, 0);
    assert forall|k: int| 0 <= k < phrase_step(cur, next, 0, 0).len()
        implies #[trigger] merged_from(cur, next, phrase_step(cur, next, 0, 0)[k]) by {
        let (a, b) = lemma_phrase_step_sound(cur, next, 0, 0, k);
        assert(cur[a].0 == next[b].0);
    }
}

proof fn lemma_adjacent_walk_sound(tp: Seq<u32>, p: Seq<u32>, j: int, i: int, x: u32)
    requires
        adjacent_walk(tp, p, j, i).contains(x),
    ensures
        tp.contains(x),
        x >= 1,
        p.contains((x - 1) as u32),
    decreases tp.len() - j + p.len() - i,
{
    let w = adjacent_walk(tp, p, j, i);
    if j < 0 || i < 0 || j >= tp.len() || i >= p.len() {
    } else {
        let diff = tp[j] - p[i];
        if diff == 1 {
            let rest = adjacent_walk(tp, p, j + 1, i + 1);
            let k = choose|k: int| 0 <= k < w.len() && w[k] == x;
            if k == 0 {
                assert(w[0] == tp[j]);
                assert(p[i] == (x - 1) as u32);
            } else {
                assert(rest[k - 1] == x);
                lemma_adjacent_walk_sound(tp, p, j + 1, i + 1, x);
            }
        } else if diff <= 0 {
            lemma_adjacent_walk_sound(tp, p, j + 1, i, x);
        } else {
            lemma_adjacent_walk_sound(tp, p, j, i + 1, x);
        }
    }
}

proof fn lemma_phrase_step_from(cur: Seq<(u32, Seq<u32>)>, next: Seq<(u32, Seq<u32>)>, i: int, j: int, e: int, x: u32) -> (ab: (int, int))
    requires
        0 <= e < phrase_step(cur, next, i, j).len(),
        phrase_step(cur, next, i, j)[e].1.contains(x),
    ensures
        0 <= ab.0 < cur.len(),
        0 <= ab.1 < next.len(),
        cur[ab.0].0 == phrase_step(cur, next, i, j)[e].0,
        next[ab.1].0 == phrase_step(cur, next, i, j)[e].0,
        next[ab.1].1.contains(x),
        x >= 1,
        cur[ab.0].1.contains((x - 1) as u32),
    decreases cur.len() - i + next.len() - j,
{
    let r = phrase_step(cur, next, i, j);
    if cur[i].0 == next[j].0 {
        let rest = phrase_step(cur, next, i + 1, j + 1);
        let mp = adjacent_walk(next[j].1, cur[i].1, 0, 0);
        if mp.len() == 0 {
            lemma_phrase_step_from(cur, next, i + 1, j + 1, e, x)
        } else if e == 0 {
            assert(r[0] == (cur[i].0, mp));
            lemma_adjacent_walk_sound(next[j].1, cur[i].1, 0, 0, x);
            (i, j)
        } else {
            assert(r[e] == rest[e - 1]);
            lemma_phrase_step_from(cur, next, i + 1, j + 1, e - 1, x)
        }
    } else if cur[i].0 < next[j].0 {
        lemma_phrase_step_from(cur, next, i + 1, j, e, x)
    } else {
        lemma_phrase_step_from(cur, next, i, j + 1, e, x)
    }
}

/// Some posting of `l` for document `d` holds position `p`.
pub open spec fn holds_at(l: Seq<(u32, Seq<u32>)>, d: u32, p: int) -> bool {
    exists|b: int| 0 <= b < l.len() && (#[trigger] l[b]).0 == d && l[b].1.contains(p as u32)
}

/// Each position that the phrase merge of the first `n` lists reports for
/// a document is where the last word sits in a real occurrence of the
/// phrase: for every `k < n`, the `k`-th list holds that document at the
/// position `n - 1 - k` places before it.
pub proof fn lemma_phrase_positions_sound(lists: Seq<Seq<(u32, Seq<u32>)>>, n: int, e: int, x: u32, k: int)
    requires
        1 <= n <= lists.len(),
        0 <= e < phrase_spec(lists, n).len(),
        phrase_spec(lists, n)[e].1.contains(x),
        0 <= k < n,
    ensures
        x >= n - 1 - k,
        holds_at(lists[k], phrase_spec(lists, n)[e].0, x - (n - 1 - k)),
    decreases n,
{
    let d = phrase_spec(lists, n)[e].0;
    if n == 1 {
        assert(lists[0][e].0 == d);
        assert((x - 0) as u32 == x);
    } else {
        let cur = phrase_spec(lists, n - 1);
        let (a, b) = lemma_phrase_step_from(cur, lists[n - 1], 0, 0, e, x);
        if k == n - 1 {
            assert((x - 0) as u32 == x);
            assert(lists[k][b].0 == d);
        } else {
            lemma_phrase_positions_sound(lists, n - 1, a, (x - 1) as u32, k);
            assert(((x - 1) as u32) - (n - 2 - k) == x - (n - 1 - k));
        }
    }
}

fn copy_positions(v: &Vec<u32>) -> (r: Vec<u32>)
    ensures
        r@ == v@,
{
    let mut r: Vec<u32> = Vec::new();
    let mut k: usize = 0;
    while k < v.len()
        invariant
            k <= v@.len(),
            r@ == v@.take(k as int),
        decreases v@.len() - k,
    {
        r.push(v[k]);
        assert(v@.take(k + 1) =~= v@.take(k as int).push(v@[k as int]));
        k = k + 1;
    }
    assert(v@.take(v@.len() as int) =~= v@);
    r
}

/// The documents in which the terms whose postings are `postings` occur as
/// a phrase, each term directly after the one before it.
pub fn phrase_merge(postings: &Vec<Vec<(u32, Vec<u32>)>>) -> (documents: Vec<u32>)
    requires
        postings@.len() >= 1,
        forall|k: int| 0 <= k < postings@.len() ==> small_plist(plist_view(#[trigger] postings@[k]@)),
    ensures
        documents@ == phrase_spec(
            postings@.map_values(|l: Vec<(u32, Vec<u32>)>| plist_view(l@)),
            postings@.len() as int,
        ).map_values(|p: (u32, Seq<u32>)| p.0),
{
    let ghost lists = postings@.map_values(|l: Vec<(u32, Vec<u32>)>| plist_view(l@));
    let mut current: Vec<(u32, Vec<u32>)> = Vec::new();
    let first = &postings[0];
    let mut k: usize = 0;
    while k < first.len()
        invariant
            k <= first@.len(),
            postings@.len() >= 1,
            first == postings@[0],
            plist_view(current@) == plist_view(first@).take(k as int),
        decreases first@.len() - k,
    {
        let positions = copy_positions(&first[k].1);
        let ghost before = plist_view(current@);
        current.push((first[k].0, positions));
        assert(plist_view(first@)[k as int] == (first@[k as int].0, first@[k as int].1@));
        assert(plist_view(first@).take(k + 1) =~= plist_view(first@).take(k as int).push(plist_view(first@)[k as int]));
        assert(plist_view(current@) =~= before.push((first@[k as int].0, first@[k as int].1@)));
        k = k + 1;
    }
    assert(plist_view(first@).take(first@.len() as int) =~= plist_view(first@));
    assert(plist_view(current@) == phrase_spec(lists, 1));
    let mut ind: usize = 1;
    while ind < postings.len()
        invariant
            1 <= ind <= postings@.len(),
            lists == postings@.map_values(|l: Vec<(u32, Vec<u32>)>| plist_view(l@)),
            forall|k: int| 0 <= k < postings@.len() ==> small_plist(plist_view(#[trigger] postings@[k]@)),
            plist_view(current@) == phrase_spec(lists, ind as int),
            small_plist(plist_view(current@)),
        decreases postings@.len() - ind,
    {
        let next = &postings[ind];
        let ghost cv = plist_view(current@);
        let ghost nv = plist_view(next@);
        assert(nv == lists[ind as int]);
        assert(small_plist(nv));
        let mut merged: Vec<(u32, Vec<u32>)> = Vec::new();
        let mut i: usize = 0;
        let mut j: usize = 0;
        while i < current.len() && j < next.len()
            invariant
                i <= current@.len(),
                j <= next@.len(),
                cv == plist_view(current@),
                nv == plist_view(next@),
                small_plist(cv),
                small_plist(nv),
                plist_view(merged@) + phrase_step(cv, nv, i as int, j as int) == phrase_step(cv, nv, 0, 0),
            decreases current@.len() - i + next@.len() - j,
        {
            let ghost mv = plist_view(merged@);
            assert(cv[i as int] == (current@[i as int].0, current@[i as int].1@));
            assert(nv[j as int] == (next@[j as int].0, next@[j as int].1@));
            if current[i].0 == next[j].0 {
                assert(small_positions(nv[j as int].1));
                assert(small_positions(cv[i as int].1));
                let merged_positions = adjacent_positions(&next[j].1, &current[i].1);
                if merged_positions.len() == 0 {
                    i = i + 1;
                    j = j + 1;
                    continue;
                }
                let d = current[i].0;
                merged.push((d, merged_positions));
                assert(plist_view(merged@) =~= mv.push((d, merged_positions@)));
                assert(plist_view(merged@) + phrase_step(cv, nv, i + 1, j + 1) =~= mv + phrase_step(cv, nv, i as int, j as int));
                i = i + 1;
                j = j + 1;
            } else if current[i].0 < next[j].0 {
                i = i + 1;
            } else {
                j = j + 1;
            }
        }
        assert(phrase_step(cv, nv, i as int, j as int) =~= Seq::<(u32, Seq<u32>)>::empty());
        assert(plist_view(merged@) =~= plist_view(merged@) + Seq::<(u32, Seq<u32>)>::empty());
        proof {
            lemma_phrase_step_small(cv, nv, 0, 0);
        }
        current = merged;
        ind = ind + 1;
    }
    let ghost fin = plist_view(current@);
    let mut documents: Vec<u32> = Vec::new();
    let mut m: usize = 0;
    while m < current.len()
        invariant
            m <= current@.len(),
            fin == plist_view(current@),
            documents@ == fin.take(m as int).map_values(|p: (u32, Seq<u32>)| p.0),
        decreases current@.len() - m,
    {
        documents.push(current[m].0);
        assert(fin.take(m + 1) =~= fin.take(m as int).push(fin[m as int]));
        assert(documents@ =~= fin.take(m + 1).map_values(|p: (u32, Seq<u32>)| p.0));
        m = m + 1;
    }
    assert(fin.take(current@.len() as int) =~= fin);
    documents
}

/// The documents that `near_merge` reports for the first posting `fp`
/// against the second postings list from index `j` on: the posting's
/// document once for each posting of the same document whose positions are
/// near.
pub open spec fn near_row(fp: (u32, Seq<u32>), second: Seq<(u32, Seq<u32>)>, max: int, j: int) -> Seq<u32>
    decreases second.len() - j,
{
    if j < 0 || j >= second.len() {
        Seq::empty()
    } else {
        let here = if fp.0 == second[j].0 && near_walk(fp.1, second[j].1, max, 0, 0) {
            seq![fp.0]
        } else {
            Seq::<u32>::empty()
        };
        here + near_row(fp, second, max, j + 1)
    }
}

/// The documents that `near_merge` reports, from index `i` of the first list on.
pub open spec fn near_spec(first: Seq<(u32, Seq<u32>)>, second: Seq<(u32, Seq<u32>)>, max: int, i: int) -> Seq<u32>
    decreases first.len() - i,
{
    if i < 0 || i >= first.len() {
        Seq::empty()
    } else {
        near_row(first[i], second, max, 0) + near_spec(first, second, max, i + 1)
    }
}

/// Every posting's positions are strictly increasing.
pub open spec fn positions_ascending(l: Seq<(u32, Seq<u32>)>) -> bool {
    forall|k: int| 0 <= k < l.len() ==> ascending(#[trigger] l[k].1)
}

/// Document `d` has a posting in both lists, `first[a]` and `second[b]`, in
/// which some position of the second follows one of the first by at least
/// one and at most `max`.
pub open spec fn near_in(first: Seq<(u32, Seq<u32>)>, second: Seq<(u32, Seq<u32>)>, max: int, d: u32, a: int, b: int) -> bool {
    &&& 0 <= a < first.len()
    &&& 0 <= b < second.len()
    &&& first[a].0 == d
    &&& second[b].0 == d
    &&& some_near(first[a].1, second[b].1, max)
}

proof fn lemma_near_row_members(fp: (u32, Seq<u32>), second: Seq<(u32, Seq<u32>)>, max: int, j: int, d: u32)
    requires
        0 <= j,
    ensures
        near_row(fp, second, max, j).contains(d) <==> exists|b: int|
            j <= b < second.len() && fp.0 == d && (#[trigger] second[b]).0 == d && near_walk(fp.1, second[b].1, max, 0, 0),
    decreases second.len() - j,
{
    if j < second.len() {
        lemma_near_row_members(fp, second, max, j + 1, d);
        let here = if fp.0 == second[j].0 && near_walk(fp.1, second[j].1, max, 0, 0) { seq![fp.0] } else { Seq::<u32>::empty() };
        let rest = near_row(fp, second, max, j + 1);
        let r = near_row(fp, second, max, j);
        assert(r == here + rest);
        if r.contains(d) {
            let k = choose|k: int| 0 <= k < r.len() && r[k] == d;
            if k < here.len() {
                assert(second[j].0 == d);
            } else {
                assert(rest[k - here.len()] == d);
            }
        }
        if exists|b: int| j <= b < second.len() && fp.0 == d && (#[trigger] second[b]).0 == d && near_walk(fp.1, second[b].1, max, 0, 0) {
            let b = choose|b: int| j <= b < second.len() && fp.0 == d && (#[trigger] second[b]).0 == d && near_walk(fp.1, second[b].1, max, 0, 0);
            if b == j {
                assert(r[0] == d);
            } else {
                let k = choose|k: int| 0 <= k < rest.len() && rest[k] == d;
                assert(r[here.len() + k] == d);
            }
        }
    }
}

proof fn lemma_near_spec_members(first: Seq<(u32, Seq<u32>)>, second: Seq<(u32, Seq<u32>)>, max: int, i: int, d: u32)
    requires
        0 <= i,
        positions_ascending(first),
        positions_ascending(second),
    ensures
        near_spec(first, second, max, i).contains(d) <==> exists|a: int, b: int| i <= a && #[trigger] near_in(first, second, max, d, a, b),
    decreases first.len() - i,
{
    if i < first.len() {
        lemma_near_spec_members(first, second, max, i + 1, d);
        lemma_near_row_members(first[i], second, max, 0, d);
        let row = near_row(first[i], second, max, 0);
        let rest = near_spec(first, second, max, i + 1);
        let r = near_spec(first, second, max, i);
        assert(r == row + rest);
        if r.contains(d) {
            let k = choose|k: int| 0 <= k < r.len() && r[k] == d;
            if k < row.len() {
                assert(row.contains(d));
                let b = choose|b: int| 0 <= b < second.len() && first[i].0 == d && (#[trigger] second[b]).0 == d
                    && near_walk(first[i].1, second[b].1, max, 0, 0);
                assert(ascending(first[i].1) && ascending(second[b].1));
                lemma_near_walk_complete(first[i].1, second[b].1, max, 0, 0);
                assert(near_in(first, second, max, d, i, b));
            } else {
                assert(rest[k - row.len()] == d);
            }
        }
        if exists|a: int, b: int| i <= a && #[trigger] near_in(first, second, max, d, a, b) {
            let (a, b) = choose|a: int, b: int| i <= a && #[trigger] near_in(first, second, max, d, a, b);
            if a == i {
                assert(ascending(first[i].1) && ascending(second[b].1));
                lemma_near_walk_complete(first[i].1, second[b].1, max, 0, 0);
                assert(near_walk(first[i].1, second[b].1, max, 0, 0));
                let k = choose|k: int| 0 <= k < row.len() && row[k] == d;
                assert(r[k] == d);
            } else {
                assert(near_in(first, second, max, d, a, b));
                let k = choose|k: int| 0 <= k < rest.len() && rest[k] == d;
                assert(r[row.len() + k] == d);
            }
        }
    } else {
        if exists|a: int, b: int| i <= a && #[trigger] near_in(first, second, max, d, a, b) {
            let (a, b) = choose|a: int, b: int| i <= a && #[trigger] near_in(first, second, max, d, a, b);
        }
    }
}

/// The NEAR merge reports exactly the documents that have a posting in both
/// lists in which some position of the second term follows one of the first
/// by at least one and at most `max` (position lists strictly increasing):
/// every such document, not only the first, and no other.
pub proof fn lemma_near_merge_documents(first: Seq<(u32, Seq<u32>)>, second: Seq<(u32, Seq<u32>)>, max: int, d: u32)
    requires
        positions_ascending(first),
        positions_ascending(second),
    ensures
        near_spec(first, second, max, 0).contains(d) <==> exists|a: int, b: int| #[trigger] near_in(first, second, max, d, a, b),
{
    lemma_near_spec_members(first, second, max, 0, d);
    if exists|a: int, b: int| #[trigger] near_in(first, second, max, d, a, b) {
        let (a, b) = choose|a: int, b: int| #[trigger] near_in(first, second, max, d, a, b);
        assert(0 <= a && near_in(first, second, max, d, a, b));
    }
}

/// Postings in strictly increasing document order.
pub open spec fn docs_ascending(l: Seq<(u32, Seq<u32>)>) -> bool {
    forall|a: int, b: int| 0 <= a < b < l.len() ==> (#[trigger] l[a]).0 < (#[trigger] l[b]).0
}

/// A strictly increasing sequence of documents.
pub open spec fn rising(s: Seq<u32>) -> bool {
    forall|a: int, b: int| 0 <= a < b < s.len() ==> s[a] < s[b]
}

proof fn lemma_near_row_shape(fp: (u32, Seq<u32>), second: Seq<(u32, Seq<u32>)>, max: int, j: int)
    requires
        0 <= j,
        docs_ascending(second),
    ensures
        forall|k: int| 0 <= k < near_row(fp, second, max, j).len() ==> #[trigger] near_row(fp, second, max, j)[k] == fp.0,
        near_row(fp, second, max, j).len() <= 1,
    decreases second.len() - j,
{
    if j < second.len() {
        lemma_near_row_shape(fp, second, max, j + 1);
        let here = if fp.0 == second[j].0 && near_walk(fp.1, second[j].1, max, 0, 0) { seq![fp.0] } else { Seq::<u32>::empty() };
        let rest = near_row(fp, second, max, j + 1);
        let r = near_row(fp, second, max, j);
        assert(r == here + rest);
        if here.len() > 0 && rest.len() > 0 {
            assert(rest[0] == fp.0);
            lemma_near_row_members(fp, second, max, j + 1, fp.0);
            assert(rest.contains(fp.0));
            let b = choose|b: int| j + 1 <= b < second.len() && fp.0 == fp.0 && (#[trigger] second[b]).0 == fp.0
                && near_walk(fp.1, second[b].1, max, 0, 0);
            assert(second[j].0 < second[b].0);
        }
        assert forall|k: int| 0 <= k < r.len() implies #[trigger] r[k] == fp.0 by {
            if k >= here.len() {
                assert(r[k] == rest[k - here.len()]);
            }
        }
    }
}

proof fn lemma_near_spec_rising(first: Seq<(u32, Seq<u32>)>, second: Seq<(u32, Seq<u32>)>, max: int, i: int)
    requires
        0 <= i,
        docs_ascending(first),
        docs_ascending(second),
    ensures
        rising(near_spec(first, second, max, i)),
        i < first.len() ==> forall|k: int| 0 <= k < near_spec(first, second, max, i).len()
            ==> #[trigger] near_spec(first, second, max, i)[k] >= first[i].0,
    decreases first.len() - i,
{
    if i < first.len() {
        lemma_near_spec_rising(first, second, max, i + 1);
        lemma_near_row_shape(first[i], second, max, 0);
        let row = near_row(first[i], second, max, 0);
        let rest = near_spec(first, second, max, i + 1);
        let r = near_spec(first, second, max, i);
        assert(r == row + rest);
        if i + 1 < first.len() {
            assert(first[i].0 < first[i + 1].0);
        }
        assert forall|k: int| 0 <= k < r.len() implies #[trigger] r[k] >= first[i].0 by {
            if k < row.len() {
                assert(row[k] == first[i].0);
            } else {
                assert(r[k] == rest[k - row.len()]);
            }
        }
        assert forall|a: int, b: int| 0 <= a < b < r.len() implies r[a] < r[b] by {
            if b < row.len() {
                assert(false);
            } else if a < row.len() {
                assert(r[a] == first[i].0);
                assert(r[b] == rest[b - row.len()]);
                assert(rest[b - row.len()] >= first[i + 1].0);
            } else {
                assert(r[a] == rest[a - row.len()]);
                assert(r[b] == rest[b - row.len()]);
            }
        }
    }
}

/// On postings lists in strictly increasing document order, the NEAR merge
/// reports its documents in strictly increasing order, each once; with
/// `lemma_near_merge_documents` this fixes the result: the documents near
/// in both lists, in order.
pub proof fn lemma_near_merge_in_order(first: Seq<(u32, Seq<u32>)>, second: Seq<(u32, Seq<u32>)>, max: int)
    requires
        docs_ascending(first),
        docs_ascending(second),
    ensures
        rising(near_spec(first, second, max, 0)),
{
    lemma_near_spec_rising(first, second, max, 0);
}

/// For each posting of the first term and each posting of the second term in
/// the same document, reports the document when some position of the second
/// term follows one of the first by at most `max_distance` (see `is_near`).
pub fn near_merge(first_postings: &Vec<(u32, Vec<u32>)>, second_postings: &Vec<(u32, Vec<u32>)>, max_distance: i32) -> (documents: Vec<u32>)
    requires
        small_plist(plist_view(first_postings@)),
        small_plist(plist_view(second_postings@)),
    ensures
        documents@ == near_spec(plist_view(first_postings@), plist_view(second_postings@), max_distance as int, 0),
        positions_ascending(plist_view(first_postings@)) && positions_ascending(plist_view(second_postings@))
            ==> forall|d: u32| #[trigger] documents@.contains(d) <==> exists|a: int, b: int|
                #[trigger] near_in(plist_view(first_postings@), plist_view(second_postings@), max_distance as int, d, a, b),
        docs_ascending(plist_view(first_postings@)) && docs_ascending(plist_view(second_postings@)) ==> rising(documents@),
{
    let ghost f = plist_view(first_postings@);
    let ghost s = plist_view(second_postings@);
    let ghost max = max_distance as int;
    let mut documents: Vec<u32> = Vec::new();
    let mut i: usize = 0;
    while i < first_postings.len()
        invariant
            i <= first_postings@.len(),
            f == plist_view(first_postings@),
            s == plist_view(second_postings@),
            max == max_distance as int,
            small_plist(f),
            small_plist(s),
            documents@ + near_spec(f, s, max, i as int) == near_spec(f, s, max, 0),
        decreases first_postings@.len() - i,
    {
        let ghost d0 = documents@;
        let mut j: usize = 0;
        assert(f[i as int] == (first_postings@[i as int].0, first_postings@[i as int].1@));
        while j < second_postings.len()
            invariant
                i < first_postings@.len(),
                j <= second_postings@.len(),
                f == plist_view(first_postings@),
                s == plist_view(second_postings@),
                max == max_distance as int,
                small_plist(f),
                small_plist(s),
                f[i as int] == (first_postings@[i as int].0, first_postings@[i as int].1@),
                documents@ + near_row(f[i as int], s, max, j as int) == d0 + near_row(f[i as int], s, max, 0),
            decreases second_postings@.len() - j,
        {
            let ghost before = documents@;
            assert(s[j as int] == (second_postings@[j as int].0, second_postings@[j as int].1@));
            if first_postings[i].0 == second_postings[j].0 {
                assert(small_positions(f[i as int].1));
                assert(small_positions(s[j as int].1));
                if is_near(&first_postings[i].1, &second_postings[j].1, max_distance) {
                    documents.push(first_postings[i].0);
                }
            }
            assert(documents@ + near_row(f[i as int], s, max, j + 1) =~= before + near_row(f[i as int], s, max, j as int));
            j = j + 1;
        }
        assert(near_row(f[i as int], s, max, j as int) =~= Seq::<u32>::empty());
        assert(documents@ =~= d0 + near_row(f[i as int], s, max, 0));
        assert(documents@ + near_spec(f, s, max, i + 1) =~= d0 + near_spec(f, s, max, i as int));
        i = i + 1;
    }
    assert(near_spec(f, s, max, i as int) =~= Seq::<u32>::empty());
    assert(documents@ =~= documents@ + Seq::<u32>::empty());
    proof {
        if positions_ascending(f) && positions_ascending(s) {
            assert forall|d: u32| #[trigger] documents@.contains(d) <==> exists|a: int, b: int| #[trigger] near_in(f, s, max, d, a, b) by {
                lemma_near_merge_documents(f, s, max, d);
            }
        }
        if docs_ascending(f) && docs_ascending(s) {
            lemma_near_merge_in_order(f, s, max);
        }
    }
    documents
}

/// The terms of a list, each taken by its characters.
pub open spec fn string_views(v: Seq<String>) -> Seq<Seq<char>> {
    v.map_values(|s: String| s@)
}

/// Sorted in the order of `String`'s `Ord` (equal neighbours allowed).
pub open spec fn sorted_terms(s: Seq<Seq<char>>) -> bool {
    forall|i: int, j: int| 0 <= i < j < s.len() ==> !lex_lt(#[trigger] s[j], #[trigger] s[i])
}

/// The terms of `first` that are in `second`, in their order in `first`,
/// where a term equal to the one just before it in `first` is skipped.
pub open spec fn intersection_spec(first: Seq<Seq<char>>, second: Seq<Seq<char>>) -> Seq<Seq<char>>
    decreases first.len(),
{
    if first.len() == 0 {
        Seq::empty()
    } else {
        let prev = intersection_spec(first.drop_last(), second);
        let i = first.len() - 1;
        if (i == 0 || first[i] != first[i - 1]) && second.contains(first[i]) {
            prev.push(first[i])
        } else {
            prev
        }
    }
}

/// Whether the sorted list `v` holds `x` (binary search).
fn sorted_contains(v: &Vec<String>, x: &String) -> (r: bool)
    requires
        sorted_terms(string_views(v@)),
    ensures
        r == string_views(v@).contains(x@),
{
    let ghost sv = string_views(v@);
    let mut lo: usize = 0;
    let mut hi: usize = v.len();
    while lo < hi
        invariant
            lo <= hi <= v@.len(),
            sv == string_views(v@),
            sorted_terms(sv),
            forall|k: int| 0 <= k < lo ==> lex_lt(#[trigger] sv[k], x@),
            forall|k: int| hi <= k < sv.len() ==> lex_lt(x@, #[trigger] sv[k]),
        decreases hi - lo,
    {
        let mid = lo + (hi - lo) / 2;
        assert(sv[mid as int] == v@[mid as int]@);
        if v[mid] == *x {
            assert(sv[mid as int] == x@);
            return true;
        } else if str_lt(v[mid].as_str(), x.as_str()) {
            assert forall|k: int| 0 <= k < mid + 1 implies lex_lt(#[trigger] sv[k], x@) by {
                if k < mid {
                    lemma_lex_order(sv[mid as int], sv[k], x@);
                    lemma_lex_order(sv[k], sv[mid as int], x@);
                }
            }
            lo = mid + 1;
        } else {
            proof {
                lemma_lex_order(x@, sv[mid as int], x@);
            }
            assert forall|k: int| mid <= k < sv.len() implies lex_lt(x@, #[trigger] sv[k]) by {
                if k > mid {
                    lemma_lex_order(sv[k], sv[mid as int], sv[k]);
                    lemma_lex_order(x@, sv[mid as int], sv[k]);
                    lemma_lex_order(sv[mid as int], sv[k], sv[k]);
                }
            }
            hi = mid;
        }
    }
    assert forall|k: int| 0 <= k < sv.len() implies #[trigger] sv[k] != x@ by {
        lemma_lex_order(x@, x@, x@);
    }
    false
}

/// The terms of `first` that are also in the sorted list `second`, skipping
/// a term equal to the one just before it in `first`.
pub fn intersection(first: Vec<String>, second: Vec<String>) -> (intersect: Vec<String>)
    requires
        sorted_terms(string_views(second@)),
    ensures
        string_views(intersect@) == intersection_spec(string_views(first@), string_views(second@)),
{
    let ghost fv = string_views(first@);
    let ghost sv = string_views(second@);
    let mut intersect: Vec<String> = Vec::new();
    let mut i: usize = 0;
    while i < first.len()
        invariant
            i <= first@.len(),
            fv == string_views(first@),
            sv == string_views(second@),
            sorted_terms(sv),
            string_views(intersect@) == intersection_spec(fv.take(i as int), sv),
        decreases first@.len() - i,
    {
        let ghost ft = fv.take(i + 1);
        assert(ft.drop_last() =~= fv.take(i as int));
        assert(ft[i as int] == first@[i as int]@);
        if i > 0 {
            assert(ft[i - 1] == first@[i - 1]@);
        }
        if i == 0 || first[i] != first[i - 1] {
            if sorted_contains(&second, &first[i]) {
                intersect.push(first[i].clone());
                assert(string_views(intersect@) =~= intersection_spec(fv.take(i as int), sv).push(first@[i as int]@));
            }
        }
        i = i + 1;
    }
    assert(fv.take(first@.len() as int) =~= fv);
    intersect
}

/// `s` occurs in `t` as a run of consecutive characters (`str::contains`).
pub open spec fn has_infix(t: Seq<char>, s: Seq<char>) -> bool {
    exists|i: int| 0 <= i && i + s.len() <= t.len() && #[trigger] t.subrange(i, i + s.len()) == s
}

/// Which terms a walk over the grams of a wildcard keeps.
pub enum TermTest {
    /// Those that end with the first pattern or contain the second.
    EndsWithOrContains,
    /// Those that contain the second pattern.
    Contains,
    /// Those that start with the first pattern.
    StartsWith,
    /// Those that end with the first pattern.
    EndsWith,
    /// None.
    Nothing,
}

/// Whether `test` keeps the term `t`, given the patterns `a` and `b`.
pub open spec fn keeps(test: TermTest, a: Seq<char>, b: Seq<char>, t: Seq<char>) -> bool {
    match test {
        TermTest::EndsWithOrContains => a.is_suffix_of(t) || has_infix(t, b),
        TermTest::Contains => has_infix(t, b),
        TermTest::StartsWith => a.is_prefix_of(t),
        TermTest::EndsWith => a.is_suffix_of(t),
        TermTest::Nothing => false,
    }
}

/// The terms listed under `gram` in a k-gram index, none when it is unknown.
pub open spec fn gram_terms(kg: Map<Seq<char>, Seq<Seq<char>>>, gram: Seq<char>) -> Seq<Seq<char>> {
    if kg.contains_key(gram) {
        kg[gram]
    } else {
        Seq::empty()
    }
}

/// `acc` followed by each of `terms`, in order, that `test` keeps and that
/// is not already there.
pub open spec fn add_matching(
    acc: Seq<Seq<char>>,
    terms: Seq<Seq<char>>,
    test: TermTest,
    a: Seq<char>,
    b: Seq<char>,
) -> Seq<Seq<char>>
    decreases terms.len(),
{
    if terms.len() == 0 {
        acc
    } else {
        let prev = add_matching(acc, terms.drop_last(), test, a, b);
        let t = terms.last();
        if !prev.contains(t) && keeps(test, a, b, t) {
            prev.push(t)
        } else {
            prev
        }
    }
}

/// `acc` with the kept terms of `gram` added, unless the gram holds `*`.
pub open spec fn add_gram(
    kg: Map<Seq<char>, Seq<Seq<char>>>,
    acc: Seq<Seq<char>>,
    gram: Seq<char>,
    test: TermTest,
    a: Seq<char>,
    b: Seq<char>,
) -> Seq<Seq<char>> {
    if gram.contains('*') {
        acc
    } else {
        add_matching(acc, gram_terms(kg, gram), test, a, b)
    }
}

/// The terms found by walking the positions of `big` below `i`: at each,
/// the gram of three characters (kept by `test3`) and then that of two (kept
/// by `test2`), where they fit.
pub open spec fn collect_grams(
    kg: Map<Seq<char>, Seq<Seq<char>>>,
    big: Seq<char>,
    i: int,
    test3: TermTest,
    test2: TermTest,
    a: Seq<char>,
    b: Seq<char>,
) -> Seq<Seq<char>>
    decreases i,
{
    if i <= 0 {
        Seq::empty()
    } else {
        let prev = collect_grams(kg, big, i - 1, test3, test2, a, b);
        let k = i - 1;
        let with3 = if k + 3 <= big.len() { add_gram(kg, prev, big.subrange(k, k + 3), test3, a, b) } else { prev };
        if k + 2 <= big.len() {
            add_gram(kg, with3, big.subrange(k, k + 2), test2, a, b)
        } else {
            with3
        }
    }
}

/// All the terms found by walking `big`.
pub open spec fn walk_grams(
    kg: Map<Seq<char>, Seq<Seq<char>>>,
    big: Seq<char>,
    test3: TermTest,
    test2: TermTest,
    a: Seq<char>,
    b: Seq<char>,
) -> Seq<Seq<char>> {
    collect_grams(kg, big, big.len() as int, test3, test2, a, b)
}

/// The queries that `get_wildcards` takes without panicking: one that starts
/// with `*` has another character and is ASCII; one that ends with `*` is
/// ASCII; any other has a `*`, a non-empty piece after the first `*`, and
/// that piece and the one before it ASCII.
pub open spec fn wildcard_defined(e: Seq<char>) -> bool {
    if e.len() > 0 && e[0] == '*' {
        e.len() >= 2 && ascii_chars(e)
    } else if e.len() > 0 && e.last() == '*' {
        ascii_chars(e)
    } else {
        let pieces = split_spec(e, '*');
        &&& pieces.len() >= 2
        &&& pieces[1].len() > 0
        &&& ascii_chars(pieces[0])
        &&& ascii_chars(pieces[1])
    }
}

/// The terms that a wildcard query `e` stands for, found through the
/// k-gram index `kg`:
/// - `*x`: the terms of the grams of `x$` that end with `x` or contain `x`
///   without its last character; when `e` also ends with `*`, only those
///   also among the terms of the grams of `$` and `e` without its last
///   character that contain that middle part;
/// - `x*`: the terms of the grams of `$x` that start with `x`;
/// - `x*y`: the terms of the grams of `y$` that end with `y` and that are
///   among the terms of the two-character grams of `$x` that start with `x`.
pub open spec fn wildcards_spec(kg: Map<Seq<char>, Seq<Seq<char>>>, e: Seq<char>) -> Seq<Seq<char>> {
    if e.len() > 0 && e[0] == '*' {
        let slice = e.skip(1);
        let mid = e.subrange(1, e.len() - 1);
        let b1 = walk_grams(kg, slice.push('$'), TermTest::EndsWithOrContains, TermTest::EndsWithOrContains, slice, mid);
        let b2 = if e.last() == '*' {
            walk_grams(kg, seq!['$'] + e.take(e.len() - 1), TermTest::Contains, TermTest::Contains, slice, mid)
        } else {
            Seq::empty()
        };
        if b2.len() == 0 {
            b1
        } else {
            intersection_spec(b1, b2)
        }
    } else if e.len() > 0 && e.last() == '*' {
        let slice = e.take(e.len() - 1);
        walk_grams(kg, seq!['$'] + slice, TermTest::StartsWith, TermTest::StartsWith, slice, slice)
    } else {
        let pieces = split_spec(e, '*');
        let before = pieces[0];
        let after = pieces[1];
        let b1 = walk_grams(kg, after.push('$'), TermTest::EndsWith, TermTest::EndsWith, after, after);
        let b2 = walk_grams(kg, seq!['$'] + before, TermTest::Nothing, TermTest::StartsWith, before, before);
        intersection_spec(b1, b2)
    }
}

proof fn lemma_add_matching_distinct(acc: Seq<Seq<char>>, terms: Seq<Seq<char>>, test: TermTest, a: Seq<char>, b: Seq<char>)
    requires
        acc.no_duplicates(),
    ensures
        add_matching(acc, terms, test, a, b).no_duplicates(),
    decreases terms.len(),
{
    if terms.len() > 0 {
        lemma_add_matching_distinct(acc, terms.drop_last(), test, a, b);
    }
}

proof fn lemma_collect_grams_distinct(
    kg: Map<Seq<char>, Seq<Seq<char>>>,
    big: Seq<char>,
    i: int,
    test3: TermTest,
    test2: TermTest,
    a: Seq<char>,
    b: Seq<char>,
)
    ensures
        collect_grams(kg, big, i, test3, test2, a, b).no_duplicates(),
    decreases i,
{
    if i > 0 {
        lemma_collect_grams_distinct(kg, big, i - 1, test3, test2, a, b);
        let prev = collect_grams(kg, big, i - 1, test3, test2, a, b);
        let k = i - 1;
        if k + 3 <= big.len() && !big.subrange(k, k + 3).contains('*') {
            lemma_add_matching_distinct(prev, gram_terms(kg, big.subrange(k, k + 3)), test3, a, b);
        }
        let with3 = if k + 3 <= big.len() { add_gram(kg, prev, big.subrange(k, k + 3), test3, a, b) } else { prev };
        if k + 2 <= big.len() && !big.subrange(k, k + 2).contains('*') {
            lemma_add_matching_distinct(with3, gram_terms(kg, big.subrange(k, k + 2)), test2, a, b);
        }
    }
}

/// Whether `s` occurs in `t` from index `i` on.
fn matches_at(s: &Vec<char>, t: &Vec<char>, i: usize) -> (r: bool)
    requires
        i + s@.len() <= t@.len(),
    ensures
        r == (t@.subrange(i as int, i + s@.len()) == s@),
{
    let sl = s.len();
    let tl = t.len();
    let mut j: usize = 0;
    while j < sl
        invariant
            sl == s@.len(),
            tl == t@.len(),
            j <= sl,
            i + sl <= t@.len(),
            forall|q: int| 0 <= q < j ==> t@[i + q] == s@[q],
        decreases sl - j,
    {
        if t[i + j] != s[j] {
            assert(t@.subrange(i as int, i + s@.len())[j as int] != s@[j as int]);
            return false;
        }
        j = j + 1;
    }
    assert(t@.subrange(i as int, i + s@.len()) =~= s@);
    true
}

/// Whether `s` occurs in `t` as a run of consecutive characters.
pub(crate) fn infix_of(s: &Vec<char>, t: &Vec<char>) -> (r: bool)
    ensures
        r == has_infix(t@, s@),
{
    if s.len() > t.len() {
        return false;
    }
    let lim = t.len() - s.len();
    let mut i: usize = 0;
    loop
        invariant
            s@.len() <= t@.len(),
            lim == t@.len() - s@.len(),
            i <= lim,
            forall|k: int| 0 <= k < i ==> #[trigger] t@.subrange(k, k + s@.len()) != s@,
        ensures
            forall|k: int| 0 <= k <= lim ==> #[trigger] t@.subrange(k, k + s@.len()) != s@,
        decreases lim - i,
    {
        if matches_at(s, t, i) {
            return true;
        }
        if i == lim {
            break;
        }
        i = i + 1;
    }
    assert forall|k: int| 0 <= k && k + s@.len() <= t@.len() implies #[trigger] t@.subrange(k, k + s@.len()) != s@ by {
        assert(k <= lim);
    }
    false
}

/// Whether `s` starts `t`.
fn prefix_of(s: &Vec<char>, t: &Vec<char>) -> (r: bool)
    ensures
        r == s@.is_prefix_of(t@),
{
    if s.len() > t.len() {
        return false;
    }
    let mut j: usize = 0;
    while j < s.len()
        invariant
            s@.len() <= t@.len(),
            j <= s@.len(),
            forall|q: int| 0 <= q < j ==> t@[q] == s@[q],
        decreases s@.len() - j,
    {
        if t[j] != s[j] {
            assert(t@.subrange(0, s@.len() as int)[j as int] != s@[j as int]);
            return false;
        }
        j = j + 1;
    }
    assert(s@ =~= t@.subrange(0, s@.len() as int));
    true
}

/// Whether `s` ends `t`.
fn suffix_of(s: &Vec<char>, t: &Vec<char>) -> (r: bool)
    ensures
        r == s@.is_suffix_of(t@),
{
    if s.len() > t.len() {
        return false;
    }
    let off = t.len() - s.len();
    matches_at(s, t, off)
}

/// Whether `test` keeps the term `t`.
fn keeps_term(test: &TermTest, a: &Vec<char>, b: &Vec<char>, t: &String) -> (r: bool)
    ensures
        r == keeps(*test, a@, b@, t@),
{
    let tc = chars_of(t.as_str());
    match test {
        TermTest::EndsWithOrContains => suffix_of(a, &tc) || infix_of(b, &tc),
        TermTest::Contains => infix_of(b, &tc),
        TermTest::StartsWith => prefix_of(a, &tc),
        TermTest::EndsWith => suffix_of(a, &tc),
        TermTest::Nothing => false,
    }
}

/// Whether `v` holds `x`.
pub(crate) fn holds_term(v: &Vec<String>, x: &String) -> (r: bool)
    ensures
        r == string_views(v@).contains(x@),
{
    let ghost sv = string_views(v@);
    let mut k: usize = 0;
    while k < v.len()
        invariant
            k <= v@.len(),
            sv == string_views(v@),
            forall|q: int| 0 <= q < k ==> sv[q] != x@,
        decreases v@.len() - k,
    {
        if v[k] == *x {
            assert(sv[k as int] == x@);
            return true;
        }
        k = k + 1;
    }
    false
}

/// Adds to `acc` each of `terms` that `test` keeps and that it lacks.
fn add_matching_terms(acc: &mut Vec<String>, terms: &Vec<String>, test: &TermTest, a: &Vec<char>, b: &Vec<char>)
    ensures
        string_views(final(acc)@) == add_matching(string_views(old(acc)@), string_views(terms@), *test, a@, b@),
{
    let ghost start = string_views(acc@);
    let ghost tv = string_views(terms@);
    let mut k: usize = 0;
    assert(tv.take(0) =~= Seq::<Seq<char>>::empty());
    while k < terms.len()
        invariant
            k <= terms@.len(),
            tv == string_views(terms@),
            string_views(acc@) == add_matching(start, tv.take(k as int), *test, a@, b@),
        decreases terms@.len() - k,
    {
        let ghost before = string_views(acc@);
        assert(tv.take(k + 1).drop_last() =~= tv.take(k as int));
        assert(tv.take(k + 1).last() == terms@[k as int]@);
        if !holds_term(acc, &terms[k]) && keeps_term(test, a, b, &terms[k]) {
            acc.push(terms[k].clone());
            assert(string_views(acc@) =~= before.push(terms@[k as int]@));
        }
        k = k + 1;
    }
    assert(tv.take(terms@.len() as int) =~= tv);
}

/// Adds the kept terms of the gram made of `big`'s characters from `from`
/// up to `to`, unless that gram holds `*`.
fn add_gram_terms(
    kgram: &KGramIndex,
    acc: &mut Vec<String>,
    big: &Vec<char>,
    from: usize,
    to: usize,
    test: &TermTest,
    a: &Vec<char>,
    b: &Vec<char>,
)
    requires
        kgram.wf(),
        from <= to <= big@.len(),
    ensures
        string_views(final(acc)@) == add_gram(kgram.gram_view(), string_views(old(acc)@), big@.subrange(from as int, to as int), *test, a@, b@),
{
    let window = chars_range(big, from, to);
    if !contains_char(&window, '*') {
        let gram = string_from_chars(window.as_slice());
        let terms = kgram.get_terms(gram.as_str());
        add_matching_terms(acc, &terms, test, a, b);
    }
}

/// The terms found by walking the grams of `big` (see `walk_grams`).
fn walk_gram_terms(kgram: &KGramIndex, big: &Vec<char>, test3: &TermTest, test2: &TermTest, a: &Vec<char>, b: &Vec<char>) -> (r: Vec<String>)
    requires
        kgram.wf(),
    ensures
        string_views(r@) == walk_grams(kgram.gram_view(), big@, *test3, *test2, a@, b@),
{
    let mut acc: Vec<String> = Vec::new();
    let n = big.len();
    let mut i: usize = 0;
    assert(string_views(acc@) =~= Seq::<Seq<char>>::empty());
    while i < n
        invariant
            kgram.wf(),
            n == big@.len(),
            i <= n,
            string_views(acc@) == collect_grams(kgram.gram_view(), big@, i as int, *test3, *test2, a@, b@),
        decreases n - i,
    {
        if n - i >= 3 {
            add_gram_terms(kgram, &mut acc, big, i, i + 3, test3, a, b);
        }
        if n - i >= 2 {
            add_gram_terms(kgram, &mut acc, big, i, i + 2, test2, a, b);
        }
        i = i + 1;
    }
    acc
}

/// The terms of `first` that are also in `second`, skipping a term equal to
/// the one just before it in `first`; `second` holds each term once and is
/// sorted first, as the binary search of `intersection` needs.
fn intersect_unsorted(first: Vec<String>, second: &Vec<String>) -> (r: Vec<String>)
    requires
        string_views(second@).no_duplicates(),
    ensures
        string_views(r@) == intersection_spec(string_views(first@), string_views(second@)),
{
    let ghost sv = string_views(second@);
    let mut refs: Vec<&String> = Vec::new();
    let mut k: usize = 0;
    while k < second.len()
        invariant
            k <= second@.len(),
            sv == string_views(second@),
            ref_views(refs@) == sv.take(k as int),
        decreases second@.len() - k,
    {
        let ghost before = ref_views(refs@);
        refs.push(&second[k]);
        assert(ref_views(refs@) =~= before.push(sv[k as int]));
        assert(sv.take(k + 1) =~= sv.take(k as int).push(sv[k as int]));
        k = k + 1;
    }
    assert(sv.take(second@.len() as int) =~= sv);
    let sorted = sort_terms(refs);
    let mut owned: Vec<String> = Vec::new();
    let mut q: usize = 0;
    while q < sorted.len()
        invariant
            q <= sorted@.len(),
            string_views(owned@) == ref_views(sorted@).take(q as int),
        decreases sorted@.len() - q,
    {
        let ghost before = string_views(owned@);
        owned.push(sorted[q].clone());
        assert(string_views(owned@) =~= before.push(sorted@[q as int]@));
        assert(ref_views(sorted@).take(q + 1) =~= ref_views(sorted@).take(q as int).push(sorted@[q as int]@));
        q = q + 1;
    }
    let ghost ov = string_views(owned@);
    assert(ov =~= ref_views(sorted@));
    assert forall|i: int, j: int| 0 <= i < j < ov.len() implies !lex_lt(#[trigger] ov[j], #[trigger] ov[i]) by {
        assert(lex_lt(sorted@[i]@, sorted@[j]@));
        lemma_lex_order(ov[i], ov[j], ov[i]);
    }
    proof {
        lemma_intersection_same_members(string_views(first@), ov, sv);
    }
    intersection(first, owned)
}

/// The intersection depends on the second list only through its members.
proof fn lemma_intersection_same_members(first: Seq<Seq<char>>, s1: Seq<Seq<char>>, s2: Seq<Seq<char>>)
    requires
        s1.to_set() == s2.to_set(),
    ensures
        intersection_spec(first, s1) == intersection_spec(first, s2),
    decreases first.len(),
{
    if first.len() > 0 {
        lemma_intersection_same_members(first.drop_last(), s1, s2);
        let x = first[first.len() - 1];
        assert(s1.contains(x) == s1.to_set().contains(x));
        assert(s2.contains(x) == s2.to_set().contains(x));
    }
}

/// The terms that the wildcard query `entry` stands for (see
/// `wildcards_spec`).
pub fn get_wildcards(entry: &str, kgram: &KGramIndex) -> (results: Vec<String>)
    requires
        kgram.wf(),
        wildcard_defined(entry@),
    ensures
        string_views(results@) == wildcards_spec(kgram.gram_view(), entry@),
{
    let e = chars_of(entry);
    let n = e.len();
    if n > 0 && e[0] == '*' {
        let slice = chars_range(&e, 1, n);
        let mid = chars_range(&e, 1, n - 1);
        let mut big = chars_range(&e, 1, n);
        big.push('$');
        assert(big@ =~= e@.skip(1).push('$'));
        let b1 = walk_gram_terms(kgram, &big, &TermTest::EndsWithOrContains, &TermTest::EndsWithOrContains, &slice, &mid);
        if e[n - 1] == '*' {
            let mut big2: Vec<char> = Vec::new();
            big2.push('$');
            let head = chars_range(&e, 0, n - 1);
            let mut head_mut = head;
            big2.append(&mut head_mut);
            assert(big2@ =~= seq!['$'] + e@.take(n - 1));
            let b2 = walk_gram_terms(kgram, &big2, &TermTest::Contains, &TermTest::Contains, &slice, &mid);
            if b2.len() == 0 {
                return b1;
            }
            proof {
                lemma_collect_grams_distinct(kgram.gram_view(), big2@, big2@.len() as int, TermTest::Contains, TermTest::Contains, slice@, mid@);
            }
            return intersect_unsorted(b1, &b2);
        }
        b1
    } else if n > 0 && e[n - 1] == '*' {
        let slice = chars_range(&e, 0, n - 1);
        let mut big: Vec<char> = Vec::new();
        big.push('$');
        let mut tail = chars_range(&e, 0, n - 1);
        big.append(&mut tail);
        assert(big@ =~= seq!['$'] + e@.take(n - 1));
        walk_gram_terms(kgram, &big, &TermTest::StartsWith, &TermTest::StartsWith, &slice, &slice)
    } else {
        let pieces = split_chars(&e, '*');
        let ghost pv = pieces@.map_values(|v: Vec<char>| v@);
        assert(pv[0] == pieces@[0]@);
        assert(pv[1] == pieces@[1]@);
        let before = &pieces[0];
        let after = &pieces[1];
        let mut big1 = chars_range(after, 0, after.len());
        big1.push('$');
        assert(big1@ =~= after@.push('$'));
        let b1 = walk_gram_terms(kgram, &big1, &TermTest::EndsWith, &TermTest::EndsWith, after, after);
        let mut big2: Vec<char> = Vec::new();
        big2.push('$');
        let mut rest = chars_range(before, 0, before.len());
        big2.append(&mut rest);
        assert(big2@ =~= seq!['$'] + before@);
        let b2 = walk_gram_terms(kgram, &big2, &TermTest::Nothing, &TermTest::StartsWith, before, before);
        proof {
            lemma_collect_grams_distinct(kgram.gram_view(), big2@, big2@.len() as int, TermTest::Nothing, TermTest::StartsWith, before@, before@);
        }
        intersect_unsorted(b1, &b2)
    }
}

proof fn lemma_add_matching_kept(acc: Seq<Seq<char>>, terms: Seq<Seq<char>>, test: TermTest, a: Seq<char>, b: Seq<char>)
    ensures
        forall|t: Seq<char>| #[trigger] add_matching(acc, terms, test, a, b).contains(t) ==> acc.contains(t) || keeps(test, a, b, t),
    decreases terms.len(),
{
    if terms.len() > 0 {
        lemma_add_matching_kept(acc, terms.drop_last(), test, a, b);
        let prev = add_matching(acc, terms.drop_last(), test, a, b);
        crate::processor::query_plan::lemma_push_contains(prev, terms.last());
    }
}

proof fn lemma_collect_grams_kept(
    kg: Map<Seq<char>, Seq<Seq<char>>>,
    big: Seq<char>,
    i: int,
    test: TermTest,
    a: Seq<char>,
    b: Seq<char>,
)
    ensures
        forall|t: Seq<char>| #[trigger] collect_grams(kg, big, i, test, test, a, b).contains(t) ==> keeps(test, a, b, t),
    decreases i,
{
    if i > 0 {
        lemma_collect_grams_kept(kg, big, i - 1, test, a, b);
        let prev = collect_grams(kg, big, i - 1, test, test, a, b);
        let k = i - 1;
        if k + 3 <= big.len() {
            lemma_add_matching_kept(prev, gram_terms(kg, big.subrange(k, k + 3)), test, a, b);
        }
        let with3 = if k + 3 <= big.len() { add_gram(kg, prev, big.subrange(k, k + 3), test, a, b) } else { prev };
        if k + 2 <= big.len() {
            lemma_add_matching_kept(with3, gram_terms(kg, big.subrange(k, k + 2)), test, a, b);
        }
    }
}

proof fn lemma_collect_grams_second_kept(
    kg: Map<Seq<char>, Seq<Seq<char>>>,
    big: Seq<char>,
    i: int,
    test: TermTest,
    a: Seq<char>,
    b: Seq<char>,
)
    ensures
        forall|t: Seq<char>| #[trigger] collect_grams(kg, big, i, TermTest::Nothing, test, a, b).contains(t) ==> keeps(test, a, b, t),
    decreases i,
{
    if i > 0 {
        lemma_collect_grams_second_kept(kg, big, i - 1, test, a, b);
        let prev = collect_grams(kg, big, i - 1, TermTest::Nothing, test, a, b);
        let k = i - 1;
        if k + 3 <= big.len() {
            lemma_add_matching_kept(prev, gram_terms(kg, big.subrange(k, k + 3)), TermTest::Nothing, a, b);
        }
        let with3 = if k + 3 <= big.len() { add_gram(kg, prev, big.subrange(k, k + 3), TermTest::Nothing, a, b) } else { prev };
        if k + 2 <= big.len() {
            lemma_add_matching_kept(with3, gram_terms(kg, big.subrange(k, k + 2)), test, a, b);
        }
    }
}

proof fn lemma_intersection_members(first: Seq<Seq<char>>, second: Seq<Seq<char>>)
    ensures
        forall|t: Seq<char>| #[trigger] intersection_spec(first, second).contains(t) ==> first.contains(t) && second.contains(t),
        first.no_duplicates() ==> intersection_spec(first, second).no_duplicates(),
    decreases first.len(),
{
    if first.len() > 0 {
        let d = first.drop_last();
        lemma_intersection_members(d, second);
        let prev = intersection_spec(d, second);
        let x = first[first.len() - 1];
        crate::processor::query_plan::lemma_push_contains(prev, x);
        crate::processor::query_plan::lemma_push_contains(d, x);
        assert(first =~= d.push(x));
        if first.no_duplicates() {
            assert(d.no_duplicates()) by {
                assert forall|p: int, q: int| 0 <= p < q < d.len() implies d[p] != d[q] by {
                    assert(first[p] == d[p] && first[q] == d[q]);
                }
            }
            if prev.contains(x) {
                let p = choose|p: int| 0 <= p < d.len() && d[p] == x;
                assert(first[p] == x);
                assert(false);
            }
            assert forall|p: int, q: int| 0 <= p < q < prev.push(x).len() implies prev.push(x)[p] != prev.push(x)[q] by {
                if q == prev.len() {
                    assert(prev[p] == prev.push(x)[p]);
                }
            }
        }
    }
}

proof fn lemma_add_matching_finds(acc: Seq<Seq<char>>, terms: Seq<Seq<char>>, test: TermTest, a: Seq<char>, b: Seq<char>, t: Seq<char>)
    ensures
        acc.contains(t) ==> add_matching(acc, terms, test, a, b).contains(t),
        terms.contains(t) && keeps(test, a, b, t) ==> add_matching(acc, terms, test, a, b).contains(t),
    decreases terms.len(),
{
    if terms.len() > 0 {
        let prev = add_matching(acc, terms.drop_last(), test, a, b);
        lemma_add_matching_finds(acc, terms.drop_last(), test, a, b, t);
        let r = add_matching(acc, terms, test, a, b);
        if prev.contains(t) {
            let k = choose|k: int| 0 <= k < prev.len() && prev[k] == t;
            if r != prev {
                assert(r[k] == t);
            }
        }
        if terms.contains(t) && keeps(test, a, b, t) && !prev.contains(t) {
            let k = choose|k: int| 0 <= k < terms.len() && terms[k] == t;
            if k < terms.len() - 1 {
                assert(terms.drop_last()[k] == t);
            }
            assert(r[prev.len() as int] == t);
        }
    }
}

proof fn lemma_collect_grows(
    kg: Map<Seq<char>, Seq<Seq<char>>>,
    big: Seq<char>,
    i: int,
    j: int,
    test3: TermTest,
    test2: TermTest,
    a: Seq<char>,
    b: Seq<char>,
    t: Seq<char>,
)
    requires
        0 <= i <= j,
        collect_grams(kg, big, i, test3, test2, a, b).contains(t),
    ensures
        collect_grams(kg, big, j, test3, test2, a, b).contains(t),
    decreases j - i,
{
    if i < j {
        lemma_collect_grows(kg, big, i, j - 1, test3, test2, a, b, t);
        let prev = collect_grams(kg, big, j - 1, test3, test2, a, b);
        let k = j - 1;
        if k + 3 <= big.len() && !big.subrange(k, k + 3).contains('*') {
            lemma_add_matching_finds(prev, gram_terms(kg, big.subrange(k, k + 3)), test3, a, b, t);
        }
        let with3 = if k + 3 <= big.len() { add_gram(kg, prev, big.subrange(k, k + 3), test3, a, b) } else { prev };
        if k + 2 <= big.len() && !big.subrange(k, k + 2).contains('*') {
            lemma_add_matching_finds(with3, gram_terms(kg, big.subrange(k, k + 2)), test2, a, b, t);
        }
    }
}

/// A walk over the grams of `big` finds every term listed under one of its
/// two-character grams (free of `*`) that its test keeps.
proof fn lemma_walk_finds(
    kg: Map<Seq<char>, Seq<Seq<char>>>,
    big: Seq<char>,
    test3: TermTest,
    test2: TermTest,
    a: Seq<char>,
    b: Seq<char>,
    k: int,
    t: Seq<char>,
)
    requires
        0 <= k,
        k + 2 <= big.len(),
        !big.subrange(k, k + 2).contains('*'),
        kg.contains_key(big.subrange(k, k + 2)),
        kg[big.subrange(k, k + 2)].contains(t),
        keeps(test2, a, b, t),
    ensures
        walk_grams(kg, big, test3, test2, a, b).contains(t),
{
    let prev = collect_grams(kg, big, k, test3, test2, a, b);
    let with3 = if k + 3 <= big.len() { add_gram(kg, prev, big.subrange(k, k + 3), test3, a, b) } else { prev };
    lemma_add_matching_finds(with3, gram_terms(kg, big.subrange(k, k + 2)), test2, a, b, t);
    lemma_collect_grows(kg, big, k + 1, big.len() as int, test3, test2, a, b, t);
}

proof fn lemma_intersection_finds(first: Seq<Seq<char>>, second: Seq<Seq<char>>, t: Seq<char>)
    requires
        first.contains(t),
        second.contains(t),
    ensures
        intersection_spec(first, second).contains(t),
    decreases first.len(),
{
    let i = first.len() - 1;
    let prev = intersection_spec(first.drop_last(), second);
    let r = intersection_spec(first, second);
    if first.drop_last().contains(t) {
        lemma_intersection_finds(first.drop_last(), second, t);
        let k = choose|k: int| 0 <= k < prev.len() && prev[k] == t;
        if r != prev {
            assert(r[k] == t);
        }
    } else {
        let k = choose|k: int| 0 <= k < first.len() && first[k] == t;
        if k < i {
            assert(first.drop_last()[k] == t);
        }
        assert(first[i] == t);
        if i > 0 {
            assert(first.drop_last()[i - 1] == first[i - 1]);
        }
        assert(r[prev.len() as int] == t);
    }
}

/// Completeness of the wildcards of one `*`, ending with `*` or starting
/// with it: for `x*`, every term that starts with `x` and is listed under
/// the gram `$` + its first character is found; for `*x`, every term that
/// ends with `x` and is listed under the gram of the last character of `x`
/// and `$` is found.
pub proof fn lemma_wildcard_one_star_complete(kg: Map<Seq<char>, Seq<Seq<char>>>, e: Seq<char>, t: Seq<char>)
    requires
        e.len() >= 2,
        e[0] != '*' && e.last() == '*' ==> {
            &&& e.take(e.len() - 1).is_prefix_of(t)
            &&& kg.contains_key(seq!['$', e[0]])
            &&& kg[seq!['$', e[0]]].contains(t)
        },
        e[0] == '*' && e.last() != '*' ==> {
            &&& e.skip(1).is_suffix_of(t)
            &&& kg.contains_key(seq![e.last(), '$'])
            &&& kg[seq![e.last(), '$']].contains(t)
        },
        (e[0] != '*') != (e.last() != '*'),
    ensures
        wildcards_spec(kg, e).contains(t),
{
    if e[0] != '*' {
        let slice = e.take(e.len() - 1);
        let big = seq!['$'] + slice;
        assert(big.subrange(0, 2) =~= seq!['$', e[0]]);
        assert(!seq!['$', e[0]].contains('*')) by {
            if seq!['$', e[0]].contains('*') {
                let k = choose|k: int| 0 <= k < 2 && seq!['$', e[0]][k] == '*';
            }
        }
        lemma_walk_finds(kg, big, TermTest::StartsWith, TermTest::StartsWith, slice, slice, 0, t);
    } else {
        let slice = e.skip(1);
        let mid = e.subrange(1, e.len() - 1);
        let big = slice.push('$');
        let k = big.len() - 2;
        assert(big.subrange(k, k + 2) =~= seq![e.last(), '$']);
        assert(!seq![e.last(), '$'].contains('*')) by {
            if seq![e.last(), '$'].contains('*') {
                let j = choose|j: int| 0 <= j < 2 && seq![e.last(), '$'][j] == '*';
            }
        }
        lemma_walk_finds(kg, big, TermTest::EndsWithOrContains, TermTest::EndsWithOrContains, slice, mid, k, t);
    }
}


/// Completeness of `x*y`: every term that starts with `x` and ends with `y`,
/// listed under the gram `$` + the first character of `x` and under the
/// gram of the last character of `y` and `$`, is found.
pub proof fn lemma_wildcard_two_sided_complete(kg: Map<Seq<char>, Seq<Seq<char>>>, e: Seq<char>, t: Seq<char>)
    requires
        e.len() > 0,
        e[0] != '*',
        e.last() != '*',
        wildcard_defined(e),
        split_spec(e, '*')[0].is_prefix_of(t),
        split_spec(e, '*')[1].is_suffix_of(t),
        kg.contains_key(seq!['$', e[0]]),
        kg[seq!['$', e[0]]].contains(t),
        kg.contains_key(seq![split_spec(e, '*')[1].last(), '$']),
        kg[seq![split_spec(e, '*')[1].last(), '$']].contains(t),
    ensures
        wildcards_spec(kg, e).contains(t),
{
    let pieces = split_spec(e, '*');
    let before = pieces[0];
    let after = pieces[1];
    lemma_split_pieces(e, '*');
    assert(!after.contains('*'));
    let big1 = after.push('$');
    let k = big1.len() - 2;
    assert(big1.subrange(k, k + 2) =~= seq![after.last(), '$']);
    assert(after.last() == after[after.len() - 1]);
    assert(!seq![after.last(), '$'].contains('*')) by {
        if seq![after.last(), '$'].contains('*') {
            let j = choose|j: int| 0 <= j < 2 && seq![after.last(), '$'][j] == '*';
        }
    }
    lemma_walk_finds(kg, big1, TermTest::EndsWith, TermTest::EndsWith, after, after, k, t);
    let big2 = seq!['$'] + before;
    assert(big2.subrange(0, 2) =~= seq!['$', e[0]]);
    assert(!seq!['$', e[0]].contains('*')) by {
        if seq!['$', e[0]].contains('*') {
            let j = choose|j: int| 0 <= j < 2 && seq!['$', e[0]][j] == '*';
        }
    }
    lemma_walk_finds(kg, big2, TermTest::Nothing, TermTest::StartsWith, before, before, 0, t);
    lemma_intersection_finds(
        walk_grams(kg, big1, TermTest::EndsWith, TermTest::EndsWith, after, after),
        walk_grams(kg, big2, TermTest::Nothing, TermTest::StartsWith, before, before),
        t,
    );
}

/// The wildcard queries of one `*` that `get_wildcards` takes (`x*`, `*x`
/// and `x*y`, see `wildcard_defined`) find every term of a k-gram index
/// filled from a list of terms (see `add_terms_grams`) that matches them:
/// that starts with `x`, ends with `x`, or starts with `x` and ends with
/// `y`.
pub proof fn lemma_wildcard_finds_indexed_terms(
    m: Map<Seq<char>, Seq<Seq<char>>>,
    pairs: Seq<(Seq<char>, int)>,
    k: int,
    e: Seq<char>,
)
    requires
        0 <= k < pairs.len(),
        pairs[k].0.len() >= 1,
        wildcard_defined(e),
        e.len() > 0,
        !(e[0] == '*' && e.last() == '*'),
        e[0] != '*' && e.last() == '*' ==> e.take(e.len() - 1).is_prefix_of(pairs[k].0),
        e[0] == '*' ==> e.skip(1).is_suffix_of(pairs[k].0),
        e[0] != '*' && e.last() != '*' ==> split_spec(e, '*')[0].is_prefix_of(pairs[k].0)
            && split_spec(e, '*')[1].is_suffix_of(pairs[k].0),
    ensures
        wildcards_spec(add_terms_grams(m, pairs), e).contains(pairs[k].0),
{
    let t = pairs[k].0;
    let kg = add_terms_grams(m, pairs);
    let w = marked(t);
    lemma_terms_grams_indexed(m, pairs, k, 0, 2);
    lemma_terms_grams_indexed(m, pairs, k, t.len() as int, 2);
    assert(w.subrange(0, 2) =~= seq!['$', t[0]]);
    assert(w.subrange(t.len() as int, t.len() + 2int) =~= seq![t.last(), '$']);
    if e[0] != '*' && e.last() == '*' {
        assert(e.take(e.len() - 1)[0] == t[0]);
        lemma_wildcard_one_star_complete(kg, e, t);
    } else if e[0] == '*' {
        let x = e.skip(1);
        assert(x.len() >= 1);
        assert(x.last() == t[t.len() - x.len() + x.len() - 1]);
        assert(e.last() == x.last());
        lemma_wildcard_one_star_complete(kg, e, t);
    } else {
        let pieces = split_spec(e, '*');
        lemma_split_pieces(e, '*');
        let before = pieces[0];
        let after = pieces[1];
        assert(before[0] == t[0]);
        assert(after.last() == t[t.len() - after.len() + after.len() - 1]);
        assert(t.last() == after.last());
        lemma_wildcard_two_sided_complete(kg, e, t);
    }
}

/// The terms that a wildcard query stands for match it, and each comes
/// once: for `x*` they start with `x`; for `x*y` they start with `x` and end
/// with `y`; for `*x` they end with `x` or contain `x` without its last
/// character.
pub proof fn lemma_wildcard_terms_match(kg: Map<Seq<char>, Seq<Seq<char>>>, e: Seq<char>)
    requires
        wildcard_defined(e),
    ensures
        wildcards_spec(kg, e).no_duplicates(),
        e[0] != '*' && e.last() == '*' ==> forall|t: Seq<char>| #[trigger] wildcards_spec(kg, e).contains(t)
            ==> e.take(e.len() - 1).is_prefix_of(t),
        e.len() > 0 && e[0] != '*' && e.last() != '*' ==> forall|t: Seq<char>| #[trigger] wildcards_spec(kg, e).contains(t)
            ==> split_spec(e, '*')[0].is_prefix_of(t) && split_spec(e, '*')[1].is_suffix_of(t),
        e[0] == '*' ==> forall|t: Seq<char>| #[trigger] wildcards_spec(kg, e).contains(t)
            ==> e.skip(1).is_suffix_of(t) || has_infix(t, e.subrange(1, e.len() - 1)),
{
    if e.len() > 0 && e[0] == '*' {
        let slice = e.skip(1);
        let mid = e.subrange(1, e.len() - 1);
        let big1 = slice.push('$');
        let b1 = walk_grams(kg, big1, TermTest::EndsWithOrContains, TermTest::EndsWithOrContains, slice, mid);
        lemma_collect_grams_kept(kg, big1, big1.len() as int, TermTest::EndsWithOrContains, slice, mid);
        lemma_collect_grams_distinct(kg, big1, big1.len() as int, TermTest::EndsWithOrContains, TermTest::EndsWithOrContains, slice, mid);
        if e.last() == '*' {
            let big2 = seq!['$'] + e.take(e.len() - 1);
            let b2 = walk_grams(kg, big2, TermTest::Contains, TermTest::Contains, slice, mid);
            lemma_intersection_members(b1, b2);
        }
    } else if e.len() > 0 && e.last() == '*' {
        let slice = e.take(e.len() - 1);
        let big = seq!['$'] + slice;
        lemma_collect_grams_kept(kg, big, big.len() as int, TermTest::StartsWith, slice, slice);
        lemma_collect_grams_distinct(kg, big, big.len() as int, TermTest::StartsWith, TermTest::StartsWith, slice, slice);
    } else {
        let pieces = split_spec(e, '*');
        let before = pieces[0];
        let after = pieces[1];
        let big1 = after.push('$');
        let big2 = seq!['$'] + before;
        let b1 = walk_grams(kg, big1, TermTest::EndsWith, TermTest::EndsWith, after, after);
        let b2 = walk_grams(kg, big2, TermTest::Nothing, TermTest::StartsWith, before, before);
        lemma_collect_grams_kept(kg, big1, big1.len() as int, TermTest::EndsWith, after, after);
        lemma_collect_grams_second_kept(kg, big2, big2.len() as int, TermTest::StartsWith, before, before);
        lemma_collect_grams_distinct(kg, big1, big1.len() as int, TermTest::EndsWith, TermTest::EndsWith, after, after);
        lemma_intersection_members(b1, b2);
    }
}

/// The documents where the words of a phrase literal occur in a row, each
/// word split off at a space, stemmed, and looked up in the index (see
/// `phrase_docs`).
pub fn phrase_query(query_literal: String, index: &DiskInvertedIndex) -> (r: Option<Vec<u32>>)
    ensures
        match phrase_docs(index, query_literal@) {
            None => r is None,
            Some(d) => r matches Some(v) && v@ == d,
        },
{
    let mut stemmer = match EnglishStemmer::new() {
        None => return None,
        Some(s) => s,
    };
    phrase_query_with(&mut stemmer, query_literal, index)
}

/// The documents where the words of a phrase literal occur in a row, the
/// words stemmed with `stemmer` (see `phrase_docs`); `None` exactly where
/// `phrase_docs` is.
pub fn phrase_query_with(stemmer: &mut EnglishStemmer, query_literal: String, index: &DiskInvertedIndex) -> (r: Option<Vec<u32>>)
    ensures
        match phrase_docs(index, query_literal@) {
            None => r is None,
            Some(d) => r matches Some(v) && v@ == d,
        },
{
    let terms = match phrase_terms_with(stemmer, query_literal.as_str()) {
        None => return None,
        Some(t) => t,
    };
    let ghost tv = string_views(terms@);
    assert(tv == phrase_terms_spec(query_literal@));
    let mut lists: Vec<Vec<(u32, Vec<u32>)>> = Vec::new();
    let mut k: usize = 0;
    assert(tv.take(0) =~= Seq::<Seq<char>>::empty());
    assert(lists@.map_values(|l: Vec<(u32, Vec<u32>)>| plist_view(l@)) =~= Seq::<Seq<(u32, Seq<u32>)>>::empty());
    while k < terms.len()
        invariant
            k <= terms@.len(),
            tv == string_views(terms@),
            tv == phrase_terms_spec(query_literal@),
            forall|i: int| 0 <= i < split_spec(query_literal@, ' ').len() ==> stemmable(#[trigger] split_spec(query_literal@, ' ')[i]),
            term_lists(index, tv.take(k as int)) == Some(lists@.map_values(|l: Vec<(u32, Vec<u32>)>| plist_view(l@))),
            forall|q: int| 0 <= q < lists@.len() ==> small_plist(plist_view(#[trigger] lists@[q]@)),
        decreases terms@.len() - k,
    {
        assert(tv.take(k + 1).drop_last() =~= tv.take(k as int));
        assert(tv.take(k + 1).last() == terms@[k as int]@);
        let ghost before = lists@.map_values(|l: Vec<(u32, Vec<u32>)>| plist_view(l@));
        match positional_list(index, terms[k].as_str()) {
            None => {
                proof {
                    lemma_term_lists_none(index, tv, k + 1);
                }
                return None;
            },
            Some(l) => {
                lists.push(l);
                assert(lists@.map_values(|l: Vec<(u32, Vec<u32>)>| plist_view(l@)) =~= before.push(plist_view(l@)));
            },
        }
        k = k + 1;
    }
    assert(tv.take(terms@.len() as int) =~= tv);
    proof {
        lemma_split_nonempty(query_literal@, ' ');
    }
    Some(phrase_merge(&lists))
}

/// The documents that a NEAR literal `a NEAR/k b` reports: for each posting
/// of `a` and each posting of `b` in the same document, the document when
/// some position of `b` follows one of `a` by at most `k` (see `near_docs`).
pub fn near_query(query_literal: String, index: &DiskInvertedIndex) -> (r: Option<Vec<u32>>)
    ensures
        match near_docs(index, query_literal@) {
            None => r is None,
            Some(d) => r matches Some(v) && v@ == d,
        },
{
    let mut stemmer = match EnglishStemmer::new() {
        None => return None,
        Some(s) => s,
    };
    near_query_with(&mut stemmer, query_literal, index)
}

/// The documents that a NEAR literal reports, its terms stemmed with
/// `stemmer` (see `near_docs`); `None` exactly where `near_docs` is.
pub fn near_query_with(stemmer: &mut EnglishStemmer, query_literal: String, index: &DiskInvertedIndex) -> (r: Option<Vec<u32>>)
    ensures
        match near_docs(index, query_literal@) {
            None => r is None,
            Some(d) => r matches Some(v) && v@ == d,
        },
{
    let (first_term, second_term, max_distance) = match near_terms_with(stemmer, query_literal.as_str()) {
        None => return None,
        Some(t) => t,
    };
    let first = match positional_list(index, first_term.as_str()) {
        None => return None,
        Some(l) => l,
    };
    if first.len() == 0 {
        let none: Vec<u32> = Vec::new();
        assert(none@ =~= Seq::<u32>::empty());
        return Some(none);
    }
    let second = match positional_list(index, second_term.as_str()) {
        None => return None,
        Some(l) => l,
    };
    Some(near_merge(&first, &second, max_distance))
}

/// Answers a boolean query against the on-disk index: the names, each
/// once, of the documents of any alternative of the query (see
/// `bool_query_result`), where `names` gives each document's name.  `None`
/// exactly where `bool_query_result` is `None`.
pub fn process_query_bool(
    input: &str,
    index: &DiskInvertedIndex,
    kgram: &KGramIndex,
    names: &HashMap<u32, String>,
) -> (r: Option<Vec<String>>)
    requires
        kgram.wf(),
    ensures
        match bool_query_result(index, kgram.gram_view(), kgram.enabled(), names@, input@) {
            None => r is None,
            Some(t) => r matches Some(v) && string_views(v@).no_duplicates() && string_views(v@).to_set() == t,
        },
{
    let mut stemmer = match EnglishStemmer::new() {
        None => return None,
        Some(s) => s,
    };
    process_query_bool_with(&mut stemmer, input, index, kgram, names)
}

/// Answers a boolean query, the words of the query stemmed with `stemmer`:
/// the names, each once, of the documents of any alternative of the query;
/// `None` exactly where `bool_query_result` is `None`.
pub fn process_query_bool_with(
    stemmer: &mut EnglishStemmer,
    input: &str,
    index: &DiskInvertedIndex,
    kgram: &KGramIndex,
    names: &HashMap<u32, String>,
) -> (r: Option<Vec<String>>)
    requires
        kgram.wf(),
    ensures
        match bool_query_result(index, kgram.gram_view(), kgram.enabled(), names@, input@) {
            None => r is None,
            Some(t) => r matches Some(v) && string_views(v@).no_duplicates() && string_views(v@).to_set() == t,
        },
{
    let cs = chars_of(input);
    if cs.len() >= 2147483647 {
        return None;
    }
    let parser = QueryParser::new();
    let alternatives = match parser.try_process_query(input) {
        None => return None,
        Some(a) => a,
    };
    let ghost av = string_views(alternatives@);
    assert(opt_string_views(Some(alternatives)) == Some(av));
    let mut or_results: Vec<Vec<String>> = Vec::new();
    let mut i: usize = 0;
    assert(or_results@.map_values(|l: Vec<String>| string_views(l@)) =~= Seq::<Seq<Seq<char>>>::empty());
    while i < alternatives.len()
        invariant
            i <= alternatives@.len(),
            kgram.wf(),
            av == string_views(alternatives@),
            input@.len() < i32::MAX,
            process_spec(input@) == Some(av),
            alternatives_result(index, kgram.gram_view(), kgram.enabled(), names@, av, i as int)
                == Some(join_all(or_results@.map_values(|l: Vec<String>| string_views(l@)))),
        decreases alternatives@.len() - i,
    {
        assert(av[i as int] == alternatives@[i as int]@);
        let ghost before = or_results@.map_values(|l: Vec<String>| string_views(l@));
        match alternative_documents(stemmer, &alternatives[i], index, kgram, names) {
            None => {
                proof {
                    assert(alternative_result(index, kgram.gram_view(), kgram.enabled(), names@, av[i as int]) is None);
                    lemma_documents_of_alternatives(index, kgram.gram_view(), kgram.enabled(), names@, av, av.len() as int, Seq::empty());
                }
                return None;
            },
            Some(None) => {},
            Some(Some(v)) => {
                let ghost vv = string_views(v@);
                or_results.push(v);
                assert(or_results@.map_values(|l: Vec<String>| string_views(l@)) =~= before.push(vv));
                assert(before.push(vv).drop_last() =~= before);
            },
        }
        i = i + 1;
    }
    Some(union_all(&or_results))
}

} // verus!
