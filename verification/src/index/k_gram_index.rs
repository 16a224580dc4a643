//! The k-gram index: maps each 1-, 2- and 3-gram of the terms indexed (with
//! `$` marking the start and end of a term) to the terms that contain it.
use vstd::prelude::*;
use crate::index::term_map::TermMap;
use crate::text::{chars_of, ref_views, string_from_range};

verus! {

/// What adding `term` under `gram` makes of the gram map `m`: the term is
/// appended to the gram's list unless it is already there.
pub open spec fn add_index_spec(
    m: Map<Seq<char>, Seq<Seq<char>>>,
    gram: Seq<char>,
    term: Seq<char>,
) -> Map<Seq<char>, Seq<Seq<char>>> {
    if m.contains_key(gram) {
        if m[gram].contains(term) {
            m
        } else {
            m.insert(gram, m[gram].push(term))
        }
    } else {
        m.insert(gram, seq![term])
    }
}

/// Adds `term` under each gram of `grams`, in order.
pub open spec fn add_all(
    m: Map<Seq<char>, Seq<Seq<char>>>,
    grams: Seq<Seq<char>>,
    term: Seq<char>,
) -> Map<Seq<char>, Seq<Seq<char>>>
    decreases grams.len(),
{
    if grams.len() == 0 {
        m
    } else {
        add_index_spec(add_all(m, grams.drop_last(), term), grams.last(), term)
    }
}

/// The term with `$` at both ends.
pub open spec fn marked(term: Seq<char>) -> Seq<char> {
    seq!['$'] + term + seq!['$']
}

/// The six grams read at window `i` of the marked word `w`: the 3-gram, its
/// two 2-grams, its middle character, its first and its last character.
pub open spec fn window_grams(w: Seq<char>, i: int) -> Seq<Seq<char>> {
    seq![
        w.subrange(i, i + 3),
        w.subrange(i, i + 2),
        w.subrange(i + 1, i + 3),
        w.subrange(i + 1, i + 2),
        w.subrange(i, i + 1),
        w.subrange(i + 2, i + 3),
    ]
}

/// All grams that `check_term(term)` adds, in the order it adds them.
pub open spec fn grams_of(term: Seq<char>) -> Seq<Seq<char>> {
    let w = marked(term);
    Seq::new((6 * term.len()) as nat, |k: int| window_grams(w, k / 6)[k % 6])
}

/// After adding a term under a list of grams, each of those grams maps to a
/// list that holds the term, and no gram that held it lost it.
pub proof fn lemma_add_all_holds(
    m: Map<Seq<char>, Seq<Seq<char>>>,
    grams: Seq<Seq<char>>,
    term: Seq<char>,
    g: Seq<char>,
)
    requires
        grams.contains(g) || (m.contains_key(g) && m[g].contains(term)),
    ensures
        add_all(m, grams, term).contains_key(g),
        add_all(m, grams, term)[g].contains(term),
    decreases grams.len(),
{
    let r = add_all(m, grams, term);
    if grams.len() == 0 {
    } else {
        let prev = add_all(m, grams.drop_last(), term);
        if g == grams.last() {
            if prev.contains_key(g) && !prev[g].contains(term) {
                assert(prev[g].push(term)[prev[g].len() as int] == term);
            }
            if !prev.contains_key(g) {
                assert(seq![term][0] == term);
            }
        } else {
            if grams.contains(g) {
                let i = choose|i: int| 0 <= i < grams.len() && grams[i] == g;
                assert(grams.drop_last()[i] == g);
            }
            lemma_add_all_holds(m, grams.drop_last(), term, g);
            if g != grams.last() {
                assert(r[g] == prev[g]);
            }
        }
    }
}

/// Adding a term under a list of grams takes no term away from any gram.
pub proof fn lemma_add_all_keeps(
    m: Map<Seq<char>, Seq<Seq<char>>>,
    grams: Seq<Seq<char>>,
    term: Seq<char>,
    g: Seq<char>,
    t: Seq<char>,
)
    requires
        m.contains_key(g),
        m[g].contains(t),
    ensures
        add_all(m, grams, term).contains_key(g),
        add_all(m, grams, term)[g].contains(t),
    decreases grams.len(),
{
    if grams.len() > 0 {
        let prev = add_all(m, grams.drop_last(), term);
        lemma_add_all_keeps(m, grams.drop_last(), term, g, t);
        if g == grams.last() && !prev[g].contains(term) {
            let i = choose|i: int| 0 <= i < prev[g].len() && prev[g][i] == t;
            assert(prev[g].push(term)[i] == t);
        }
    }
}

/// After `check_term(term)`, for a non-empty term, every 1-, 2- and 3-gram of
/// the term marked with `$` at both ends maps to a list that holds the term.
pub proof fn lemma_check_term_indexes_all_grams(
    m: Map<Seq<char>, Seq<Seq<char>>>,
    term: Seq<char>,
    a: int,
    len: int,
)
    requires
        term.len() >= 1,
        1 <= len <= 3,
        0 <= a,
        a + len <= marked(term).len(),
    ensures
        add_all(m, grams_of(term), term).contains_key(marked(term).subrange(a, a + len)),
        add_all(m, grams_of(term), term)[marked(term).subrange(a, a + len)].contains(term),
{
    let w = marked(term);
    let n = w.len();
    let gs = grams_of(term);
    let g = w.subrange(a, a + len);
    let (win, slot) = if len == 3 {
        (a, 0int)
    } else if len == 2 {
        if a <= n - 3 { (a, 1int) } else { (a - 1, 2int) }
    } else {
        if a <= n - 3 { (a, 4int) } else if a == n - 2 { (n - 3, 3int) } else { (n - 3, 5int) }
    };
    let k = 6 * win + slot;
    assert(k / 6 == win && k % 6 == slot) by (nonlinear_arith)
        requires k == 6 * win + slot, 0 <= slot < 6;
    assert(0 <= k < gs.len());
    assert(gs[k] =~= g);
    lemma_add_all_holds(m, gs, term, g);
}

/// An entry of grams by the characters of the gram and of its terms.
pub open spec fn entry_view(e: (String, Vec<String>)) -> (Seq<char>, Seq<Seq<char>>) {
    (e.0@, e.1@.map_values(|s: String| s@))
}

/// The map of grams to terms that the entries give, a later entry for a
/// gram replacing an earlier one.
pub open spec fn grams_map(entries: Seq<(Seq<char>, Seq<Seq<char>>)>) -> Map<Seq<char>, Seq<Seq<char>>>
    decreases entries.len(),
{
    if entries.len() == 0 {
        Map::empty()
    } else {
        grams_map(entries.drop_last()).insert(entries.last().0, entries.last().1)
    }
}

/// The k-gram index.
pub struct KGramIndex {
    m_index: TermMap<Vec<String>>,
    m_enable: bool,
}

impl KGramIndex {
    /// Each gram mapped to the terms that hold it, in the order they were added.
    pub closed spec fn gram_view(&self) -> Map<Seq<char>, Seq<Seq<char>>> {
        self.m_index.map_view().map_values(|ts: Vec<String>| ts@.map_values(|s: String| s@))
    }

    /// Whether the index is switched on.
    pub closed spec fn enabled(&self) -> bool {
        self.m_enable
    }

    /// The index is well formed.
    pub closed spec fn wf(&self) -> bool {
        self.m_index.wf()
    }

    /// An empty, disabled index.
    pub fn new() -> (k: KGramIndex)
        ensures
            k.wf(),
            k.gram_view() == Map::<Seq<char>, Seq<Seq<char>>>::empty(),
            !k.enabled(),
    {
        let k = KGramIndex { m_index: TermMap::new(), m_enable: false };
        assert(k.gram_view() =~= Map::<Seq<char>, Seq<Seq<char>>>::empty());
        k
    }

    /// Indexes `term` under every gram of `grams_of(term)`.
    pub fn check_term(&mut self, term: &str)
        requires
            old(self).wf(),
        ensures
            final(self).wf(),
            final(self).gram_view() == add_all(old(self).gram_view(), grams_of(term@), term@),
            final(self).enabled() == old(self).enabled(),
    {
        let ghost m0 = self.gram_view();
        let ghost gs = grams_of(term@);
        let tc = chars_of(term);
        let mut w: Vec<char> = Vec::new();
        w.push('$');
        let mut j: usize = 0;
        while j < tc.len()
            invariant
                j <= tc@.len(),
                w@ == seq!['$'] + tc@.take(j as int),
            decreases tc@.len() - j,
        {
            w.push(tc[j]);
            assert(tc@.take(j + 1) =~= tc@.take(j as int).push(tc@[j as int]));
            j = j + 1;
        }
        w.push('$');
        assert(tc@.take(tc@.len() as int) =~= tc@);
        assert(w@ =~= marked(term@));
        let n = w.len();
        let mut i: usize = 0;
        assert(gs.take(0) =~= Seq::<Seq<char>>::empty());
        while i + 2 < n
            invariant
                n == w@.len(),
                w@ == marked(term@),
                n == term@.len() + 2,
                i <= term@.len(),
                gs == grams_of(term@),
                self.wf(),
                self.enabled() == old(self).enabled(),
                self.gram_view() == add_all(m0, gs.take(6 * i), term@),
            decreases n - i,
        {
            let ghost before = self.gram_view();
            let g0 = string_from_range(&w, i, i + 3);
            let g1 = string_from_range(&w, i, i + 2);
            let g2 = string_from_range(&w, i + 1, i + 3);
            let g3 = string_from_range(&w, i + 1, i + 2);
            let g4 = string_from_range(&w, i, i + 1);
            let g5 = string_from_range(&w, i + 2, i + 3);
            let ghost b = 6 * i as int;
            let ghost wg = window_grams(w@, i as int);
            proof {
                assert(b + 6 <= gs.len());
                assert forall|s: int| 0 <= s < 6 implies gs[b + s] == #[trigger] wg[s] by {
                    assert((b + s) / 6 == i as int && (b + s) % 6 == s) by (nonlinear_arith)
                        requires b == 6 * i, 0 <= s < 6;
                }
                assert(6 * (i + 1) == b + 6);
            }
            self.add_index(g0.as_str(), term);
            proof {
                assert(gs.take(b + 1).drop_last() =~= gs.take(b));
                assert(gs.take(b + 1).last() == wg[0]);
                assert(self.gram_view() == add_all(m0, gs.take(b + 1), term@));
            }
            self.add_index(g1.as_str(), term);
            proof {
                assert(gs.take(b + 2).drop_last() =~= gs.take(b + 1));
                assert(gs.take(b + 2).last() == wg[1]);
                assert(self.gram_view() == add_all(m0, gs.take(b + 2), term@));
            }
            self.add_index(g2.as_str(), term);
            proof {
                assert(gs.take(b + 3).drop_last() =~= gs.take(b + 2));
                assert(gs.take(b + 3).last() == wg[2]);
                assert(self.gram_view() == add_all(m0, gs.take(b + 3), term@));
            }
            self.add_index(g3.as_str(), term);
            proof {
                assert(gs.take(b + 4).drop_last() =~= gs.take(b + 3));
                assert(gs.take(b + 4).last() == wg[3]);
                assert(self.gram_view() == add_all(m0, gs.take(b + 4), term@));
            }
            self.add_index(g4.as_str(), term);
            proof {
                assert(gs.take(b + 5).drop_last() =~= gs.take(b + 4));
                assert(gs.take(b + 5).last() == wg[4]);
                assert(self.gram_view() == add_all(m0, gs.take(b + 5), term@));
            }
            self.add_index(g5.as_str(), term);
            proof {
                assert(gs.take(b + 6).drop_last() =~= gs.take(b + 5));
                assert(gs.take(b + 6).last() == wg[5]);
                assert(self.gram_view() == add_all(m0, gs.take(b + 6), term@));
            }
            i = i + 1;
        }
        assert(gs.take(6 * i as int) =~= gs);
    }

    /// Adds `term` to the list of `gram`, unless it is already there.
    fn add_index(&mut self, gram: &str, term: &str)
        requires
            old(self).wf(),
        ensures
            final(self).wf(),
            final(self).gram_view() == add_index_spec(old(self).gram_view(), gram@, term@),
            final(self).enabled() == old(self).enabled(),
    {
        let ghost old_view = self.gram_view();
        let t = term.to_owned();
        if self.m_index.contains_key(gram) {
            let mut terms = self.m_index.replace(gram, Vec::new());
            let ghost tv = terms@.map_values(|s: String| s@);
            assert(tv == old_view[gram@]);
            let mut found = false;
            let mut k: usize = 0;
            while k < terms.len()
                invariant
                    k <= terms@.len(),
                    tv == terms@.map_values(|s: String| s@),
                    t@ == term@,
                    found == tv.take(k as int).contains(term@),
                decreases terms@.len() - k,
            {
                if terms[k] == t {
                    assert(tv.take(k + 1)[k as int] == term@);
                    found = true;
                } else {
                    assert(tv.take(k + 1) =~= tv.take(k as int).push(tv[k as int]));
                }
                if found {
                    assert(tv.take(k + 1).contains(term@)) by {
                        if !(tv.take(k as int).contains(term@)) {
                            assert(tv.take(k + 1)[k as int] == term@);
                        } else {
                            let q = choose|q: int| 0 <= q < k && tv.take(k as int)[q] == term@;
                            assert(tv.take(k + 1)[q] == term@);
                        }
                    }
                }
                k = k + 1;
            }
            assert(tv.take(terms@.len() as int) =~= tv);
            if !found {
                terms.push(t);
                assert(terms@.map_values(|s: String| s@) =~= tv.push(term@));
            }
            self.m_index.replace(gram, terms);
            assert(self.gram_view() =~= add_index_spec(old_view, gram@, term@));
        } else {
            let mut terms: Vec<String> = Vec::new();
            terms.push(t);
            self.m_index.insert_new(gram.to_owned(), terms);
            assert(terms@.map_values(|s: String| s@) =~= seq![term@]);
            assert(self.gram_view() =~= add_index_spec(old_view, gram@, term@));
        }
    }

    /// The grams of the index, each once.
    pub fn get_k_grams(&self) -> (k_grams: Vec<&String>)
        requires
            self.wf(),
        ensures
            k_grams@.len() == self.gram_view().len(),
            ref_views(k_grams@).no_duplicates(),
            ref_views(k_grams@).to_set() == self.gram_view().dom(),
    {
        let keys = self.m_index.keys();
        proof {
            self.m_index.lemma_keys();
            assert(ref_views(keys@) =~= self.m_index.key_seq());
            assert(self.gram_view().dom() =~= self.m_index.map_view().dom());
            assert(self.m_index.key_seq().to_set() =~= self.gram_view().dom());
        }
        keys
    }

    /// The terms indexed under `gram` (none when the gram is unknown).
    pub fn get_terms(&self, gram: &str) -> (terms: Vec<String>)
        requires
            self.wf(),
        ensures
            self.gram_view().contains_key(gram@) ==> terms@.map_values(|s: String| s@) == self.gram_view()[gram@],
            !self.gram_view().contains_key(gram@) ==> terms@.len() == 0,
    {
        match self.m_index.get(gram) {
            Some(ts) => {
                let r = ts.clone();
                assert(r@.map_values(|s: String| s@) =~= ts@.map_values(|s: String| s@)) by {
                    assert forall|i: int| 0 <= i < r@.len() implies r@[i]@ == ts@[i]@ by {
                        assert(cloned::<String>(ts@[i], r@[i]));
                    }
                }
                r
            },
            None => Vec::new(),
        }
    }

    /// A well-formed index holds finitely many terms.
    pub proof fn lemma_finite(&self)
        requires
            self.wf(),
        ensures
            self.gram_view().dom().finite(),
    {
        self.m_index.lemma_keys();
        assert(self.gram_view().dom() =~= self.m_index.map_view().dom());
    }

    /// Whether the index is switched on.
    pub fn is_enabled(&self) -> (b: bool)
        ensures
            b == self.enabled(),
    {
        self.m_enable
    }

    /// An index that maps each gram of `entries` to its terms, a later entry
    /// for a gram replacing an earlier one (see `grams_map`), switched on
    /// when `enabled`.
    pub fn from_grams(entries: Vec<(String, Vec<String>)>, enabled: bool) -> (k: KGramIndex)
        ensures
            k.wf(),
            k.gram_view() == grams_map(entries@.map_values(|e: (String, Vec<String>)| entry_view(e))),
            k.enabled() == enabled,
    {
        let ghost ev = entries@.map_values(|e: (String, Vec<String>)| entry_view(e));
        let mut k = KGramIndex { m_index: TermMap::new(), m_enable: enabled };
        assert(k.gram_view() =~= grams_map(ev.take(0)));
        let mut i: usize = 0;
        while i < entries.len()
            invariant
                i <= entries@.len(),
                ev == entries@.map_values(|e: (String, Vec<String>)| entry_view(e)),
                k.wf(),
                k.m_enable == enabled,
                k.gram_view() == grams_map(ev.take(i as int)),
            decreases entries@.len() - i,
        {
            let gram = entries[i].0.clone();
            let terms = &entries[i].1;
            let mut copy: Vec<String> = Vec::new();
            let mut j: usize = 0;
            while j < terms.len()
                invariant
                    j <= terms@.len(),
                    copy@.map_values(|s: String| s@) == terms@.take(j as int).map_values(|s: String| s@),
                decreases terms@.len() - j,
            {
                let ghost before = copy@.map_values(|s: String| s@);
                copy.push(terms[j].clone());
                assert(copy@.map_values(|s: String| s@) =~= before.push(terms@[j as int]@));
                assert(terms@.take(j + 1).map_values(|s: String| s@) =~= terms@.take(j as int).map_values(|s: String| s@).push(terms@[j as int]@));
                j = j + 1;
            }
            assert(terms@.take(terms@.len() as int) =~= terms@);
            assert(ev.take(i + 1).drop_last() =~= ev.take(i as int));
            assert(ev.take(i + 1).last() == entry_view(entries@[i as int]));
            let ghost old_view = k.gram_view();
            let ghost cv = copy@.map_values(|s: String| s@);
            if k.m_index.contains_key(gram.as_str()) {
                let _ = k.m_index.replace(gram.as_str(), copy);
            } else {
                k.m_index.insert_new(gram, copy);
            }
            assert(k.gram_view() =~= old_view.insert(entries@[i as int].0@, cv));
            i = i + 1;
        }
        assert(ev.take(entries@.len() as int) =~= ev);
        k
    }

    /// Switches the index on.
    pub fn enable_k_gram(&mut self)
        ensures
            final(self).enabled(),
            final(self).gram_view() == old(self).gram_view(),
            final(self).wf() == old(self).wf(),
    {
        self.m_enable = true;
    }

    /// Switches the index off.
    pub fn disable_k_gram(&mut self)
        ensures
            !final(self).enabled(),
            final(self).gram_view() == old(self).gram_view(),
            final(self).wf() == old(self).wf(),
    {
        self.m_enable = false;
    }
}


/// A call on the k-gram index: `enable_k_gram`, `disable_k_gram`, or
/// `check_term` with a term.
pub enum GramCall {
    Enable,
    Disable,
    Check(Seq<char>),
}

/// The grams and the switch of an index after the calls, in order, from
/// `grams` and `on`, each call doing what its method's contract says.
pub open spec fn after_calls(
    grams: Map<Seq<char>, Seq<Seq<char>>>,
    on: bool,
    calls: Seq<GramCall>,
) -> (Map<Seq<char>, Seq<Seq<char>>>, bool)
    decreases calls.len(),
{
    if calls.len() == 0 {
        (grams, on)
    } else {
        let (m, b) = after_calls(grams, on, calls.drop_last());
        match calls.last() {
            GramCall::Enable => (m, true),
            GramCall::Disable => (m, false),
            GramCall::Check(t) => (add_all(m, grams_of(t), t), b),
        }
    }
}

/// The terms checked by the calls, in order.
pub open spec fn checked_terms(calls: Seq<GramCall>) -> Seq<Seq<char>>
    decreases calls.len(),
{
    if calls.len() == 0 {
        Seq::empty()
    } else {
        match calls.last() {
            GramCall::Check(t) => checked_terms(calls.drop_last()).push(t),
            _ => checked_terms(calls.drop_last()),
        }
    }
}

/// The grams after checking each term, in order.
pub open spec fn add_terms_all(m: Map<Seq<char>, Seq<Seq<char>>>, ts: Seq<Seq<char>>) -> Map<Seq<char>, Seq<Seq<char>>>
    decreases ts.len(),
{
    if ts.len() == 0 {
        m
    } else {
        add_all(add_terms_all(m, ts.drop_last()), grams_of(ts.last()), ts.last())
    }
}

/// From a new index, after any sequence of calls the index is switched on
/// exactly when some call switched it on and no later call switched it
/// off; and its grams are those of the terms checked, in order, whatever
/// switching came between them.
pub proof fn lemma_switch_follows_last_call(calls: Seq<GramCall>)
    ensures
        after_calls(Map::empty(), false, calls).1 <==> exists|i: int|
            0 <= i < calls.len() && (#[trigger] calls[i]) is Enable
                && forall|j: int| i < j < calls.len() ==> !(#[trigger] calls[j] is Disable),
        after_calls(Map::empty(), false, calls).0 == add_terms_all(Map::empty(), checked_terms(calls)),
    decreases calls.len(),
{
    if calls.len() > 0 {
        let prev = calls.drop_last();
        let n = calls.len() - 1;
        lemma_switch_follows_last_call(prev);
        match calls.last() {
            GramCall::Enable => {
                assert(calls[n] is Enable);
            },
            GramCall::Disable => {
                if exists|i: int| 0 <= i < calls.len() && (#[trigger] calls[i]) is Enable
                    && forall|j: int| i < j < calls.len() ==> !(#[trigger] calls[j] is Disable) {
                    let i = choose|i: int| 0 <= i < calls.len() && (#[trigger] calls[i]) is Enable
                        && forall|j: int| i < j < calls.len() ==> !(#[trigger] calls[j] is Disable);
                    assert(calls[n] is Disable);
                }
            },
            GramCall::Check(t) => {
                if exists|i: int| 0 <= i < calls.len() && (#[trigger] calls[i]) is Enable
                    && forall|j: int| i < j < calls.len() ==> !(#[trigger] calls[j] is Disable) {
                    let i = choose|i: int| 0 <= i < calls.len() && (#[trigger] calls[i]) is Enable
                        && forall|j: int| i < j < calls.len() ==> !(#[trigger] calls[j] is Disable);
                    assert(i < n);
                    assert(prev[i] == calls[i]);
                    assert forall|j: int| i < j < prev.len() implies !(#[trigger] prev[j] is Disable) by {
                        assert(prev[j] == calls[j]);
                    }
                }
                if exists|i: int| 0 <= i < prev.len() && (#[trigger] prev[i]) is Enable
                    && forall|j: int| i < j < prev.len() ==> !(#[trigger] prev[j] is Disable) {
                    let i = choose|i: int| 0 <= i < prev.len() && (#[trigger] prev[i]) is Enable
                        && forall|j: int| i < j < prev.len() ==> !(#[trigger] prev[j] is Disable);
                    assert(calls[i] == prev[i]);
                    assert forall|j: int| i < j < calls.len() implies !(#[trigger] calls[j] is Disable) by {
                        if j < n {
                            assert(prev[j] == calls[j]);
                        }
                    }
                }
                assert(checked_terms(calls).drop_last() == checked_terms(prev));
            },
        }
    }
}

} // verus!
