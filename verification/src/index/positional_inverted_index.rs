//! A positional inverted index: each term maps to its postings, one per
//! document, each holding the positions at which the term occurs.
use vstd::prelude::*;
use crate::index::term_map::TermMap;
use crate::text::{lex_lt, ref_views, sort_terms};

verus! {

/// The postings of one term in one document.
pub struct PositionalPosting {
    m_doc_id: u64,
    m_positions: Vec<u64>,
}

impl View for PositionalPosting {
    type V = (u64, Seq<u64>);

    closed spec fn view(&self) -> (u64, Seq<u64>) {
        (self.m_doc_id, self.m_positions@)
    }
}

impl Clone for PositionalPosting {
    fn clone(&self) -> (r: Self)
        ensures
            r@ == self@,
    {
        PositionalPosting { m_doc_id: self.m_doc_id, m_positions: self.m_positions.clone() }
    }
}

impl PositionalPosting {
    /// A posting for `doc_id` with no positions yet.
    pub fn new(doc_id: u64) -> (p: PositionalPosting)
        ensures
            p@ == (doc_id, Seq::<u64>::empty()),
    {
        PositionalPosting { m_doc_id: doc_id, m_positions: Vec::new() }
    }

    /// The document id.
    pub fn get_doc_id(&self) -> (d: u64)
        ensures
            d == self@.0,
    {
        self.m_doc_id
    }

    /// A copy of the positions.
    pub fn get_positions(&self) -> (ps: Vec<u64>)
        ensures
            ps@ == self@.1,
    {
        self.m_positions.clone()
    }

    /// Appends a position.
    pub fn add_position(&mut self, pos: u64)
        ensures
            final(self)@ == (old(self)@.0, old(self)@.1.push(pos)),
    {
        self.m_positions.push(pos);
    }

    /// The last position added.
    fn get_last_position(&self) -> (p: u64)
        requires
            self@.1.len() > 0,
        ensures
            p == self@.1.last(),
    {
        self.m_positions[self.m_positions.len() - 1]
    }
}

/// The views of a list of postings.
pub open spec fn postings_view(ps: Seq<PositionalPosting>) -> Seq<(u64, Seq<u64>)> {
    ps.map_values(|p: PositionalPosting| p@)
}

/// What `add_term(t, d, p)` makes of an index whose contents are `m`.
pub open spec fn add_term_spec(
    m: Map<Seq<char>, Seq<(u64, Seq<u64>)>>,
    t: Seq<char>,
    d: u64,
    p: u64,
) -> Map<Seq<char>, Seq<(u64, Seq<u64>)>> {
    if m.contains_key(t) {
        let ps = m[t];
        let last = ps.last();
        if last.0 == d {
            if last.1.last() != p {
                m.insert(t, ps.update(ps.len() - 1, (d, last.1.push(p))))
            } else {
                m
            }
        } else {
            m.insert(t, ps.push((d, seq![p])))
        }
    } else {
        m.insert(t, seq![(d, seq![p])])
    }
}

/// Every term has at least one posting, and every posting at least one position.
pub open spec fn nonempty_postings(m: Map<Seq<char>, Seq<(u64, Seq<u64>)>>) -> bool {
    forall|t: Seq<char>| #[trigger] m.contains_key(t) ==> {
        &&& m[t].len() > 0
        &&& forall|i: int| 0 <= i < m[t].len() ==> (#[trigger] m[t][i]).1.len() > 0
    }
}

/// Every term's postings are in strictly increasing document order, and the
/// positions of every posting are strictly increasing.
pub open spec fn sorted_postings(m: Map<Seq<char>, Seq<(u64, Seq<u64>)>>) -> bool {
    forall|t: Seq<char>| #[trigger] m.contains_key(t) ==> {
        &&& forall|i: int, j: int| 0 <= i < j < m[t].len() ==> (#[trigger] m[t][i]).0 < (#[trigger] m[t][j]).0
        &&& forall|i: int| 0 <= i < m[t].len() ==> increasing(#[trigger] m[t][i].1)
    }
}

/// A strictly increasing sequence.
pub open spec fn increasing(s: Seq<u64>) -> bool {
    forall|i: int, j: int| 0 <= i < j < s.len() ==> s[i] < s[j]
}

/// Adding a term keeps every term's postings and positions non-empty; and
/// when documents are indexed in increasing id order, each at increasing
/// positions, it keeps every postings list sorted by document and every
/// position list sorted.
pub proof fn lemma_add_term_keeps_sorted(
    m: Map<Seq<char>, Seq<(u64, Seq<u64>)>>,
    t: Seq<char>,
    d: u64,
    p: u64,
)
    requires
        nonempty_postings(m),
        sorted_postings(m),
        m.contains_key(t) ==> m[t].last().0 <= d,
        m.contains_key(t) && m[t].last().0 == d ==> m[t].last().1.last() <= p,
    ensures
        nonempty_postings(add_term_spec(m, t, d, p)),
        sorted_postings(add_term_spec(m, t, d, p)),
{
    let r = add_term_spec(m, t, d, p);
    if m.contains_key(t) {
        let ps = m[t];
        assert(ps.len() > 0);
        let last = ps.last();
        assert(last.1.len() > 0);
        assert(increasing(last.1));
        assert forall|i: int| 0 <= i < r[t].len() - 1 implies (#[trigger] r[t][i]).0 < d by {
            if i < ps.len() - 1 {
                assert(ps[i].0 < ps[ps.len() - 1].0);
            }
        }
        if last.0 == d && last.1.last() != p {
            assert(increasing(last.1.push(p)));
        }
    }
    assert(nonempty_postings(r));
}

/// The index map after `add_term` with each `(term, doc_id, pos)` of
/// `calls`, in order, from `m`.
pub open spec fn add_terms_history(
    m: Map<Seq<char>, Seq<(u64, Seq<u64>)>>,
    calls: Seq<(Seq<char>, u64, u64)>,
) -> Map<Seq<char>, Seq<(u64, Seq<u64>)>>
    decreases calls.len(),
{
    if calls.len() == 0 {
        m
    } else {
        let c = calls.last();
        add_term_spec(add_terms_history(m, calls.drop_last()), c.0, c.1, c.2)
    }
}

/// The `(doc_id, pos)` pairs of the calls never go down, in the order of
/// documents first and positions second.
pub open spec fn calls_in_order(calls: Seq<(Seq<char>, u64, u64)>) -> bool {
    forall|i: int, j: int| 0 <= i < j < calls.len() ==> {
        ||| (#[trigger] calls[i]).1 < (#[trigger] calls[j]).1
        ||| calls[i].1 == calls[j].1 && calls[i].2 <= calls[j].2
    }
}

/// No posting of the map is past document `d`, position `p`.
pub open spec fn last_at_most(m: Map<Seq<char>, Seq<(u64, Seq<u64>)>>, d: u64, p: u64) -> bool {
    forall|t: Seq<char>| #[trigger] m.contains_key(t) ==> {
        ||| m[t].last().0 < d
        ||| m[t].last().0 == d && m[t].last().1.last() <= p
    }
}

proof fn lemma_history_sorted(calls: Seq<(Seq<char>, u64, u64)>)
    requires
        calls_in_order(calls),
    ensures
        nonempty_postings(add_terms_history(Map::empty(), calls)),
        sorted_postings(add_terms_history(Map::empty(), calls)),
        calls.len() > 0 ==> last_at_most(add_terms_history(Map::empty(), calls), calls.last().1, calls.last().2),
    decreases calls.len(),
{
    if calls.len() > 0 {
        let prev = calls.drop_last();
        let c = calls.last();
        let m = add_terms_history(Map::empty(), prev);
        assert(calls_in_order(prev)) by {
            assert forall|i: int, j: int| 0 <= i < j < prev.len() implies {
                ||| (#[trigger] prev[i]).1 < (#[trigger] prev[j]).1
                ||| prev[i].1 == prev[j].1 && prev[i].2 <= prev[j].2
            } by {
                assert(prev[i] == calls[i] && prev[j] == calls[j]);
            }
        }
        lemma_history_sorted(prev);
        if prev.len() > 0 {
            let b = prev.last();
            assert(b == calls[calls.len() - 2]);
            assert(c == calls[calls.len() - 1]);
        }
        assert(last_at_most(m, c.1, c.2));
        lemma_add_term_keeps_sorted(m, c.0, c.1, c.2);
        let r = add_term_spec(m, c.0, c.1, c.2);
        assert forall|t: Seq<char>| #[trigger] r.contains_key(t) implies {
            ||| r[t].last().0 < c.1
            ||| r[t].last().0 == c.1 && r[t].last().1.last() <= c.2
        } by {
            if t == c.0 && m.contains_key(t) {
                let ps = m[t];
                let last = ps.last();
                if last.0 == c.1 && last.1.last() != c.2 {
                    assert(r[t].last() == (c.1, last.1.push(c.2)));
                }
            }
        }
    }
}

/// From an empty index, any history of `add_term` calls whose `(doc_id,
/// pos)` pairs never go down (documents first, then positions) leaves every
/// term with at least one posting, its postings in strictly increasing
/// document order, and the positions of each posting non-empty and strictly
/// increasing.
pub proof fn lemma_add_term_history_sorted(calls: Seq<(Seq<char>, u64, u64)>)
    requires
        calls_in_order(calls),
    ensures
        nonempty_postings(add_terms_history(Map::empty(), calls)),
        sorted_postings(add_terms_history(Map::empty(), calls)),
{
    lemma_history_sorted(calls);
}

/// The positional inverted index.
pub struct PositionalInvertedIndex {
    m_index: TermMap<Vec<PositionalPosting>>,
}

impl PositionalInvertedIndex {
    /// Each term mapped to the views of its postings.
    pub closed spec fn index_view(&self) -> Map<Seq<char>, Seq<(u64, Seq<u64>)>> {
        self.m_index.map_view().map_values(|ps: Vec<PositionalPosting>| postings_view(ps@))
    }

    /// The index is well formed.
    pub closed spec fn wf(&self) -> bool {
        &&& self.m_index.wf()
        &&& nonempty_postings(self.index_view())
    }

    /// An empty index.
    pub fn new() -> (idx: PositionalInvertedIndex)
        ensures
            idx.wf(),
            idx.index_view() == Map::<Seq<char>, Seq<(u64, Seq<u64>)>>::empty(),
    {
        let idx = PositionalInvertedIndex { m_index: TermMap::new() };
        assert(idx.index_view() =~= Map::<Seq<char>, Seq<(u64, Seq<u64>)>>::empty());
        idx
    }

    /// A well-formed index holds finitely many terms.
    pub proof fn lemma_finite(&self)
        requires
            self.wf(),
        ensures
            self.index_view().dom().finite(),
    {
        self.m_index.lemma_keys();
        assert(self.index_view().dom() =~= self.m_index.map_view().dom());
    }

    /// Records that `term` occurs in document `doc_id` at position `pos`.
    /// A new document starts a new posting; a position equal to the last one
    /// recorded for the same document is not repeated.
    pub fn add_term(&mut self, term: &str, doc_id: u64, pos: u64)
        requires
            old(self).wf(),
        ensures
            !old(self).index_view().contains_key(term@) ==> final(self).index_view().len() == old(self).index_view().len() + 1,
            old(self).index_view().contains_key(term@) ==> final(self).index_view().len() == old(self).index_view().len(),
            final(self).wf(),
            final(self).index_view() == add_term_spec(old(self).index_view(), term@, doc_id, pos),
    {
        proof {
            old(self).lemma_finite();
        }
        let ghost old_view = self.index_view();
        let ghost old_map = self.m_index.map_view();
        if self.m_index.contains_key(term) {
            let mut ps = self.m_index.replace(term, Vec::new());
            assert(postings_view(ps@) == old_view[term@]);
            assert(old_view.contains_key(term@));
            assert(postings_view(ps@).len() == ps@.len());
            let n = ps.len();
            assert(n > 0);
            let last_doc = ps[n - 1].get_doc_id();
            if last_doc == doc_id {
                assert(ps@[n - 1]@ == old_view[term@][n - 1]);
                assert(old_view[term@][n - 1].1.len() > 0);
                let last_pos = ps[n - 1].get_last_position();
                if last_pos != pos {
                    ps[n - 1].add_position(pos);
                }
            } else {
                let mut np = PositionalPosting::new(doc_id);
                np.add_position(pos);
                ps.push(np);
            }
            self.m_index.replace(term, ps);
            proof {
                let ov = old_view[term@];
                if last_doc == doc_id && ov.last().1.last() != pos {
                    assert(postings_view(ps@) =~= ov.update(ov.len() - 1, (doc_id, ov.last().1.push(pos))));
                } else if last_doc == doc_id {
                    assert(postings_view(ps@) =~= ov);
                } else {
                    assert(postings_view(ps@) =~= ov.push((doc_id, seq![pos])));
                }
                assert(self.index_view() =~= add_term_spec(old_view, term@, doc_id, pos));
            }
        } else {
            let mut np = PositionalPosting::new(doc_id);
            np.add_position(pos);
            let mut ps: Vec<PositionalPosting> = Vec::new();
            ps.push(np);
            self.m_index.insert_new(term.to_owned(), ps);
            proof {
                assert(postings_view(ps@) =~= seq![(doc_id, seq![pos])]);
                assert(self.index_view() =~= add_term_spec(old_view, term@, doc_id, pos));
            }
        }
    }

    /// Whether `term` is in the index.
    pub fn contains_term(&self, term: &str) -> (b: bool)
        requires
            self.wf(),
        ensures
            b == self.index_view().contains_key(term@),
    {
        self.m_index.contains_key(term)
    }

    /// The postings of a term that the index holds.
    pub fn get_postings(&self, term: &str) -> (ps: &Vec<PositionalPosting>)
        requires
            self.wf(),
            self.index_view().contains_key(term@),
        ensures
            postings_view(ps@) == self.index_view()[term@],
    {
        match self.m_index.get(term) {
            Some(ps) => ps,
            None => {
                assert(false);
                unreached()
            }
        }
    }

    /// The number of distinct terms.
    pub fn get_term_count(&self) -> (n: usize)
        requires
            self.wf(),
        ensures
            n == self.index_view().len(),
    {
        proof {
            self.m_index.lemma_keys();
            assert(self.index_view().dom() =~= self.m_index.map_view().dom());
        }
        self.m_index.len()
    }

    /// The terms of the index, each once, in the order of `String`'s `Ord`.
    pub fn get_dictionary(&self) -> (dictionary: Vec<&String>)
        requires
            self.wf(),
        ensures
            dictionary@.len() == self.index_view().len(),
            forall|i: int, j: int| 0 <= i < j < dictionary@.len() ==>
                lex_lt(#[trigger] dictionary@[i]@, #[trigger] dictionary@[j]@),
            ref_views(dictionary@).to_set() == self.index_view().dom(),
    {
        let keys = self.m_index.keys();
        proof {
            self.m_index.lemma_keys();
            assert(ref_views(keys@) =~= self.m_index.key_seq());
            assert(self.index_view().dom() =~= self.m_index.map_view().dom());
            assert(self.m_index.key_seq().to_set() =~= self.index_view().dom());
        }
        sort_terms(keys)
    }
}

} // verus!
