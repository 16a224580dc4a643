//! A non-positional inverted index: each term maps to the documents it occurs in.
use vstd::prelude::*;
use crate::index::term_map::TermMap;
use crate::text::ref_views;

verus! {

/// What `add_term(t, d)` makes of an index whose contents are `m`.
pub open spec fn add_doc_spec(m: Map<Seq<char>, Seq<i32>>, t: Seq<char>, d: i32) -> Map<Seq<char>, Seq<i32>> {
    if m.contains_key(t) {
        if m[t].last() != d {
            m.insert(t, m[t].push(d))
        } else {
            m
        }
    } else {
        m.insert(t, seq![d])
    }
}

/// An inverted index from terms to document ids.
pub struct InvertedIndex {
    pub m_index: TermMap<Vec<i32>>,
}

impl InvertedIndex {
    /// Each term mapped to its document ids.
    pub open spec fn index_view(&self) -> Map<Seq<char>, Seq<i32>> {
        self.m_index.map_view().map_values(|v: Vec<i32>| v@)
    }

    /// The map is well formed and every term has at least one document.
    pub open spec fn wf(&self) -> bool {
        &&& self.m_index.wf()
        &&& forall|t: Seq<char>| #[trigger] self.index_view().contains_key(t) ==> self.index_view()[t].len() > 0
    }

    /// Empties the index.
    pub fn new(&mut self)
        ensures
            final(self).wf(),
            final(self).index_view() == Map::<Seq<char>, Seq<i32>>::empty(),
    {
        self.m_index = TermMap::new();
        assert(self.index_view() =~= Map::<Seq<char>, Seq<i32>>::empty());
    }

    /// A well-formed index holds finitely many terms.
    pub proof fn lemma_finite(&self)
        requires
            self.wf(),
        ensures
            self.index_view().dom().finite(),
    {
        self.m_index.lemma_keys();
        assert(self.index_view().dom() =~= self.m_index.map_view().dom());
    }

    /// Records that `term` occurs in document `doc_id`; the id is appended
    /// unless it is already the last one of the term's list.
    pub fn add_term(&mut self, term: &str, doc_id: i32)
        requires
            old(self).wf(),
        ensures
            !old(self).index_view().contains_key(term@) ==> final(self).index_view().len() == old(self).index_view().len() + 1,
            old(self).index_view().contains_key(term@) ==> final(self).index_view().len() == old(self).index_view().len(),
            final(self).wf(),
            final(self).index_view() == add_doc_spec(old(self).index_view(), term@, doc_id),
    {
        proof {
            old(self).lemma_finite();
        }
        let ghost old_view = self.index_view();
        if self.m_index.contains_key(term) {
            let mut posting = self.m_index.replace(term, Vec::new());
            assert(old_view.contains_key(term@));
            assert(posting@ == old_view[term@]);
            if posting[posting.len() - 1] != doc_id {
                posting.push(doc_id);
            }
            self.m_index.replace(term, posting);
            assert(self.index_view() =~= add_doc_spec(old_view, term@, doc_id));
        } else {
            let mut posting: Vec<i32> = Vec::new();
            posting.push(doc_id);
            self.m_index.insert_new(term.to_owned(), posting);
            assert(posting@ =~= seq![doc_id]);
            assert(self.index_view() =~= add_doc_spec(old_view, term@, doc_id));
        }
    }

    /// The document ids of a term that the index holds.
    pub fn get_postings(&self, term: &str) -> (p: &Vec<i32>)
        requires
            self.wf(),
            self.index_view().contains_key(term@),
        ensures
            p@ == self.index_view()[term@],
    {
        match self.m_index.get(term) {
            Some(p) => p,
            None => {
                assert(false);
                unreached()
            }
        }
    }

    /// The number of distinct terms.
    pub fn get_term_count(&self) -> (n: usize)
        requires
            self.wf(),
        ensures
            n == self.index_view().len(),
    {
        proof {
            self.m_index.lemma_keys();
            assert(self.index_view().dom() =~= self.m_index.map_view().dom());
        }
        self.m_index.len()
    }

    /// The terms of the index, each once.
    pub fn get_dictionary(&self) -> (dictionary: Vec<&String>)
        requires
            self.wf(),
        ensures
            dictionary@.len() == self.index_view().len(),
            ref_views(dictionary@).no_duplicates(),
            ref_views(dictionary@).to_set() == self.index_view().dom(),
    {
        let keys = self.m_index.keys();
        proof {
            self.m_index.lemma_keys();
            assert(ref_views(keys@) =~= self.m_index.key_seq());
            assert(self.index_view().dom() =~= self.m_index.map_view().dom());
            assert(self.m_index.key_seq().to_set() =~= self.index_view().dom());
        }
        keys
    }
}

} // verus!
