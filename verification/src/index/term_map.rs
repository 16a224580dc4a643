//! A map from terms to values that remembers the order in which its terms
//! were first inserted, so that they can be listed.
use vstd::prelude::*;
use vstd::hash_map::StringHashMap;

verus! {

/// Maps each term to a value; the terms can be listed in insertion order.
pub struct TermMap<V> {
    keys: Vec<String>,
    values: Vec<V>,
    slots: StringHashMap<usize>,
}

impl<V> TermMap<V> {
    /// The term list, the value list and the hash index agree.
    pub closed spec fn wf(&self) -> bool {
        &&& self.keys@.len() == self.values@.len()
        &&& forall|k: Seq<char>| #[trigger] self.slots@.contains_key(k) ==> {
            &&& (self.slots@[k] as int) < self.keys@.len()
            &&& self.keys@[self.slots@[k] as int]@ == k
        }
        &&& forall|i: int| 0 <= i < self.keys@.len() ==> {
            &&& #[trigger] self.slots@.contains_key(self.keys@[i]@)
            &&& self.slots@[self.keys@[i]@] == i
        }
    }

    /// The terms, in the order in which they were first inserted.
    pub closed spec fn key_seq(&self) -> Seq<Seq<char>> {
        self.keys@.map_values(|s: String| s@)
    }

    /// What the map holds.
    pub closed spec fn map_view(&self) -> Map<Seq<char>, V> {
        Map::new(
            |k: Seq<char>| self.slots@.contains_key(k),
            |k: Seq<char>| self.values@[self.slots@[k] as int],
        )
    }

    /// The terms are listed once each, and they are exactly the map's keys.
    pub proof fn lemma_keys(&self)
        requires
            self.wf(),
        ensures
            self.key_seq().no_duplicates(),
            forall|k: Seq<char>| self.map_view().contains_key(k) <==> #[trigger] self.key_seq().contains(k),
            self.map_view().dom().finite(),
            self.map_view().len() == self.key_seq().len(),
    {
        let ks = self.key_seq();
        assert forall|i: int, j: int| 0 <= i < ks.len() && 0 <= j < ks.len() && i != j
            implies ks[i] != ks[j] by {
            assert(ks[i] == self.keys@[i]@);
            assert(ks[j] == self.keys@[j]@);
            assert(self.slots@.contains_key(self.keys@[i]@));
            assert(self.slots@.contains_key(self.keys@[j]@));
        }
        assert forall|k: Seq<char>| self.map_view().contains_key(k) <==> #[trigger] ks.contains(k) by {
            if self.slots@.contains_key(k) {
                let i = self.slots@[k] as int;
                assert(ks[i] == k);
            }
            if ks.contains(k) {
                let i = choose|i: int| 0 <= i < ks.len() && ks[i] == k;
                assert(ks[i] == self.keys@[i]@);
            }
        }
        assert(self.map_view().dom() =~= ks.to_set());
        ks.unique_seq_to_set();
    }

    /// An empty map.
    pub fn new() -> (m: Self)
        ensures
            m.wf(),
            m.map_view() == Map::<Seq<char>, V>::empty(),
            m.key_seq() == Seq::<Seq<char>>::empty(),
    {
        let m = TermMap { keys: Vec::new(), values: Vec::new(), slots: StringHashMap::new() };
        assert(m.map_view() =~= Map::<Seq<char>, V>::empty());
        assert(m.key_seq() =~= Seq::<Seq<char>>::empty());
        m
    }

    /// The number of terms.
    pub fn len(&self) -> (n: usize)
        requires
            self.wf(),
        ensures
            n == self.map_view().len(),
            n == self.key_seq().len(),
    {
        proof {
            self.lemma_keys();
        }
        self.keys.len()
    }

    /// Whether `k` is a term of the map.
    pub fn contains_key(&self, k: &str) -> (b: bool)
        requires
            self.wf(),
        ensures
            b == self.map_view().contains_key(k@),
    {
        self.slots.contains_key(k)
    }

    /// The value of `k`, if `k` is a term of the map.
    pub fn get(&self, k: &str) -> (r: Option<&V>)
        requires
            self.wf(),
        ensures
            match r {
                Some(v) => self.map_view().contains_key(k@) && *v == self.map_view()[k@],
                None => !self.map_view().contains_key(k@),
            },
    {
        match self.slots.get(k) {
            Some(i) => Some(&self.values[*i]),
            None => None,
        }
    }

    /// Adds a term that the map does not hold yet.
    pub fn insert_new(&mut self, k: String, v: V)
        requires
            old(self).wf(),
            !old(self).map_view().contains_key(k@),
        ensures
            final(self).wf(),
            final(self).map_view() == old(self).map_view().insert(k@, v),
            final(self).key_seq() == old(self).key_seq().push(k@),
    {
        let ghost old_self = *self;
        let n = self.keys.len();
        let k2 = k.clone();
        let mut keys = Vec::new();
        std::mem::swap(&mut keys, &mut self.keys);
        keys.push(k);
        let mut values = Vec::new();
        std::mem::swap(&mut values, &mut self.values);
        values.push(v);
        let mut slots = StringHashMap::new();
        std::mem::swap(&mut slots, &mut self.slots);
        slots.insert(k2, n);
        *self = TermMap { keys, values, slots };
        proof {
            assert forall|key: Seq<char>| #[trigger] self.slots@.contains_key(key) implies
                (self.slots@[key] as int) < self.keys@.len() && self.keys@[self.slots@[key] as int]@ == key by {
                if key != k@ {
                    assert(old_self.slots@.contains_key(key));
                }
            }
            assert forall|i: int| 0 <= i < self.keys@.len() implies
                #[trigger] self.slots@.contains_key(self.keys@[i]@) && self.slots@[self.keys@[i]@] == i by {
                if i < n {
                    assert(self.keys@[i] == old_self.keys@[i]);
                    assert(old_self.slots@.contains_key(old_self.keys@[i]@));
                }
            }
        }
        assert(self.map_view() =~= old_self.map_view().insert(k@, v));
        assert(self.key_seq() =~= old_self.key_seq().push(k@));
    }

    /// Replaces the value of a term that the map holds, giving the old value back.
    pub fn replace(&mut self, k: &str, v: V) -> (prev: V)
        requires
            old(self).wf(),
            old(self).map_view().contains_key(k@),
        ensures
            final(self).wf(),
            prev == old(self).map_view()[k@],
            final(self).map_view() == old(self).map_view().insert(k@, v),
            final(self).key_seq() == old(self).key_seq(),
    {
        let ghost old_self = *self;
        let i = *self.slots.get(k).unwrap();
        let mut values = Vec::new();
        std::mem::swap(&mut values, &mut self.values);
        let mut prev = v;
        values.set_and_swap(i, &mut prev);
        let mut keys = Vec::new();
        std::mem::swap(&mut keys, &mut self.keys);
        let mut slots = StringHashMap::new();
        std::mem::swap(&mut slots, &mut self.slots);
        *self = TermMap { keys, values, slots };
        assert(self.map_view() =~= old_self.map_view().insert(k@, v));
        prev
    }

    /// References to the terms, in insertion order.
    pub fn keys(&self) -> (r: Vec<&String>)
        requires
            self.wf(),
        ensures
            r@.len() == self.key_seq().len(),
            forall|i: int| 0 <= i < r@.len() ==> #[trigger] r@[i]@ == self.key_seq()[i],
    {
        let mut r: Vec<&String> = Vec::new();
        let mut i: usize = 0;
        while i < self.keys.len()
            invariant
                i <= self.keys@.len(),
                r@.len() == i,
                forall|j: int| 0 <= j < i ==> #[trigger] r@[j]@ == self.key_seq()[j],
            decreases self.keys@.len() - i,
        {
            r.push(&self.keys[i]);
            i = i + 1;
        }
        r
    }
}

} // verus!
