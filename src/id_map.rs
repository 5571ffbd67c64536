use vstd::prelude::*;

use crate::block_id::BlockId;

verus! {

/// The ids of a sequence of entries, in order.
pub open spec fn ids_of<V>(entries: Seq<(BlockId, V)>) -> Seq<BlockId> {
    entries.map_values(|e: (BlockId, V)| e.0)
}

/// A map from block ids to values, kept as a vector of entries with
/// distinct ids.
pub struct IdMap<V> {
    entries: Vec<(BlockId, V)>,
    model: Ghost<Map<BlockId, V>>,
}

impl<V> View for IdMap<V> {
    type V = Map<BlockId, V>;

    closed spec fn view(&self) -> Map<BlockId, V> {
        self.model@
    }
}

impl<V> IdMap<V> {
    /// The entries hold each id once, and exactly the pairs of the map.
    pub closed spec fn wf(&self) -> bool {
        &&& ids_of(self.entries@).no_duplicates()
        &&& self.model@.dom() == ids_of(self.entries@).to_set()
        &&& forall|i: int|
            0 <= i < self.entries@.len() ==> #[trigger] self.model@[self.entries@[i].0]
                == self.entries@[i].1
    }

    /// The ids in the order in which the entries are kept.
    pub closed spec fn spec_keys(&self) -> Seq<BlockId> {
        ids_of(self.entries@)
    }

    /// The kept ids are distinct and are exactly the keys of the map.
    pub proof fn lemma_keys(&self)
        requires
            self.wf(),
        ensures
            self.spec_keys().no_duplicates(),
            self.spec_keys().to_set() == self@.dom(),
            self.spec_keys().len() == self@.dom().len(),
            self@.dom().finite(),
    {
        self.spec_keys().unique_seq_to_set();
    }

    /// An empty map.
    pub fn new() -> (r: IdMap<V>)
        ensures
            r.wf(),
            r@ == Map::<BlockId, V>::empty(),
    {
        let r = IdMap { entries: Vec::new(), model: Ghost(Map::empty()) };
        assert(ids_of(r.entries@).to_set() =~= Set::empty());
        r
    }

    /// The number of entries.
    pub fn len(&self) -> (r: usize)
        requires
            self.wf(),
        ensures
            r == self@.dom().len(),
            self@.dom().finite(),
    {
        proof {
            self.lemma_keys();
        }
        self.entries.len()
    }

    /// The position of `id` among the entries, if it is there.
    fn find(&self, id: &BlockId) -> (r: Option<usize>)
        requires
            self.wf(),
        ensures
            r is None ==> !self@.contains_key(*id),
            r matches Some(i) ==> i < self.entries@.len() && self.entries@[i as int].0 == *id,
    {
        let mut i: usize = 0;
        while i < self.entries.len()
            invariant
                self.wf(),
                i <= self.entries@.len(),
                forall|j: int| 0 <= j < i ==> self.entries@[j].0 != *id,
            decreases self.entries@.len() - i,
        {
            if self.entries[i].0 == *id {
                return Some(i);
            }
            i = i + 1;
        }
        assert(!ids_of(self.entries@).contains(*id));
        None
    }

    /// Whether `id` has an entry.
    pub fn contains(&self, id: &BlockId) -> (r: bool)
        requires
            self.wf(),
        ensures
            r == self@.contains_key(*id),
    {
        match self.find(id) {
            Some(i) => {
                assert(ids_of(self.entries@)[i as int] == *id);
                true
            },
            None => false,
        }
    }

    /// The value kept for `id`, if any.
    pub fn get(&self, id: &BlockId) -> (r: Option<&V>)
        requires
            self.wf(),
        ensures
            r is None <==> !self@.contains_key(*id),
            r matches Some(v) ==> self@.contains_key(*id) && *v == self@[*id],
    {
        match self.find(id) {
            Some(i) => {
                assert(ids_of(self.entries@)[i as int] == *id);
                Some(&self.entries[i].1)
            },
            None => None,
        }
    }

    /// Sets the value of `id`, replacing any earlier one.
    pub fn insert(&mut self, id: BlockId, value: V)
        requires
            old(self).wf(),
        ensures
            final(self).wf(),
            final(self)@ == old(self)@.insert(id, value),
    {
        match self.find(&id) {
            Some(i) => {
                let ghost before = self.entries@;
                self.entries.set(i, (id, value));
                self.model = Ghost(self.model@.insert(id, value));
                assert(ids_of(self.entries@) =~= ids_of(before));
                assert forall|j: int| 0 <= j < self.entries@.len() implies #[trigger] self.model@[
                    self.entries@[j].0
                ] == self.entries@[j].1 by {
                    if j != i {
                        assert(ids_of(before)[j] != ids_of(before)[i as int]);
                    }
                }
                assert(self.model@.dom() =~= ids_of(self.entries@).to_set()) by {
                    assert(ids_of(before)[i as int] == id);
                }
            },
            None => {
                let ghost before = self.entries@;
                self.entries.push((id, value));
                self.model = Ghost(self.model@.insert(id, value));
                assert(ids_of(self.entries@) =~= ids_of(before).push(id));
                assert(!ids_of(before).contains(id));
                assert forall|j: int| 0 <= j < self.entries@.len() implies #[trigger] self.model@[
                    self.entries@[j].0
                ] == self.entries@[j].1 by {
                    if j < before.len() {
                        assert(ids_of(before)[j] == before[j].0);
                    }
                }
                assert(self.model@.dom() =~= ids_of(self.entries@).to_set()) by {
                    assert forall|k: BlockId| #[trigger]
                        ids_of(self.entries@).contains(k) implies self.model@.dom().contains(k) by {
                        let j = choose|j: int|
                            0 <= j < ids_of(self.entries@).len() && ids_of(self.entries@)[j] == k;
                        if j < before.len() {
                            assert(ids_of(before)[j] == k);
                        }
                    }
                    assert forall|k: BlockId| #[trigger]
                        self.model@.dom().contains(k) implies ids_of(self.entries@).contains(k) by {
                        if k != id {
                            let j = choose|j: int|
                                0 <= j < ids_of(before).len() && ids_of(before)[j] == k;
                            assert(ids_of(self.entries@)[j] == k);
                        } else {
                            assert(ids_of(self.entries@)[before.len() as int] == k);
                        }
                    }
                }
            },
        }
    }

    /// Takes the entry of `id` out, returning its value.
    pub fn remove(&mut self, id: &BlockId) -> (r: Option<V>)
        requires
            old(self).wf(),
        ensures
            final(self).wf(),
            final(self)@ == old(self)@.remove(*id),
            r is None <==> !old(self)@.contains_key(*id),
            r matches Some(v) ==> v == old(self)@[*id],
    {
        match self.find(id) {
            Some(i) => {
                let ghost before = self.entries@;
                let ghost keys = ids_of(before);
                let e = self.entries.remove(i);
                self.model = Ghost(self.model@.remove(*id));
                assert(ids_of(self.entries@) =~= keys.remove(i as int));
                assert(keys[i as int] == *id);
                assert forall|j: int| 0 <= j < self.entries@.len() implies #[trigger] self.model@[
                    self.entries@[j].0
                ] == self.entries@[j].1 by {
                    if j < i {
                        assert(keys[j] != keys[i as int]);
                    } else {
                        assert(keys[j + 1] != keys[i as int]);
                        assert(self.entries@[j] == before[j + 1]);
                    }
                }
                assert(ids_of(self.entries@).no_duplicates()) by {
                    assert forall|a: int, b: int|
                        0 <= a < b < ids_of(self.entries@).len() implies ids_of(self.entries@)[a]
                        != ids_of(self.entries@)[b] by {
                        let a0 = if a < i { a } else { a + 1 };
                        let b0 = if b < i { b } else { b + 1 };
                        assert(ids_of(self.entries@)[a] == keys[a0]);
                        assert(ids_of(self.entries@)[b] == keys[b0]);
                    }
                }
                assert(self.model@.dom() =~= ids_of(self.entries@).to_set()) by {
                    assert forall|k: BlockId| #[trigger]
                        ids_of(self.entries@).contains(k) implies self.model@.dom().contains(k) by {
                        let j = choose|j: int|
                            0 <= j < ids_of(self.entries@).len() && ids_of(self.entries@)[j] == k;
                        let j0 = if j < i { j } else { j + 1 };
                        assert(keys[j0] == k);
                        assert(keys.contains(k));
                    }
                    assert forall|k: BlockId| #[trigger]
                        self.model@.dom().contains(k) implies ids_of(self.entries@).contains(k) by {
                        let j = choose|j: int| 0 <= j < keys.len() && keys[j] == k;
                        assert(j != i);
                        if j < i {
                            assert(ids_of(self.entries@)[j] == k);
                        } else {
                            assert(ids_of(self.entries@)[j - 1] == k);
                        }
                    }
                }
                assert(e.1 == old(self)@[*id]) by {
                    assert(before[i as int].1 == old(self).model@[before[i as int].0]);
                }
                Some(e.1)
            },
            None => {
                assert(self.model@.remove(*id) =~= self.model@);
                None
            },
        }
    }

    /// The ids that have entries, each once.
    pub fn keys(&self) -> (r: Vec<BlockId>)
        requires
            self.wf(),
        ensures
            r@ == self.spec_keys(),
            r@.no_duplicates(),
            r@.to_set() == self@.dom(),
    {
        proof {
            self.lemma_keys();
        }
        let mut r: Vec<BlockId> = Vec::new();
        let mut i: usize = 0;
        while i < self.entries.len()
            invariant
                self.wf(),
                i <= self.entries@.len(),
                r@ == ids_of(self.entries@).subrange(0, i as int),
            decreases self.entries@.len() - i,
        {
            r.push(self.entries[i].0);
            i = i + 1;
            assert(r@ =~= ids_of(self.entries@).subrange(0, i as int));
        }
        assert(r@ =~= ids_of(self.entries@));
        r
    }
}

} // verus!
