use vstd::prelude::*;

use crate::listing::{same_id, HashVector};

verus! {

/// What `m` files under `k`, or the empty sequence where it has no entry.
pub open spec fn ids_or_empty<K>(m: Map<K, Seq<[u8; 32]>>, k: K) -> Seq<[u8; 32]> {
    if m.contains_key(k) {
        m[k]
    } else {
        Seq::empty()
    }
}

/// One account's entry.
struct OwnerEntry {
    key: [u8; 32],
    ids: HashVector,
}

impl OwnerEntry {
    spec fn key_view(&self) -> [u8; 32] {
        self.key
    }
}

/// The owner index: for each account, the identifiers of its listings,
/// oldest first.
pub struct OwnerIndex {
    entries: Vec<OwnerEntry>,
    model: Ghost<Map<[u8; 32], Seq<[u8; 32]>>>,
}

impl View for OwnerIndex {
    type V = Map<[u8; 32], Seq<[u8; 32]>>;

    closed spec fn view(&self) -> Map<[u8; 32], Seq<[u8; 32]>> {
        self.model@
    }
}

impl OwnerIndex {
    /// Each key has at most one entry.
    pub closed spec fn wf(&self) -> bool {
        &&& forall|i: int|
            0 <= i < self.entries.len() ==> {
                &&& #[trigger] self.model@.contains_key(self.entries[i].key_view())
                &&& self.model@[self.entries[i].key_view()] == self.entries[i].ids@
            }
        &&& forall|k: [u8; 32]|
            #[trigger] self.model@.contains_key(k) ==> exists|i: int|
                0 <= i < self.entries.len() && self.entries[i].key_view() == k
        &&& forall|i: int, j: int|
            0 <= i < self.entries.len() && 0 <= j < self.entries.len() && i != j
                ==> self.entries[i].key_view() != self.entries[j].key_view()
    }

    pub fn new() -> (r: Self)
        ensures
            r.wf(),
            r@ == Map::<[u8; 32], Seq<[u8; 32]>>::empty(),
    {
        OwnerIndex { entries: Vec::new(), model: Ghost(Map::empty()) }
    }

    fn find(&self, k: &[u8; 32]) -> (r: Option<usize>)
        requires
            self.wf(),
        ensures
            match r {
                Some(i) => i < self.entries.len() && self.entries[i as int].key_view() == *k,
                None => !self@.contains_key(*k),
            },
    {
        let mut i: usize = 0;
        while i < self.entries.len()
            invariant
                i <= self.entries.len(),
                forall|j: int| 0 <= j < i ==> self.entries[j].key_view() != *k,
            decreases self.entries.len() - i,
        {
            if same_id(&self.entries[i].key, k) {
                return Some(i);
            }
            i = i + 1;
        }
        None
    }

    /// The identifiers filed under `k`; empty where there is no entry.
    pub fn get(&self, k: &[u8; 32]) -> (r: &[[u8; 32]])
        requires
            self.wf(),
        ensures
            r@ == ids_or_empty(self@, *k),
    {
        match self.find(k) {
            Some(i) => {
                assert(self.model@.contains_key(self.entries[i as int].key_view()));
                self.entries[i].ids.hashvector.as_slice()
            },
            None => &[],
        }
    }

    /// Files `ids` under `k`, replacing any entry there.
    pub fn put(&mut self, k: [u8; 32], ids: HashVector)
        requires
            old(self).wf(),
        ensures
            final(self).wf(),
            final(self)@ == old(self)@.insert(k, ids@),
    {
        let ghost key = k;
        let ghost v = ids@;
        match self.find(&k) {
            Some(i) => {
                self.entries.set(i, OwnerEntry { key: k, ids });
                self.model = Ghost(self.model@.insert(key, v));
                proof {
                    self.lemma_after_insert(&*old(self), key, i as int);
                }
            },
            None => {
                self.entries.push(OwnerEntry { key: k, ids });
                self.model = Ghost(self.model@.insert(key, v));
                proof {
                    self.lemma_after_insert(&*old(self), key, old(self).entries.len() as int);
                }
            },
        }
    }

    proof fn lemma_after_insert(&self, o: &Self, key: [u8; 32], at: int)
        requires
            0 <= at < self.entries.len(),
            self.entries.len() == o.entries@.len() || (self.entries.len() == o.entries@.len() + 1 && at == o.entries@.len() && !o.model@.contains_key(key)),
            at < o.entries@.len() ==> o.entries@[at].key_view() == key,
            forall|m: int| 0 <= m < self.entries.len() && m != at ==> self.entries[m] == o.entries@[m],
            self.entries[at].key_view() == key,
            self.model@ == o.model@.insert(key, self.entries[at].ids@),
            o.wf(),
        ensures
            self.wf(),
    {
        assert forall|m: int| 0 <= m < self.entries.len() implies {
            &&& #[trigger] self.model@.contains_key(self.entries[m].key_view())
            &&& self.model@[self.entries[m].key_view()] == self.entries[m].ids@
        } by {
            if m != at {
                assert(o.model@.contains_key(o.entries[m].key_view()));
            }
        }
        assert forall|k: [u8; 32]| #[trigger] self.model@.contains_key(k) implies exists|j: int|
            0 <= j < self.entries.len() && self.entries[j].key_view() == k by {
            if k != key {
                let j = choose|j: int| 0 <= j < o.entries.len() && o.entries[j].key_view() == k;
                assert(self.entries[j].key_view() == k);
            } else {
                assert(self.entries[at].key_view() == k);
            }
        }
        assert forall|a: int, b: int|
            0 <= a < self.entries.len() && 0 <= b < self.entries.len() && a != b
                implies self.entries[a].key_view() != self.entries[b].key_view() by {
            if a != at && b != at {
                assert(o.entries[a].key_view() != o.entries[b].key_view());
            } else if a == at {
                if at == o.entries@.len() {
                    assert(o.model@.contains_key(o.entries[b].key_view()));
                }
            } else {
                if at == o.entries@.len() {
                    assert(o.model@.contains_key(o.entries[a].key_view()));
                }
            }
        }
    }
}

} // verus!
