use vstd::prelude::*;

use crate::listing::{same_id, Listing, ListingView};

verus! {

/// The price stored for `id`, or zero where no record has that identifier.
pub open spec fn price_or_zero(t: Map<[u8; 32], ListingView>, id: [u8; 32]) -> u128 {
    if t.contains_key(id) {
        t[id].price
    } else {
        0
    }
}

/// The single source of truth: every record, keyed by its identifier.
pub struct ListingTable {
    records: Vec<Listing>,
    model: Ghost<Map<[u8; 32], ListingView>>,
}

impl View for ListingTable {
    type V = Map<[u8; 32], ListingView>;

    closed spec fn view(&self) -> Map<[u8; 32], ListingView> {
        self.model@
    }
}

impl ListingTable {
    /// Each record is stored once, under its own identifier.
    pub closed spec fn wf(&self) -> bool {
        &&& forall|i: int|
            0 <= i < self.records.len() ==> {
                &&& #[trigger] self.model@.contains_key(self.records[i].listing_id)
                &&& self.model@[self.records[i].listing_id] == self.records[i]@
            }
        &&& forall|k: [u8; 32]|
            #[trigger] self.model@.contains_key(k) ==> exists|i: int|
                0 <= i < self.records.len() && self.records[i].listing_id == k
        &&& forall|i: int, j: int|
            0 <= i < self.records.len() && 0 <= j < self.records.len() && i != j
                ==> self.records[i].listing_id != self.records[j].listing_id
    }

    pub fn new() -> (r: Self)
        ensures
            r.wf(),
            r@ == Map::<[u8; 32], ListingView>::empty(),
    {
        ListingTable { records: Vec::new(), model: Ghost(Map::empty()) }
    }

    fn find(&self, id: &[u8; 32]) -> (r: Option<usize>)
        requires
            self.wf(),
        ensures
            match r {
                Some(i) => i < self.records.len() && self.records[i as int].listing_id == *id,
                None => !self@.contains_key(*id),
            },
    {
        let mut i: usize = 0;
        while i < self.records.len()
            invariant
                i <= self.records.len(),
                forall|j: int| 0 <= j < i ==> self.records[j].listing_id != *id,
            decreases self.records.len() - i,
        {
            if same_id(&self.records[i].listing_id, id) {
                return Some(i);
            }
            i = i + 1;
        }
        None
    }

    /// Whether a record is stored under `id`.
    pub fn contains(&self, id: &[u8; 32]) -> (r: bool)
        requires
            self.wf(),
        ensures
            r == self@.contains_key(*id),
    {
        match self.find(id) {
            Some(i) => {
                assert(self.model@.contains_key(self.records[i as int].listing_id));
                true
            },
            None => false,
        }
    }

    /// The record stored under `id`, if any.
    pub fn get(&self, id: &[u8; 32]) -> (r: Option<&Listing>)
        requires
            self.wf(),
        ensures
            match r {
                Some(l) => self@.contains_key(*id) && l@ == self@[*id],
                None => !self@.contains_key(*id),
            },
    {
        match self.find(id) {
            Some(i) => {
                assert(self.model@.contains_key(self.records[i as int].listing_id));
                Some(&self.records[i])
            },
            None => None,
        }
    }

    /// The price stored under `id`, zero where there is none.
    pub fn price_of(&self, id: &[u8; 32]) -> (r: u128)
        requires
            self.wf(),
        ensures
            r == price_or_zero(self@, *id),
    {
        match self.get(id) {
            Some(l) => l.price,
            None => 0,
        }
    }

    /// Stores `l` under its identifier, replacing any record stored there.
    pub fn put(&mut self, l: Listing)
        requires
            old(self).wf(),
        ensures
            final(self).wf(),
            final(self)@ == old(self)@.insert(l.listing_id, l@),
    {
        let ghost key = l.listing_id;
        let ghost lv = l@;
        match self.find(&l.listing_id) {
            Some(i) => {
                self.records.set(i, l);
                self.model = Ghost(self.model@.insert(key, lv));
                assert forall|m: int| 0 <= m < self.records.len() implies {
                    &&& #[trigger] self.model@.contains_key(self.records[m].listing_id)
                    &&& self.model@[self.records[m].listing_id] == self.records[m]@
                } by {
                    if m != i {
                        assert(old(self).model@.contains_key(old(self).records[m].listing_id));
                    }
                }
                assert forall|k: [u8; 32]| #[trigger] self.model@.contains_key(k) implies exists|
                    j: int,
                |
                    0 <= j < self.records.len() && self.records[j].listing_id == k by {
                    if k != key {
                        let j = choose|j: int|
                            0 <= j < old(self).records.len() && old(self).records[j].listing_id
                                == k;
                        assert(self.records[j].listing_id == k);
                    } else {
                        assert(self.records[i as int].listing_id == k);
                    }
                }
            },
            None => {
                self.records.push(l);
                self.model = Ghost(self.model@.insert(key, lv));
                assert forall|m: int| 0 <= m < self.records.len() implies {
                    &&& #[trigger] self.model@.contains_key(self.records[m].listing_id)
                    &&& self.model@[self.records[m].listing_id] == self.records[m]@
                } by {
                    if m != old(self).records.len() {
                        assert(old(self).model@.contains_key(old(self).records[m].listing_id));
                    }
                }
                assert forall|k: [u8; 32]| #[trigger] self.model@.contains_key(k) implies exists|
                    j: int,
                |
                    0 <= j < self.records.len() && self.records[j].listing_id == k by {
                    if k != key {
                        let j = choose|j: int|
                            0 <= j < old(self).records.len() && old(self).records[j].listing_id
                                == k;
                        assert(self.records[j].listing_id == k);
                    } else {
                        assert(self.records[self.records.len() - 1].listing_id == k);
                    }
                }
            },
        }
    }

    /// Drops the record stored under `id`, if any.
    pub fn remove(&mut self, id: &[u8; 32])
        requires
            old(self).wf(),
        ensures
            final(self).wf(),
            final(self)@ == old(self)@.remove(*id),
    {
        match self.find(id) {
            Some(i) => {
                let ghost old_records = self.records@;
                self.records.remove(i);
                self.model = Ghost(self.model@.remove(*id));
                assert forall|m: int| 0 <= m < self.records.len() implies {
                    &&& #[trigger] self.model@.contains_key(self.records[m].listing_id)
                    &&& self.model@[self.records[m].listing_id] == self.records[m]@
                } by {
                    let om = if m < i { m } else { m + 1 };
                    assert(self.records[m] == old_records[om]);
                    assert(old_records[om].listing_id != old_records[i as int].listing_id);
                    assert(old(self).model@.contains_key(old_records[om].listing_id));
                }
                assert forall|a: int, b: int|
                    0 <= a < self.records.len() && 0 <= b < self.records.len() && a != b
                        implies self.records[a].listing_id != self.records[b].listing_id by {
                    let oa = if a < i { a } else { a + 1 };
                    let ob = if b < i { b } else { b + 1 };
                    assert(self.records[a] == old_records[oa]);
                    assert(self.records[b] == old_records[ob]);
                }
                assert forall|k: [u8; 32]| #[trigger] self.model@.contains_key(k) implies exists|
                    j: int,
                |
                    0 <= j < self.records.len() && self.records[j].listing_id == k by {
                    let j = choose|j: int|
                        0 <= j < old_records.len() && old_records[j].listing_id == k;
                    if j < i {
                        assert(self.records[j].listing_id == k);
                    } else {
                        assert(self.records[j - 1].listing_id == k);
                    }
                }
            },
            None => {
                assert(self.model@.remove(*id) =~= self.model@);
            },
        }
    }
}

} // verus!
