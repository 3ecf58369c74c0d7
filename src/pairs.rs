use vstd::prelude::*;

use crate::listing::{same_bytes, same_id, HashVector, ListingView};
use crate::owners::ids_or_empty;
use crate::table::{price_or_zero, ListingTable};

verus! {

/// Whether two trading pairs hold the same labels.
pub fn same_pair(a: &(Vec<u8>, Vec<u8>), b: &(Vec<u8>, Vec<u8>)) -> (r: bool)
    ensures
        r == (a.0@ == b.0@ && a.1@ == b.1@),
{
    same_bytes(&a.0, &b.0) && same_bytes(&a.1, &b.1)
}

/// How many listings compete for visibility on one trading pair.
pub const PAIR_CAPACITY: usize = 5;

/// `h` is where the first of the highest prices stands.
pub open spec fn is_highest(prices: Seq<u128>, h: int) -> bool {
    &&& 0 <= h < prices.len()
    &&& forall|j: int| 0 <= j < prices.len() ==> prices[j] <= prices[h]
    &&& forall|j: int| 0 <= j < h ==> prices[j] < prices[h]
}

/// The position of the first of the highest prices.
pub open spec fn highest_index(prices: Seq<u128>) -> int {
    choose|h: int| is_highest(prices, h)
}

/// The stored price of each member, in order.
pub open spec fn member_prices(members: Seq<[u8; 32]>, t: Map<[u8; 32], ListingView>) -> Seq<u128> {
    Seq::new(members.len(), |i: int| price_or_zero(t, members[i]))
}

/// The members of a pair's index after `id` at `price` competes for a place:
/// a member stays as it is, a free place is taken, and in a full index the
/// first of the dearest members gives way unless `price` is dearer still
/// (`None`: the newcomer is refused).
pub open spec fn admitted(
    members: Seq<[u8; 32]>,
    id: [u8; 32],
    price: u128,
    t: Map<[u8; 32], ListingView>,
) -> Option<Seq<[u8; 32]>> {
    if members.contains(id) {
        Some(members)
    } else if members.len() < PAIR_CAPACITY {
        Some(members.push(id))
    } else {
        let prices = member_prices(members, t);
        let h = highest_index(prices);
        if price > prices[h] {
            None
        } else {
            Some(members.remove(h).push(id))
        }
    }
}

/// Only one position holds the first of the highest prices.
pub proof fn lemma_highest_unique(prices: Seq<u128>, h: int)
    requires
        is_highest(prices, h),
    ensures
        highest_index(prices) == h,
{
    let c = highest_index(prices);
    assert(is_highest(prices, c));
    if c < h {
        assert(prices[c] < prices[h]);
        assert(prices[h] <= prices[c]);
    } else if h < c {
        assert(prices[h] < prices[c]);
        assert(prices[c] <= prices[h]);
    }
}

pub(crate) fn contains_id(members: &[[u8; 32]], id: &[u8; 32]) -> (r: bool)
    ensures
        r == members@.contains(*id),
{
    let mut i: usize = 0;
    while i < members.len()
        invariant
            i <= members.len(),
            forall|j: int| 0 <= j < i ==> members@[j] != *id,
        decreases members.len() - i,
    {
        if same_id(&members[i], id) {
            assert(members@[i as int] == *id);
            return true;
        }
        i = i + 1;
    }
    false
}

/// The members with the one at `skip` left out, and `id` appended.
fn replaced(members: &[[u8; 32]], skip: usize, id: [u8; 32]) -> (r: HashVector)
    requires
        skip <= members.len(),
    ensures
        skip < members.len() ==> r@ == members@.remove(skip as int).push(id),
        skip == members.len() ==> r@ == members@.push(id),
{
    let mut v: Vec<[u8; 32]> = Vec::new();
    let mut i: usize = 0;
    while i < members.len()
        invariant
            i <= members.len(),
            skip <= members.len(),
            i <= skip ==> v@ == members@.subrange(0, i as int),
            i > skip ==> v@ == members@.subrange(0, skip as int) + members@.subrange(skip + 1, i as int),
        decreases members.len() - i,
    {
        if i != skip {
            v.push(members[i]);
        }
        i = i + 1;
    }
    proof {
        if skip < members.len() {
            assert(v@ =~= members@.remove(skip as int));
        } else {
            assert(v@ =~= members@);
        }
    }
    v.push(id);
    HashVector { hashvector: v }
}

/// Lets `id` at `price` compete for a place among `members`, reading each
/// member's price from `table`; `None` where it is refused.
pub fn compete(members: &[[u8; 32]], id: &[u8; 32], price: u128, table: &ListingTable) -> (r: Option<
    HashVector,
>)
    requires
        table.wf(),
    ensures
        match r {
            Some(v) => admitted(members@, *id, price, table@) == Some(v@),
            None => admitted(members@, *id, price, table@) is None,
        },
{
    if contains_id(members, id) {
        let mut w: Vec<[u8; 32]> = Vec::new();
        let mut i: usize = 0;
        while i < members.len()
            invariant
                i <= members.len(),
                w@ == members@.subrange(0, i as int),
            decreases members.len() - i,
        {
            w.push(members[i]);
            i = i + 1;
        }
        assert(w@ =~= members@);
        return Some(HashVector { hashvector: w });
    }
    if members.len() < PAIR_CAPACITY {
        return Some(replaced(members, members.len(), *id));
    }
    let ghost prices = member_prices(members@, table@);
    let mut highest_bid: u128 = table.price_of(&members[0]);
    let mut highest: usize = 0;
    let mut i: usize = 1;
    while i < members.len()
        invariant
            table.wf(),
            prices == member_prices(members@, table@),
            1 <= i <= members.len(),
            is_highest(prices.subrange(0, i as int), highest as int),
            highest_bid == prices[highest as int],
        decreases members.len() - i,
    {
        let bid = table.price_of(&members[i]);
        if bid > highest_bid {
            highest_bid = bid;
            highest = i;
        }
        i = i + 1;
        assert(is_highest(prices.subrange(0, i as int), highest as int));
    }
    proof {
        assert(prices.subrange(0, members@.len() as int) =~= prices);
        lemma_highest_unique(prices, highest as int);
    }
    if price > highest_bid {
        None
    } else {
        Some(replaced(members, highest, *id))
    }
}

/// One trading pair's entry.
struct PairEntry {
    key: (Vec<u8>, Vec<u8>),
    ids: HashVector,
}

impl PairEntry {
    spec fn key_view(&self) -> (Seq<u8>, Seq<u8>) {
        (self.key.0@, self.key.1@)
    }
}

/// The pair index: for each trading pair, the identifiers of the listings
/// that compete on it.
pub struct PairIndex {
    entries: Vec<PairEntry>,
    model: Ghost<Map<(Seq<u8>, Seq<u8>), Seq<[u8; 32]>>>,
}

impl View for PairIndex {
    type V = Map<(Seq<u8>, Seq<u8>), Seq<[u8; 32]>>;

    closed spec fn view(&self) -> Map<(Seq<u8>, Seq<u8>), Seq<[u8; 32]>> {
        self.model@
    }
}

impl PairIndex {
    /// Each key has at most one entry.
    pub closed spec fn wf(&self) -> bool {
        &&& forall|i: int|
            0 <= i < self.entries.len() ==> {
                &&& #[trigger] self.model@.contains_key(self.entries[i].key_view())
                &&& self.model@[self.entries[i].key_view()] == self.entries[i].ids@
            }
        &&& forall|k: (Seq<u8>, Seq<u8>)|
            #[trigger] self.model@.contains_key(k) ==> exists|i: int|
                0 <= i < self.entries.len() && self.entries[i].key_view() == k
        &&& forall|i: int, j: int|
            0 <= i < self.entries.len() && 0 <= j < self.entries.len() && i != j
                ==> self.entries[i].key_view() != self.entries[j].key_view()
    }

    pub fn new() -> (r: Self)
        ensures
            r.wf(),
            r@ == Map::<(Seq<u8>, Seq<u8>), Seq<[u8; 32]>>::empty(),
    {
        PairIndex { entries: Vec::new(), model: Ghost(Map::empty()) }
    }

    fn find(&self, k: &(Vec<u8>, Vec<u8>)) -> (r: Option<usize>)
        requires
            self.wf(),
        ensures
            match r {
                Some(i) => i < self.entries.len() && self.entries[i as int].key_view() == (k.0@, k.1@),
                None => !self@.contains_key((k.0@, k.1@)),
            },
    {
        let mut i: usize = 0;
        while i < self.entries.len()
            invariant
                i <= self.entries.len(),
                forall|j: int| 0 <= j < i ==> self.entries[j].key_view() != (k.0@, k.1@),
            decreases self.entries.len() - i,
        {
            if same_pair(&self.entries[i].key, k) {
                return Some(i);
            }
            i = i + 1;
        }
        None
    }

    /// The identifiers filed under `k`; empty where there is no entry.
    pub fn get(&self, k: &(Vec<u8>, Vec<u8>)) -> (r: &[[u8; 32]])
        requires
            self.wf(),
        ensures
            r@ == ids_or_empty(self@, (k.0@, k.1@)),
    {
        match self.find(k) {
            Some(i) => {
                assert(self.model@.contains_key(self.entries[i as int].key_view()));
                self.entries[i].ids.hashvector.as_slice()
            },
            None => &[],
        }
    }

    /// Files `ids` under `k`, replacing any entry there.
    pub fn put(&mut self, k: (Vec<u8>, Vec<u8>), ids: HashVector)
        requires
            old(self).wf(),
        ensures
            final(self).wf(),
            final(self)@ == old(self)@.insert((k.0@, k.1@), ids@),
    {
        let ghost key = (k.0@, k.1@);
        let ghost v = ids@;
        match self.find(&k) {
            Some(i) => {
                self.entries.set(i, PairEntry { key: k, ids });
                self.model = Ghost(self.model@.insert(key, v));
                proof {
                    self.lemma_after_insert(&*old(self), key, i as int);
                }
            },
            None => {
                self.entries.push(PairEntry { key: k, ids });
                self.model = Ghost(self.model@.insert(key, v));
                proof {
                    self.lemma_after_insert(&*old(self), key, old(self).entries.len() as int);
                }
            },
        }
    }

    proof fn lemma_after_insert(&self, o: &Self, key: (Seq<u8>, Seq<u8>), at: int)
        requires
            0 <= at < self.entries.len(),
            self.entries.len() == o.entries@.len() || (self.entries.len() == o.entries@.len() + 1 && at == o.entries@.len() && !o.model@.contains_key(key)),
            at < o.entries@.len() ==> o.entries@[at].key_view() == key,
            forall|m: int| 0 <= m < self.entries.len() && m != at ==> self.entries[m] == o.entries@[m],
            self.entries[at].key_view() == key,
            self.model@ == o.model@.insert(key, self.entries[at].ids@),
            o.wf(),
        ensures
            self.wf(),
    {
        assert forall|m: int| 0 <= m < self.entries.len() implies {
            &&& #[trigger] self.model@.contains_key(self.entries[m].key_view())
            &&& self.model@[self.entries[m].key_view()] == self.entries[m].ids@
        } by {
            if m != at {
                assert(o.model@.contains_key(o.entries[m].key_view()));
            }
        }
        assert forall|k: (Seq<u8>, Seq<u8>)| #[trigger] self.model@.contains_key(k) implies exists|j: int|
            0 <= j < self.entries.len() && self.entries[j].key_view() == k by {
            if k != key {
                let j = choose|j: int| 0 <= j < o.entries.len() && o.entries[j].key_view() == k;
                assert(self.entries[j].key_view() == k);
            } else {
                assert(self.entries[at].key_view() == k);
            }
        }
        assert forall|a: int, b: int|
            0 <= a < self.entries.len() && 0 <= b < self.entries.len() && a != b
                implies self.entries[a].key_view() != self.entries[b].key_view() by {
            if a != at && b != at {
                assert(o.entries[a].key_view() != o.entries[b].key_view());
            } else if a == at {
                if at == o.entries@.len() {
                    assert(o.model@.contains_key(o.entries[b].key_view()));
                }
            } else {
                if at == o.entries@.len() {
                    assert(o.model@.contains_key(o.entries[a].key_view()));
                }
            }
        }
    }

    /// Drops the entry filed under `k`, if any.
    pub fn remove(&mut self, k: &(Vec<u8>, Vec<u8>))
        requires
            old(self).wf(),
        ensures
            final(self).wf(),
            final(self)@ == old(self)@.remove((k.0@, k.1@)),
    {
        match self.find(k) {
            Some(i) => {
                let ghost old_entries = self.entries@;
                let ghost key = (k.0@, k.1@);
                self.entries.remove(i);
                self.model = Ghost(self.model@.remove(key));
                assert forall|m: int| 0 <= m < self.entries.len() implies {
                    &&& #[trigger] self.model@.contains_key(self.entries[m].key_view())
                    &&& self.model@[self.entries[m].key_view()] == self.entries[m].ids@
                } by {
                    let om = if m < i { m } else { m + 1 };
                    assert(self.entries[m] == old_entries[om]);
                    assert(old_entries[om].key_view() != old_entries[i as int].key_view());
                    assert(old(self).model@.contains_key(old_entries[om].key_view()));
                }
                assert forall|k2: (Seq<u8>, Seq<u8>)| #[trigger] self.model@.contains_key(k2) implies exists|j: int|
                    0 <= j < self.entries.len() && self.entries[j].key_view() == k2 by {
                    let j = choose|j: int| 0 <= j < old_entries.len() && old_entries[j].key_view() == k2;
                    if j < i {
                        assert(self.entries[j].key_view() == k2);
                    } else {
                        assert(self.entries[j - 1].key_view() == k2);
                    }
                }
                assert forall|a: int, b: int|
                    0 <= a < self.entries.len() && 0 <= b < self.entries.len() && a != b
                        implies self.entries[a].key_view() != self.entries[b].key_view() by {
                    let oa = if a < i { a } else { a + 1 };
                    let ob = if b < i { b } else { b + 1 };
                    assert(self.entries[a] == old_entries[oa]);
                    assert(self.entries[b] == old_entries[ob]);
                }
            },
            None => {
                assert(self.model@.remove((k.0@, k.1@)) =~= self.model@);
            },
        }
    }
}

} // verus!
