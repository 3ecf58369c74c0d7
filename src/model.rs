use vstd::prelude::*;

use crate::listing::{Error, Listing, ListingView};
use crate::owners::ids_or_empty;
use crate::pairs::{admitted, is_highest, highest_index, member_prices, PAIR_CAPACITY};

verus! {

/// A trading pair: the offered asset's label, then the requested asset's.
pub type PairKey = (Seq<u8>, Seq<u8>);

/// Longest asset label.
pub const MAX_COIN_LEN: usize = 12;

/// Longest negotiation-method descriptor.
pub const MAX_METHOD_LEN: usize = 600;

/// Longest country descriptor.
pub const MAX_COUNTRY_LEN: usize = 40;

/// Longest city descriptor.
pub const MAX_CITY_LEN: usize = 60;

/// Most listings an owner keeps when the oldest gives way to a new one.
pub const EVICT_BOUND: usize = 290;

/// Most listings an owner may hold when new ones are refused past it.
pub const REJECT_BOUND: usize = 490;

/// Most trading pairs tracked at once.
pub const RECENT_PAIRS_BOUND: usize = 58;

/// What happens when an owner at the bound creates one more listing.
#[derive(Debug, Clone, Copy, PartialEq, Eq, Structural)]
pub enum OwnerPolicy {
    /// The owner's oldest listing is dropped everywhere to make room.
    EvictOldest,
    /// The new listing is refused with `TooManyListings`.
    Reject,
}

/// The bound that `p` puts on one owner's listings.
pub open spec fn owner_bound(p: OwnerPolicy) -> nat {
    match p {
        OwnerPolicy::EvictOldest => EVICT_BOUND as nat,
        OwnerPolicy::Reject => REJECT_BOUND as nat,
    }
}

/// `s` with every occurrence of `x` filtered out.
pub open spec fn without(s: Seq<[u8; 32]>, x: [u8; 32]) -> Seq<[u8; 32]> {
    s.filter(|y: [u8; 32]| y != x)
}

/// An owner's identifiers: within `bound`, no repeats, each a record of `a`.
pub open spec fn owned_ids_ok(
    table: Map<[u8; 32], ListingView>,
    ids: Seq<[u8; 32]>,
    bound: nat,
    a: [u8; 32],
) -> bool {
    &&& ids.len() <= bound
    &&& ids.no_duplicates()
    &&& forall|i: int|
        #![trigger ids[i]]
        0 <= i < ids.len() ==> table.contains_key(ids[i]) && table[ids[i]].seller == a
}

/// A pair's identifiers: within capacity, no repeats, each a record on `p`.
pub open spec fn paired_ids_ok(
    table: Map<[u8; 32], ListingView>,
    ids: Seq<[u8; 32]>,
    p: PairKey,
) -> bool {
    &&& ids.len() <= PAIR_CAPACITY
    &&& ids.no_duplicates()
    &&& forall|i: int|
        #![trigger ids[i]]
        0 <= i < ids.len() ==> table.contains_key(ids[i]) && table[ids[i]].pair == p
}

/// The whole board as mathematical values.
pub struct StoreModel {
    /// Every record, by identifier.
    pub table: Map<[u8; 32], ListingView>,
    /// Each owner's identifiers, oldest first.
    pub owners: Map<[u8; 32], Seq<[u8; 32]>>,
    /// Each pair's competing identifiers.
    pub pairs: Map<PairKey, Seq<[u8; 32]>>,
    /// The tracked pairs, oldest first.
    pub queue: Seq<PairKey>,
    pub policy: OwnerPolicy,
}

/// The labels of a create or an update fit their limits.
pub open spec fn details_fit(method: Seq<u8>, country: Seq<u8>, city: Seq<u8>) -> bool {
    &&& method.len() <= MAX_METHOD_LEN
    &&& country.len() <= MAX_COUNTRY_LEN
    &&& city.len() <= MAX_CITY_LEN
}

/// The labels of a create fit their limits.
pub open spec fn fields_fit(
    offer: Seq<u8>,
    ask: Seq<u8>,
    method: Seq<u8>,
    country: Seq<u8>,
    city: Seq<u8>,
) -> bool {
    &&& offer.len() <= MAX_COIN_LEN
    &&& ask.len() <= MAX_COIN_LEN
    &&& details_fit(method, country, city)
}

/// The record that a create files: visible, its pair made of the two labels.
pub open spec fn new_record(
    id: [u8; 32],
    seller: [u8; 32],
    offer: Seq<u8>,
    ask: Seq<u8>,
    price: u128,
    method: Seq<u8>,
    inventory: u128,
    country: Seq<u8>,
    city: Seq<u8>,
) -> ListingView {
    ListingView {
        listing_id: id,
        seller,
        offer_coin: offer,
        asking_coin: ask,
        pair: (offer, ask),
        price,
        method,
        inventory,
        country,
        city,
        hide: false,
    }
}

/// A record with its changeable fields replaced; identity, owner and pair kept.
pub open spec fn revised_record(
    r: ListingView,
    price: u128,
    method: Seq<u8>,
    inventory: u128,
    country: Seq<u8>,
    city: Seq<u8>,
    hide: bool,
) -> ListingView {
    ListingView { price, method, inventory, country, city, hide, ..r }
}

impl StoreModel {
    /// How many listings `a` holds.
    pub open spec fn owner_count(self, a: [u8; 32]) -> nat {
        ids_or_empty(self.owners, a).len()
    }

    /// `a` holds at least one listing.
    pub open spec fn has_listing(self, a: [u8; 32]) -> bool {
        self.owner_count(a) > 0
    }

    pub open spec fn owner_entry_ok(self, a: [u8; 32]) -> bool {
        owned_ids_ok(self.table, self.owners[a], owner_bound(self.policy), a)
    }

    pub open spec fn pair_entry_ok(self, p: PairKey) -> bool {
        paired_ids_ok(self.table, self.pairs[p], p)
    }

    /// The invariant of the board: each record sits under its own identifier
    /// and carries its own labels as its pair; every identifier in an index
    /// resolves to a record of that owner or pair; no index repeats an
    /// identifier or exceeds its bound; the pair queue repeats no pair.
    pub open spec fn consistent(self) -> bool {
        &&& forall|k: [u8; 32]|
            #[trigger] self.table.contains_key(k) ==> self.table[k].listing_id == k
                && self.table[k].pair == (self.table[k].offer_coin, self.table[k].asking_coin)
        &&& forall|a: [u8; 32]| #[trigger] self.owners.contains_key(a) ==> self.owner_entry_ok(a)
        &&& forall|p: PairKey| #[trigger] self.pairs.contains_key(p) ==> self.pair_entry_ok(p)
        &&& self.queue.no_duplicates()
        &&& self.queue.len() <= RECENT_PAIRS_BOUND
    }

    /// Drops `a`'s oldest listing: from `a`'s identifiers, from the table, and
    /// from its pair's competitors.
    pub open spec fn evict_oldest(self, a: [u8; 32]) -> StoreModel {
        let oldest = self.owners[a][0];
        let pair = self.table[oldest].pair;
        StoreModel {
            table: self.table.remove(oldest),
            owners: self.owners.insert(a, self.owners[a].drop_first()),
            pairs: self.pairs.insert(
                pair,
                without(ids_or_empty(self.pairs, pair), oldest),
            ),
            ..self
        }
    }

    /// Makes room for one more listing of `a` where the policy evicts.
    pub open spec fn make_room(self, a: [u8; 32]) -> StoreModel {
        if self.policy == OwnerPolicy::EvictOldest && self.owner_count(a) >= EVICT_BOUND {
            self.evict_oldest(a)
        } else {
            self
        }
    }

    /// Stores `r` and appends its identifier to its owner's.
    pub open spec fn file_record(self, r: ListingView) -> StoreModel {
        StoreModel {
            table: self.table.insert(r.listing_id, r),
            owners: self.owners.insert(r.seller, ids_or_empty(self.owners, r.seller).push(r.listing_id)),
            ..self
        }
    }

    /// Tracks `p`; a full queue first lets go of its oldest pair, whose
    /// competitors are all dropped.
    pub open spec fn track_pair(self, p: PairKey) -> StoreModel {
        if self.queue.contains(p) {
            self
        } else if self.queue.len() >= RECENT_PAIRS_BOUND {
            StoreModel {
                queue: self.queue.drop_first().push(p),
                pairs: self.pairs.remove(self.queue[0]),
                ..self
            }
        } else {
            StoreModel { queue: self.queue.push(p), ..self }
        }
    }

    /// `id` at `price` competes for a place on `p`; `None` where it is refused.
    pub open spec fn enter_pair(self, p: PairKey, id: [u8; 32], price: u128) -> Option<StoreModel> {
        match admitted(ids_or_empty(self.pairs, p), id, price, self.table) {
            Some(s) => Some(StoreModel { pairs: self.pairs.insert(p, s), ..self }),
            None => None,
        }
    }

    /// Why a create is refused before anything changes, if it is.
    pub open spec fn create_refusal(
        self,
        caller: [u8; 32],
        offer: Seq<u8>,
        ask: Seq<u8>,
        method: Seq<u8>,
        country: Seq<u8>,
        city: Seq<u8>,
        id: [u8; 32],
    ) -> Option<Error> {
        if !fields_fit(offer, ask, method, country, city) {
            Some(Error::DataTooLarge)
        } else if self.policy == OwnerPolicy::Reject && self.owner_count(caller) >= REJECT_BOUND {
            Some(Error::TooManyListings)
        } else if self.table.contains_key(id) {
            Some(Error::GenericError)
        } else {
            None
        }
    }

    /// The board once a create of `r` got past its checks, before `r` competes
    /// for a place on its pair.
    pub open spec fn filed(self, r: ListingView) -> StoreModel {
        self.make_room(r.seller).file_record(r).track_pair(r.pair)
    }

    /// Why an update of `id` by `caller` is refused before anything changes,
    /// if it is.
    pub open spec fn update_refusal(
        self,
        caller: [u8; 32],
        id: [u8; 32],
        method: Seq<u8>,
        country: Seq<u8>,
        city: Seq<u8>,
    ) -> Option<Error> {
        if !ids_or_empty(self.owners, caller).contains(id) {
            Some(Error::GenericError)
        } else if !details_fit(method, country, city) {
            Some(Error::DataTooLarge)
        } else {
            None
        }
    }

    /// Stores `r` over the record with its identifier.
    pub open spec fn revise(self, r: ListingView) -> StoreModel {
        StoreModel { table: self.table.insert(r.listing_id, r), ..self }
    }
}

/// What a pair's index holds after an admission: no more than its capacity,
/// no repeats, and nothing but earlier members and the newcomer.
pub proof fn lemma_admitted_sound(
    members: Seq<[u8; 32]>,
    id: [u8; 32],
    price: u128,
    t: Map<[u8; 32], ListingView>,
)
    requires
        members.no_duplicates(),
        members.len() <= PAIR_CAPACITY,
    ensures
        admitted(members, id, price, t) matches Some(s) ==> {
            &&& s.len() <= PAIR_CAPACITY
            &&& s.no_duplicates()
            &&& forall|i: int| 0 <= i < s.len() ==> s[i] == id || members.contains(#[trigger] s[i])
        },
{
    if !members.contains(id) && members.len() >= PAIR_CAPACITY {
        let prices = member_prices(members, t);
        let h = highest_index(prices);
        if price <= prices[h] {
            lemma_highest_exists(prices);
            let s = members.remove(h).push(id);
            assert forall|i: int| 0 <= i < s.len() implies s[i] == id || members.contains(#[trigger] s[i]) by {
                if i < h {
                    assert(s[i] == members[i]);
                } else if i < s.len() - 1 {
                    assert(s[i] == members[i + 1]);
                }
            }
            assert forall|i: int, j: int| 0 <= i < s.len() && 0 <= j < s.len() && i != j implies s[i] != s[j] by {
                let oi = if i < h { i } else { i + 1 };
                let oj = if j < h { j } else { j + 1 };
                if i < s.len() - 1 && j < s.len() - 1 {
                    assert(s[i] == members[oi]);
                    assert(s[j] == members[oj]);
                } else if i < s.len() - 1 {
                    assert(s[i] == members[oi]);
                } else {
                    assert(s[j] == members[oj]);
                }
            }
        }
    } else if !members.contains(id) {
        let s = members.push(id);
        assert forall|i: int| 0 <= i < s.len() implies s[i] == id || members.contains(#[trigger] s[i]) by {
            if i < members.len() {
                assert(s[i] == members[i]);
            }
        }
        assert forall|i: int, j: int| 0 <= i < s.len() && 0 <= j < s.len() && i != j implies s[i] != s[j] by {
            if i < members.len() && j < members.len() {
            } else if i < members.len() {
                assert(members.contains(s[i]));
            } else {
                assert(members.contains(s[j]));
            }
        }
    }
}

/// A non-empty sequence of prices has a first highest one.
pub proof fn lemma_highest_exists(prices: Seq<u128>)
    requires
        prices.len() > 0,
    ensures
        is_highest(prices, highest_index(prices)),
    decreases prices.len(),
{
    if prices.len() == 1 {
        assert(is_highest(prices, 0));
    } else {
        let front = prices.drop_last();
        lemma_highest_exists(front);
        let h = highest_index(front);
        assert(forall|j: int| 0 <= j < front.len() ==> front[j] == prices[j]);
        if prices.last() > front[h] {
            assert(is_highest(prices, prices.len() - 1));
        } else {
            assert(is_highest(prices, h));
        }
    }
}

impl StoreModel {
    /// Evicting an owner's oldest listing keeps the board consistent and
    /// shortens that owner's identifiers by one.
    pub proof fn lemma_evict_consistent(self, a: [u8; 32])
        requires
            self.consistent(),
            self.owner_count(a) > 0,
        ensures
            self.evict_oldest(a).consistent(),
            self.evict_oldest(a).owner_count(a) == self.owner_count(a) - 1,
            self.evict_oldest(a).policy == self.policy,
    {
        let n = self.evict_oldest(a);
        assert(self.owners.contains_key(a));
        let ids = self.owners[a];
        let oldest = ids[0];
        assert(self.owner_entry_ok(a));
        assert(self.table.contains_key(ids[0]));
        let pair = self.table[oldest].pair;
        let pred = |x: [u8; 32]| x != oldest;
        assert forall|b: [u8; 32]| #[trigger] n.owners.contains_key(b) implies n.owner_entry_ok(b) by {
            assert(self.owner_entry_ok(b));
            if b == a {
                let rest = ids.drop_first();
                assert forall|i: int| 0 <= i < rest.len() implies #[trigger] n.table.contains_key(rest[i])
                    && n.table[rest[i]].seller == b by {
                    assert(rest[i] == ids[i + 1]);
                    assert(self.table.contains_key(ids[i + 1]));
                }
            } else {
                let bs = self.owners[b];
                assert forall|i: int| 0 <= i < bs.len() implies #[trigger] n.table.contains_key(bs[i])
                    && n.table[bs[i]].seller == b by {
                    assert(self.table.contains_key(bs[i]));
                }
            }
        }
        assert forall|p: PairKey| #[trigger] n.pairs.contains_key(p) implies n.pair_entry_ok(p) by {
            if p == pair {
                let old_ids = ids_or_empty(self.pairs, pair);
                if self.pairs.contains_key(pair) {
                    assert(self.pair_entry_ok(pair));
                }
                lemma_filter_keeps(old_ids, oldest);
                let f = n.pairs[p];
                assert(f == without(old_ids, oldest));
                assert(f.len() <= PAIR_CAPACITY);
                assert(f.no_duplicates());
                assert forall|i: int| 0 <= i < f.len() implies #[trigger] n.table.contains_key(f[i])
                    && n.table[f[i]].pair == p by {
                    let x = f[i];
                    assert(f.contains(x));
                    assert(old_ids.contains(x));
                    assert(x != oldest);
                    let j = choose|j: int| 0 <= j < old_ids.len() && old_ids[j] == x;
                    assert(self.table.contains_key(old_ids[j]));
                }
            } else {
                assert(self.pair_entry_ok(p));
                let ps = self.pairs[p];
                assert forall|i: int| 0 <= i < ps.len() implies #[trigger] n.table.contains_key(ps[i])
                    && n.table[ps[i]].pair == p by {
                    assert(self.table.contains_key(ps[i]));
                    assert(ps[i] != oldest);
                }
            }
        }
    }

    /// Filing a fresh record under an owner below the bound keeps the board
    /// consistent.
    pub proof fn lemma_file_consistent(self, r: ListingView)
        requires
            self.consistent(),
            !self.table.contains_key(r.listing_id),
            r.pair == (r.offer_coin, r.asking_coin),
            self.owner_count(r.seller) < owner_bound(self.policy),
        ensures
            self.file_record(r).consistent(),
    {
        let n = self.file_record(r);
        assert forall|b: [u8; 32]| #[trigger] n.owners.contains_key(b) implies n.owner_entry_ok(b) by {
            if b == r.seller {
                let old_ids = ids_or_empty(self.owners, b);
                if self.owners.contains_key(b) {
                    assert(self.owner_entry_ok(b));
                }
                let s = n.owners[b];
                assert forall|i: int| 0 <= i < s.len() implies #[trigger] n.table.contains_key(s[i])
                    && n.table[s[i]].seller == b by {
                    if i < old_ids.len() {
                        assert(s[i] == old_ids[i]);
                        assert(self.table.contains_key(old_ids[i]));
                    }
                }
                assert forall|i: int, j: int| 0 <= i < s.len() && 0 <= j < s.len() && i != j implies s[i] != s[j] by {
                    if i < old_ids.len() {
                        assert(self.table.contains_key(old_ids[i]));
                    }
                    if j < old_ids.len() {
                        assert(self.table.contains_key(old_ids[j]));
                    }
                }
            } else {
                assert(self.owner_entry_ok(b));
                let bs = n.owners[b];
                assert(self.owners[b] == bs);
                assert(bs.len() <= owner_bound(n.policy));
                assert(bs.no_duplicates());
                assert forall|i: int| 0 <= i < bs.len() implies #[trigger] n.table.contains_key(bs[i])
                    && n.table[bs[i]].seller == b by {
                    assert(self.table.contains_key(bs[i]));
                }
            }
        }
        assert forall|p: PairKey| #[trigger] n.pairs.contains_key(p) implies n.pair_entry_ok(p) by {
            assert(self.pair_entry_ok(p));
            let ps = self.pairs[p];
            assert forall|i: int| 0 <= i < ps.len() implies #[trigger] n.table.contains_key(ps[i])
                && n.table[ps[i]].pair == p by {
                assert(self.table.contains_key(ps[i]));
            }
        }
    }

    /// Tracking a pair keeps the board consistent.
    pub proof fn lemma_track_consistent(self, p: PairKey)
        requires
            self.consistent(),
        ensures
            self.track_pair(p).consistent(),
    {
        let n = self.track_pair(p);
        if !self.queue.contains(p) {
            let q = n.queue;
            let base = if self.queue.len() >= RECENT_PAIRS_BOUND { self.queue.drop_first() } else { self.queue };
            assert(q == base.push(p));
            assert forall|i: int, j: int| 0 <= i < q.len() && 0 <= j < q.len() && i != j implies q[i] != q[j] by {
                if self.queue.len() >= RECENT_PAIRS_BOUND {
                    if i < base.len() {
                        assert(q[i] == self.queue[i + 1]);
                        assert(self.queue.contains(q[i]));
                    }
                    if j < base.len() {
                        assert(q[j] == self.queue[j + 1]);
                        assert(self.queue.contains(q[j]));
                    }
                } else {
                    if i < base.len() {
                        assert(q[i] == self.queue[i]);
                        assert(self.queue.contains(q[i]));
                    }
                    if j < base.len() {
                        assert(q[j] == self.queue[j]);
                        assert(self.queue.contains(q[j]));
                    }
                }
            }
            assert forall|k: PairKey| #[trigger] n.pairs.contains_key(k) implies n.pair_entry_ok(k) by {
                assert(self.pair_entry_ok(k));
            }
            assert(n.owners == self.owners && n.table == self.table && n.policy == self.policy);
            assert forall|b: [u8; 32]| #[trigger] n.owners.contains_key(b) implies n.owner_entry_ok(b) by {
                assert(self.owner_entry_ok(b));
                let bs = n.owners[b];
                assert(self.owners[b] == bs);
                assert(bs.len() <= owner_bound(n.policy));
                assert(bs.no_duplicates());
                assert forall|i: int| 0 <= i < bs.len() implies #[trigger] n.table.contains_key(bs[i])
                    && n.table[bs[i]].seller == b by {
                    assert(self.table.contains_key(bs[i]));
                }
            }
        }
    }

    /// A record already filed under `p` competing for a place on `p` keeps the
    /// board consistent when it is admitted.
    pub proof fn lemma_enter_consistent(self, p: PairKey, id: [u8; 32], price: u128)
        requires
            self.consistent(),
            self.table.contains_key(id),
            self.table[id].pair == p,
        ensures
            self.enter_pair(p, id, price) matches Some(n) ==> n.consistent(),
    {
        let members = ids_or_empty(self.pairs, p);
        if self.pairs.contains_key(p) {
            assert(self.pair_entry_ok(p));
        }
        lemma_admitted_sound(members, id, price, self.table);
        if let Some(s) = admitted(members, id, price, self.table) {
            let n = StoreModel { pairs: self.pairs.insert(p, s), ..self };
            assert(self.enter_pair(p, id, price) == Some(n));
            assert forall|k: PairKey| #[trigger] n.pairs.contains_key(k) implies n.pair_entry_ok(k) by {
                if k == p {
                    assert(n.pairs[k] == s);
                    assert(s.len() <= PAIR_CAPACITY);
                    assert(s.no_duplicates());
                    assert forall|i: int| 0 <= i < s.len() implies #[trigger] n.table.contains_key(s[i])
                        && n.table[s[i]].pair == k by {
                        if s[i] != id {
                            assert(members.contains(s[i]));
                            let j = choose|j: int| 0 <= j < members.len() && members[j] == s[i];
                            assert(self.table.contains_key(members[j]));
                        }
                    }
                    assert(paired_ids_ok(n.table, s, k));
                } else {
                    assert(self.pair_entry_ok(k));
                    assert(n.pairs[k] == self.pairs[k]);
                    let ps = n.pairs[k];
                    assert(self.pairs[k] == ps);
                    assert(ps.len() <= PAIR_CAPACITY);
                    assert(ps.no_duplicates());
                    assert forall|i: int| 0 <= i < ps.len() implies #[trigger] n.table.contains_key(ps[i])
                        && n.table[ps[i]].pair == k by {
                        assert(self.table.contains_key(ps[i]));
                    }
                }
            }
            assert(n.owners == self.owners && n.table == self.table && n.policy == self.policy);
            assert forall|b: [u8; 32]| #[trigger] n.owners.contains_key(b) implies n.owner_entry_ok(b) by {
                assert(self.owner_entry_ok(b));
                let bs = n.owners[b];
                assert(self.owners[b] == bs);
                assert(bs.len() <= owner_bound(n.policy));
                assert(bs.no_duplicates());
                assert forall|i: int| 0 <= i < bs.len() implies #[trigger] n.table.contains_key(bs[i])
                    && n.table[bs[i]].seller == b by {
                    assert(self.table.contains_key(bs[i]));
                }
            }
        }
    }

    /// Storing a revision of a record that keeps its identity, owner and pair
    /// keeps the board consistent.
    pub proof fn lemma_revise_consistent(self, r: ListingView)
        requires
            self.consistent(),
            self.table.contains_key(r.listing_id),
            self.table[r.listing_id].seller == r.seller,
            self.table[r.listing_id].pair == r.pair,
            r.pair == (r.offer_coin, r.asking_coin),
        ensures
            self.revise(r).consistent(),
    {
        let n = self.revise(r);
        assert forall|b: [u8; 32]| #[trigger] n.owners.contains_key(b) implies n.owner_entry_ok(b) by {
            assert(self.owner_entry_ok(b));
            let bs = self.owners[b];
            assert forall|i: int| 0 <= i < bs.len() implies #[trigger] n.table.contains_key(bs[i])
                && n.table[bs[i]].seller == b by {
                assert(self.table.contains_key(bs[i]));
            }
        }
        assert forall|p: PairKey| #[trigger] n.pairs.contains_key(p) implies n.pair_entry_ok(p) by {
            assert(self.pair_entry_ok(p));
            let ps = self.pairs[p];
            assert forall|i: int| 0 <= i < ps.len() implies #[trigger] n.table.contains_key(ps[i])
                && n.table[ps[i]].pair == p by {
                assert(self.table.contains_key(ps[i]));
            }
        }
    }
}

/// Filtering one identifier out keeps the rest: no repeats, no new members,
/// no longer than before, and without that identifier.
pub proof fn lemma_filter_keeps(s: Seq<[u8; 32]>, x: [u8; 32])
    requires
        s.no_duplicates(),
    ensures
        without(s, x).no_duplicates(),
        without(s, x).len() <= s.len(),
        !without(s, x).contains(x),
        forall|y: [u8; 32]| without(s, x).contains(y) ==> #[trigger] s.contains(y),
    decreases s.len(),
{
    broadcast use vstd::seq_lib::group_filter_ensures;
    reveal(Seq::filter);
    let pred = |y: [u8; 32]| y != x;
    if s.len() > 0 {
        let front = s.drop_last();
        assert(front.no_duplicates()) by {
            assert forall|i: int, j: int| 0 <= i < front.len() && 0 <= j < front.len() && i != j implies front[i] != front[j] by {
                assert(front[i] == s[i] && front[j] == s[j]);
            }
        }
        lemma_filter_keeps(front, x);
        let ff = without(front, x);
        assert(without(s, x) == if pred(s.last()) { ff.push(s.last()) } else { ff });
        assert forall|y: [u8; 32]| ff.contains(y) implies #[trigger] s.contains(y) by {
            assert(front.contains(y));
            let j = choose|j: int| 0 <= j < front.len() && front[j] == y;
            assert(s[j] == y);
        }
        if pred(s.last()) {
            let f = ff.push(s.last());
            assert(!ff.contains(s.last())) by {
                if ff.contains(s.last()) {
                    assert(front.contains(s.last()));
                    let j = choose|j: int| 0 <= j < front.len() && front[j] == s.last();
                    assert(s[j] == s[s.len() - 1]);
                }
            }
            assert forall|i: int, j: int| 0 <= i < f.len() && 0 <= j < f.len() && i != j implies f[i] != f[j] by {
                if i < ff.len() && j < ff.len() {
                } else if i < ff.len() {
                    assert(ff.contains(f[i]));
                } else {
                    assert(ff.contains(f[j]));
                }
            }
            assert forall|y: [u8; 32]| f.contains(y) implies #[trigger] s.contains(y) by {
                let j = choose|j: int| 0 <= j < f.len() && f[j] == y;
                if j < ff.len() {
                    assert(ff.contains(y));
                } else {
                    assert(s[s.len() - 1] == y);
                }
            }
        }
    }
}

/// A result whose record is seen as its mathematical value.
pub open spec fn result_view(r: Result<Listing, Error>) -> Result<ListingView, Error> {
    match r {
        Ok(l) => Ok(l@),
        Err(e) => Err(e),
    }
}

impl StoreModel {
    /// A create by `caller` with identifier `id` turns this board into `after`
    /// and answers `r`: a refusal changes nothing; otherwise the record is
    /// filed (after room is made for it and its pair tracked) and then
    /// competes on its pair, where a refusal leaves it filed.
    pub open spec fn created(
        self,
        after: StoreModel,
        r: Result<ListingView, Error>,
        caller: [u8; 32],
        offer: Seq<u8>,
        ask: Seq<u8>,
        price: u128,
        method: Seq<u8>,
        inventory: u128,
        country: Seq<u8>,
        city: Seq<u8>,
        id: [u8; 32],
    ) -> bool {
        match self.create_refusal(caller, offer, ask, method, country, city, id) {
            Some(e) => after == self && r == Err::<ListingView, Error>(e),
            None => {
                let rec = new_record(id, caller, offer, ask, price, method, inventory, country, city);
                let filed = self.filed(rec);
                match filed.enter_pair(rec.pair, id, price) {
                    Some(m) => after == m && r == Ok::<ListingView, Error>(rec),
                    None => after == filed && r == Err::<ListingView, Error>(Error::GenericError),
                }
            },
        }
    }

    /// An update of `id` by `caller` turns this board into `after` and
    /// answers `r`: a refusal changes nothing; otherwise the revised record is
    /// stored and, where it is not among its pair's competitors, competes
    /// again, where a refusal leaves the revision stored.
    pub open spec fn updated(
        self,
        after: StoreModel,
        r: Result<ListingView, Error>,
        caller: [u8; 32],
        id: [u8; 32],
        price: u128,
        method: Seq<u8>,
        inventory: u128,
        country: Seq<u8>,
        city: Seq<u8>,
        hide: bool,
    ) -> bool {
        match self.update_refusal(caller, id, method, country, city) {
            Some(e) => after == self && r == Err::<ListingView, Error>(e),
            None => {
                let rec = revised_record(self.table[id], price, method, inventory, country, city, hide);
                let revised = self.revise(rec);
                match revised.enter_pair(rec.pair, id, price) {
                    Some(m) => after == m && r == Ok::<ListingView, Error>(rec),
                    None => after == revised && r == Err::<ListingView, Error>(Error::GenericError),
                }
            },
        }
    }
}

} // verus!
