use vstd::prelude::*;

use crate::listing::{Error, ListingView};
use crate::model::{
    fields_fit, lemma_highest_exists, new_record, owner_bound, OwnerPolicy,
    PairKey, StoreModel, EVICT_BOUND,
};
use crate::owners::ids_or_empty;
use crate::pairs::{admitted, highest_index, member_prices, PAIR_CAPACITY};
use crate::table::price_or_zero;

verus! {

/// No owner holds more listings than the policy's bound, and no pair has
/// more competitors than its capacity.
pub proof fn lemma_index_bounds(m: StoreModel, a: [u8; 32], p: PairKey)
    requires
        m.consistent(),
    ensures
        m.owner_count(a) <= owner_bound(m.policy),
        ids_or_empty(m.pairs, p).len() <= PAIR_CAPACITY,
{
    if m.owners.contains_key(a) {
        assert(m.owner_entry_ok(a));
    }
    if m.pairs.contains_key(p) {
        assert(m.pair_entry_ok(p));
    }
}

/// A successful create returns, and stores, a record whose pair is the two
/// labels exactly as given; its owner then holds a listing.
pub proof fn lemma_create_pair_and_owner(
    m: StoreModel,
    after: StoreModel,
    r: Result<ListingView, Error>,
    caller: [u8; 32],
    offer: Seq<u8>,
    ask: Seq<u8>,
    price: u128,
    method: Seq<u8>,
    inventory: u128,
    country: Seq<u8>,
    city: Seq<u8>,
    id: [u8; 32],
)
    requires
        m.consistent(),
        m.created(after, r, caller, offer, ask, price, method, inventory, country, city, id),
        r is Ok,
    ensures
        r->Ok_0.pair == (offer, ask),
        r->Ok_0.listing_id == id,
        after.table.contains_key(id),
        after.table[id].pair == (offer, ask),
        after.has_listing(caller),
{
    let rec = new_record(id, caller, offer, ask, price, method, inventory, country, city);
    let filed = m.filed(rec);
    let roomy = m.make_room(caller);
    assert(filed.owners == roomy.file_record(rec).owners);
    assert(ids_or_empty(filed.owners, caller).len() > 0);
}

/// A create leaves every other owner's listings as they were.
pub proof fn lemma_other_owners_kept(
    m: StoreModel,
    after: StoreModel,
    r: Result<ListingView, Error>,
    caller: [u8; 32],
    offer: Seq<u8>,
    ask: Seq<u8>,
    price: u128,
    method: Seq<u8>,
    inventory: u128,
    country: Seq<u8>,
    city: Seq<u8>,
    id: [u8; 32],
    other: [u8; 32],
)
    requires
        m.created(after, r, caller, offer, ask, price, method, inventory, country, city, id),
        other != caller,
    ensures
        ids_or_empty(after.owners, other) == ids_or_empty(m.owners, other),
{
}

/// An update changes no owner's listings.
pub proof fn lemma_update_keeps_owners(
    m: StoreModel,
    after: StoreModel,
    r: Result<ListingView, Error>,
    caller: [u8; 32],
    id: [u8; 32],
    price: u128,
    method: Seq<u8>,
    inventory: u128,
    country: Seq<u8>,
    city: Seq<u8>,
    hide: bool,
)
    requires
        m.updated(after, r, caller, id, price, method, inventory, country, city, hide),
    ensures
        after.owners == m.owners,
{
}

/// An update keeps the record's identifier, owner, labels and pair.
pub proof fn lemma_update_keeps_pair(
    m: StoreModel,
    after: StoreModel,
    r: Result<ListingView, Error>,
    caller: [u8; 32],
    id: [u8; 32],
    price: u128,
    method: Seq<u8>,
    inventory: u128,
    country: Seq<u8>,
    city: Seq<u8>,
    hide: bool,
)
    requires
        m.consistent(),
        m.table.contains_key(id),
        m.updated(after, r, caller, id, price, method, inventory, country, city, hide),
    ensures
        after.table.contains_key(id),
        after.table[id].listing_id == m.table[id].listing_id,
        after.table[id].seller == m.table[id].seller,
        after.table[id].offer_coin == m.table[id].offer_coin,
        after.table[id].asking_coin == m.table[id].asking_coin,
        after.table[id].pair == m.table[id].pair,
{
}

/// An update of a listing that is already among its pair's competitors
/// leaves every pair's competitors as they were.
pub proof fn lemma_update_member_keeps_pairs(
    m: StoreModel,
    after: StoreModel,
    r: Result<ListingView, Error>,
    caller: [u8; 32],
    id: [u8; 32],
    price: u128,
    method: Seq<u8>,
    inventory: u128,
    country: Seq<u8>,
    city: Seq<u8>,
    hide: bool,
)
    requires
        m.table.contains_key(id),
        ids_or_empty(m.pairs, m.table[id].pair).contains(id),
        m.updated(after, r, caller, id, price, method, inventory, country, city, hide),
    ensures
        after.pairs == m.pairs,
{
    let p = m.table[id].pair;
    let members = ids_or_empty(m.pairs, p);
    if m.update_refusal(caller, id, method, country, city) is None {
        assert(m.pairs.contains_key(p));
        assert(m.pairs.insert(p, members) =~= m.pairs);
    }
}

/// A competitor dearer than every member of a full pair index is refused.
pub proof fn lemma_dearer_refused(
    members: Seq<[u8; 32]>,
    id: [u8; 32],
    price: u128,
    t: Map<[u8; 32], ListingView>,
)
    requires
        members.len() == PAIR_CAPACITY,
        !members.contains(id),
        forall|i: int| 0 <= i < members.len() ==> price_or_zero(t, #[trigger] members[i]) < price,
    ensures
        admitted(members, id, price, t) is None,
{
    let prices = member_prices(members, t);
    lemma_highest_exists(prices);
    let h = highest_index(prices);
    assert(prices[h] == price_or_zero(t, members[h]));
}

/// A competitor priced exactly at the highest price of a full pair index
/// takes the place of the first member at that price.
pub proof fn lemma_equal_price_displaces(
    members: Seq<[u8; 32]>,
    id: [u8; 32],
    price: u128,
    t: Map<[u8; 32], ListingView>,
)
    requires
        members.len() == PAIR_CAPACITY,
        members.no_duplicates(),
        !members.contains(id),
        forall|i: int| 0 <= i < members.len() ==> price_or_zero(t, #[trigger] members[i]) <= price,
        exists|i: int| 0 <= i < members.len() && price_or_zero(t, #[trigger] members[i]) == price,
    ensures
        ({
            let h = highest_index(member_prices(members, t));
            &&& 0 <= h < members.len()
            &&& price_or_zero(t, members[h]) == price
            &&& admitted(members, id, price, t) == Some(members.remove(h).push(id))
            &&& !members.remove(h).push(id).contains(members[h])
            &&& members.remove(h).push(id).contains(id)
        }),
{
    let prices = member_prices(members, t);
    lemma_highest_exists(prices);
    let h = highest_index(prices);
    let i = choose|i: int| 0 <= i < members.len() && price_or_zero(t, #[trigger] members[i]) == price;
    assert(prices[i] == price);
    assert(prices[h] == price_or_zero(t, members[h]));
    let s = members.remove(h).push(id);
    assert(s[s.len() - 1] == id);
    if s.contains(members[h]) {
        let j = choose|j: int| 0 <= j < s.len() && s[j] == members[h];
        if j < h {
            assert(s[j] == members[j]);
        } else if j < s.len() - 1 {
            assert(s[j] == members[j + 1]);
        }
    }
}

/// Where the policy evicts, a create by an owner at the bound drops that
/// owner's oldest listing, first in first out: it is gone from the owner's
/// listings, which go on in order with the new one last, from the table and
/// from every pair's competitors, whatever the outcome of the competition.
pub proof fn lemma_evicts_oldest(
    m: StoreModel,
    after: StoreModel,
    r: Result<ListingView, Error>,
    caller: [u8; 32],
    offer: Seq<u8>,
    ask: Seq<u8>,
    price: u128,
    method: Seq<u8>,
    inventory: u128,
    country: Seq<u8>,
    city: Seq<u8>,
    id: [u8; 32],
)
    requires
        m.consistent(),
        m.policy == OwnerPolicy::EvictOldest,
        m.owner_count(caller) == EVICT_BOUND,
        fields_fit(offer, ask, method, country, city),
        !m.table.contains_key(id),
        m.created(after, r, caller, offer, ask, price, method, inventory, country, city, id),
    ensures
        after.consistent(),
        !ids_or_empty(after.owners, caller).contains(m.owners[caller][0]),
        ids_or_empty(after.owners, caller) == m.owners[caller].drop_first().push(id),
        !after.table.contains_key(m.owners[caller][0]),
        forall|p: PairKey| !(#[trigger] ids_or_empty(after.pairs, p)).contains(m.owners[caller][0]),
{
    let oldest = m.owners[caller][0];
    let rec = new_record(id, caller, offer, ask, price, method, inventory, country, city);
    m.lemma_evict_consistent(caller);
    let roomy = m.make_room(caller);
    assert(!roomy.table.contains_key(oldest));
    roomy.lemma_file_consistent(rec);
    let f1 = roomy.file_record(rec);
    f1.lemma_track_consistent(rec.pair);
    let filed = f1.track_pair(rec.pair);
    assert(filed == m.filed(rec));
    filed.lemma_enter_consistent(rec.pair, id, price);
    assert(after.consistent());
    assert(!after.table.contains_key(oldest));
    if ids_or_empty(after.owners, caller).contains(oldest) {
        let j = choose|j: int|
            0 <= j < ids_or_empty(after.owners, caller).len() && ids_or_empty(after.owners, caller)[j]
                == oldest;
        assert(after.owner_entry_ok(caller));
    }
    assert forall|p: PairKey| !(#[trigger] ids_or_empty(after.pairs, p)).contains(oldest) by {
        if ids_or_empty(after.pairs, p).contains(oldest) {
            let j = choose|j: int|
                0 <= j < ids_or_empty(after.pairs, p).len() && ids_or_empty(after.pairs, p)[j]
                    == oldest;
            assert(after.pair_entry_ok(p));
        }
    }
}

} // verus!
