use vstd::prelude::*;

use crate::digest::{listing_digest, listing_id_of};
use crate::listing::{copy_bytes, Error, HashVector, Listing, ListingView, ViewListings};
use crate::model::{
    new_record, owner_bound, result_view, without, OwnerPolicy, PairKey, StoreModel, EVICT_BOUND,
    MAX_CITY_LEN, MAX_COIN_LEN, MAX_COUNTRY_LEN, MAX_METHOD_LEN, RECENT_PAIRS_BOUND, REJECT_BOUND,
};
use crate::owners::{ids_or_empty, OwnerIndex};
use crate::pairs::{compete, contains_id, same_pair, PairIndex};
use crate::table::ListingTable;

verus! {

/// A pair of byte strings as mathematical values.
pub open spec fn pair_view(p: (Vec<u8>, Vec<u8>)) -> PairKey {
    (p.0@, p.1@)
}

/// Records seen as their mathematical values.
pub open spec fn listing_views(s: Seq<Listing>) -> Seq<ListingView> {
    s.map_values(|l: Listing| l@)
}

/// The visible records among `ids`, in order; identifiers without a record
/// are passed over.
pub open spec fn visible(ids: Seq<[u8; 32]>, t: Map<[u8; 32], ListingView>) -> Seq<ListingView>
    decreases ids.len(),
{
    if ids.len() == 0 {
        Seq::empty()
    } else {
        let rest = visible(ids.drop_last(), t);
        let id = ids.last();
        if t.contains_key(id) && !t[id].hide {
            rest.push(t[id])
        } else {
            rest
        }
    }
}

/// The visible competitors of each pair of `queue`, pair after pair.
pub open spec fn browse_pairs(queue: Seq<PairKey>, m: StoreModel) -> Seq<ListingView>
    decreases queue.len(),
{
    if queue.len() == 0 {
        Seq::empty()
    } else {
        browse_pairs(queue.drop_last(), m) + visible(ids_or_empty(m.pairs, queue.last()), m.table)
    }
}

/// The listing board: a table of records, an index by owner, a
/// price-competitive index by trading pair, and the queue of tracked pairs.
/// Everything is held in memory, so a write has no size limit beyond the
/// limits on the labels.
pub struct ContractStorage {
    account_listings: OwnerIndex,
    listing_details: ListingTable,
    pair_listing_map: PairIndex,
    recent_pairs: Vec<(Vec<u8>, Vec<u8>)>,
    policy: OwnerPolicy,
}

impl View for ContractStorage {
    type V = StoreModel;

    closed spec fn view(&self) -> StoreModel {
        StoreModel {
            table: self.listing_details@,
            owners: self.account_listings@,
            pairs: self.pair_listing_map@,
            queue: self.recent_pairs@.map_values(|p: (Vec<u8>, Vec<u8>)| pair_view(p)),
            policy: self.policy,
        }
    }
}

fn copy_pair(p: &(Vec<u8>, Vec<u8>)) -> (r: (Vec<u8>, Vec<u8>))
    ensures
        pair_view(r) == pair_view(*p),
{
    (copy_bytes(&p.0), copy_bytes(&p.1))
}

/// The identifiers of `ids` from position `from` on.
fn ids_from(ids: &[[u8; 32]], from: usize) -> (r: HashVector)
    requires
        from <= ids@.len(),
    ensures
        r@ == ids@.subrange(from as int, ids@.len() as int),
{
    let mut v: Vec<[u8; 32]> = Vec::new();
    let mut i: usize = from;
    while i < ids.len()
        invariant
            from <= i <= ids@.len(),
            v@ == ids@.subrange(from as int, i as int),
        decreases ids.len() - i,
    {
        v.push(ids[i]);
        i = i + 1;
        assert(v@ =~= ids@.subrange(from as int, i as int));
    }
    HashVector { hashvector: v }
}

/// The identifiers of `ids` other than `x`, in order.
fn ids_without(ids: &[[u8; 32]], x: &[u8; 32]) -> (r: HashVector)
    ensures
        r@ == without(ids@, *x),
{
    let mut v: Vec<[u8; 32]> = Vec::new();
    let mut i: usize = 0;
    while i < ids.len()
        invariant
            i <= ids@.len(),
            v@ == without(ids@.subrange(0, i as int), *x),
        decreases ids.len() - i,
    {
        proof {
            reveal(Seq::filter);
            assert(ids@.subrange(0, i + 1).drop_last() =~= ids@.subrange(0, i as int));
        }
        if !crate::listing::same_id(&ids[i], x) {
            v.push(ids[i]);
        }
        i = i + 1;
    }
    assert(ids@.subrange(0, ids@.len() as int) =~= ids@);
    HashVector { hashvector: v }
}

impl ContractStorage {
    /// The parts of the board are well formed and its model is consistent.
    pub closed spec fn wf(&self) -> bool {
        &&& self.account_listings.wf()
        &&& self.listing_details.wf()
        &&& self.pair_listing_map.wf()
        &&& self@.consistent()
    }

    closed spec fn parts_wf(&self) -> bool {
        &&& self.account_listings.wf()
        &&& self.listing_details.wf()
        &&& self.pair_listing_map.wf()
    }

    /// A well-formed board is consistent.
    pub proof fn lemma_wf_consistent(&self)
        requires
            self.wf(),
        ensures
            self@.consistent(),
    {
    }

    /// An empty board whose owners' oldest listings give way past the bound.
    pub fn new() -> (r: Self)
        ensures
            r.wf(),
            r@.table == Map::<[u8; 32], ListingView>::empty(),
            r@.owners == Map::<[u8; 32], Seq<[u8; 32]>>::empty(),
            r@.pairs == Map::<PairKey, Seq<[u8; 32]>>::empty(),
            r@.queue == Seq::<PairKey>::empty(),
            r@.policy == OwnerPolicy::EvictOldest,
    {
        Self::with_policy(OwnerPolicy::EvictOldest)
    }

    /// An empty board with the given owner policy.
    pub fn with_policy(policy: OwnerPolicy) -> (r: Self)
        ensures
            r.wf(),
            r@.table == Map::<[u8; 32], ListingView>::empty(),
            r@.owners == Map::<[u8; 32], Seq<[u8; 32]>>::empty(),
            r@.pairs == Map::<PairKey, Seq<[u8; 32]>>::empty(),
            r@.queue == Seq::<PairKey>::empty(),
            r@.policy == policy,
    {
        let r = ContractStorage {
            account_listings: OwnerIndex::new(),
            listing_details: ListingTable::new(),
            pair_listing_map: PairIndex::new(),
            recent_pairs: Vec::new(),
            policy,
        };
        assert(r@.queue =~= Seq::<PairKey>::empty());
        r
    }

    /// The owner policy of this board.
    pub fn policy(&self) -> (r: OwnerPolicy)
        ensures
            r == self@.policy,
    {
        self.policy
    }

    fn evict_oldest(&mut self, caller: &[u8; 32])
        requires
            old(self).wf(),
            old(self)@.owner_count(*caller) > 0,
        ensures
            final(self).parts_wf(),
            final(self)@ == old(self)@.evict_oldest(*caller),
    {
        let ghost m = self@;
        let ids = self.account_listings.get(caller);
        let oldest = ids[0];
        let rest = ids_from(ids, 1);
        proof {
            assert(m.owners.contains_key(*caller));
            assert(m.owner_entry_ok(*caller));
            assert(m.table.contains_key(ids@[0]));
            assert(rest@ =~= m.owners[*caller].drop_first());
        }
        let pair = match self.listing_details.get(&oldest) {
            Some(l) => copy_pair(&l.pair),
            None => (Vec::new(), Vec::new()),
        };
        self.account_listings.put(*caller, rest);
        self.listing_details.remove(&oldest);
        let kept = ids_without(self.pair_listing_map.get(&pair), &oldest);
        self.pair_listing_map.put(pair, kept);
        assert(self@ == m.evict_oldest(*caller));
    }

    fn file_record(&mut self, record: Listing)
        requires
            old(self).parts_wf(),
        ensures
            final(self).parts_wf(),
            final(self)@ == old(self)@.file_record(record@),
            final(self).recent_pairs == old(self).recent_pairs,
    {
        let ghost m = self@;
        let mut ids = ids_from(self.account_listings.get(&record.seller), 0);
        ids.hashvector.push(record.listing_id);
        proof {
            assert(ids@ =~= ids_or_empty(m.owners, record.seller).push(record.listing_id));
        }
        self.account_listings.put(record.seller, ids);
        self.listing_details.put(record);
        assert(self@ == m.file_record(record@));
    }

    fn is_tracked(&self, pair: &(Vec<u8>, Vec<u8>)) -> (r: bool)
        ensures
            r == self@.queue.contains(pair_view(*pair)),
    {
        let mut i: usize = 0;
        while i < self.recent_pairs.len()
            invariant
                i <= self.recent_pairs@.len(),
                forall|j: int| 0 <= j < i ==> self@.queue[j] != pair_view(*pair),
            decreases self.recent_pairs.len() - i,
        {
            if same_pair(&self.recent_pairs[i], pair) {
                assert(self@.queue[i as int] == pair_view(*pair));
                return true;
            }
            i = i + 1;
        }
        false
    }

    fn track_pair(&mut self, pair: &(Vec<u8>, Vec<u8>))
        requires
            old(self).parts_wf(),
        ensures
            final(self).parts_wf(),
            final(self)@ == old(self)@.track_pair(pair_view(*pair)),
    {
        let ghost m = self@;
        if self.is_tracked(pair) {
            return;
        }
        if self.recent_pairs.len() >= RECENT_PAIRS_BOUND {
            let oldest = self.recent_pairs.remove(0);
            self.pair_listing_map.remove(&oldest);
            assert(self@.queue =~= m.queue.drop_first());
        }
        let ghost before = self@.queue;
        self.recent_pairs.push(copy_pair(pair));
        assert(self@.queue =~= before.push(pair_view(*pair)));
        assert(self@ == m.track_pair(pair_view(*pair)));
    }

    fn enter_pair(&mut self, pair: &(Vec<u8>, Vec<u8>), id: &[u8; 32], price: u128) -> (r: Result<
        (),
        Error,
    >)
        requires
            old(self).parts_wf(),
        ensures
            final(self).parts_wf(),
            match old(self)@.enter_pair(pair_view(*pair), *id, price) {
                Some(m) => r is Ok && final(self)@ == m,
                None => r == Err::<(), Error>(Error::GenericError) && final(self)@ == old(self)@,
            },
    {
        let ghost m = self@;
        match compete(self.pair_listing_map.get(pair), id, price, &self.listing_details) {
            Some(members) => {
                self.pair_listing_map.put(copy_pair(pair), members);
                assert(self@ == m.enter_pair(pair_view(*pair), *id, price)->Some_0);
                Ok(())
            },
            None => Err(Error::GenericError),
        }
    }

    /// Files a new listing of `caller` created at time `now`, under the
    /// identifier digested from the creator, the pair and the time; the
    /// outcome is as for [`ContractStorage::new_listing_with_id`].
    pub fn new_listing(
        &mut self,
        caller: [u8; 32],
        offer_coin: Vec<u8>,
        asking_coin: Vec<u8>,
        price: u128,
        method: Vec<u8>,
        inventory: u128,
        country: Vec<u8>,
        city: Vec<u8>,
        now: u64,
    ) -> (r: Result<Listing, Error>)
        requires
            old(self).wf(),
        ensures
            final(self).wf(),
            old(self)@.created(
                final(self)@,
                result_view(r),
                caller,
                offer_coin@,
                asking_coin@,
                price,
                method@,
                inventory,
                country@,
                city@,
                listing_digest(caller, offer_coin@, asking_coin@, now),
            ),
    {
        let listing_id = listing_id_of(&caller, &offer_coin, &asking_coin, now);
        self.new_listing_with_id(
            caller,
            offer_coin,
            asking_coin,
            price,
            method,
            inventory,
            country,
            city,
            listing_id,
        )
    }

    /// Files a new listing of `caller` under the identifier `listing_id`.
    ///
    /// Labels over their limits are refused with `DataTooLarge`; an owner at
    /// the bound of a refusing policy with `TooManyListings`; an identifier
    /// already in use with `GenericError`. Otherwise, where the policy evicts
    /// and the owner is at the bound, the owner's oldest listing is dropped
    /// everywhere; the record is stored, appended to the owner's listings and
    /// its pair tracked; then it competes for a place on its pair. Where it is
    /// not cheap enough the answer is `GenericError` and the record stays
    /// filed. On success the stored record is returned.
    pub fn new_listing_with_id(
        &mut self,
        caller: [u8; 32],
        offer_coin: Vec<u8>,
        asking_coin: Vec<u8>,
        price: u128,
        method: Vec<u8>,
        inventory: u128,
        country: Vec<u8>,
        city: Vec<u8>,
        listing_id: [u8; 32],
    ) -> (r: Result<Listing, Error>)
        requires
            old(self).wf(),
        ensures
            final(self).wf(),
            old(self)@.created(
                final(self)@,
                result_view(r),
                caller,
                offer_coin@,
                asking_coin@,
                price,
                method@,
                inventory,
                country@,
                city@,
                listing_id,
            ),
    {
        if offer_coin.len() > MAX_COIN_LEN || asking_coin.len() > MAX_COIN_LEN || method.len()
            > MAX_METHOD_LEN || country.len() > MAX_COUNTRY_LEN || city.len() > MAX_CITY_LEN {
            return Err(Error::DataTooLarge);
        }
        let count = self.account_listings.get(&caller).len();
        if self.policy == OwnerPolicy::Reject && count >= REJECT_BOUND {
            return Err(Error::TooManyListings);
        }
        if self.listing_details.contains(&listing_id) {
            return Err(Error::GenericError);
        }
        let ghost m0 = self@;
        let ghost rec = new_record(
            listing_id,
            caller,
            offer_coin@,
            asking_coin@,
            price,
            method@,
            inventory,
            country@,
            city@,
        );
        if self.policy == OwnerPolicy::EvictOldest && count >= EVICT_BOUND {
            proof {
                m0.lemma_evict_consistent(caller);
            }
            self.evict_oldest(&caller);
        }
        let ghost m1 = self@;
        assert(m1 == m0.make_room(caller));
        let pair = (copy_bytes(&offer_coin), copy_bytes(&asking_coin));
        let record = Listing {
            listing_id,
            seller: caller,
            offer_coin,
            asking_coin,
            pair,
            price,
            method,
            inventory,
            country,
            city,
            hide: false,
        };
        assert(record@ == rec);
        let result = record.clone();
        let key = copy_pair(&result.pair);
        proof {
            m1.lemma_file_consistent(rec);
        }
        self.file_record(record);
        proof {
            self@.lemma_track_consistent(pair_view(key));
        }
        self.track_pair(&key);
        let ghost m2 = self@;
        assert(m2 == m0.filed(rec));
        proof {
            m2.lemma_enter_consistent(rec.pair, listing_id, price);
        }
        match self.enter_pair(&key, &listing_id, price) {
            Ok(()) => Ok(result),
            Err(e) => Err(e),
        }
    }

    /// Revises listing `listing_id` on behalf of `caller`.
    ///
    /// A listing that `caller` does not own is refused with `GenericError`,
    /// labels over their limits with `DataTooLarge`. Otherwise price,
    /// method, quantity, place and visibility are replaced while identifier,
    /// owner and pair are kept; where the listing is not among its pair's
    /// competitors it competes again, and a refusal there answers
    /// `GenericError` with the revision kept. On success the stored record is
    /// returned.
    pub fn edit_listing(
        &mut self,
        caller: [u8; 32],
        listing_id: [u8; 32],
        price: u128,
        method: Vec<u8>,
        inventory: u128,
        country: Vec<u8>,
        city: Vec<u8>,
        hide: bool,
    ) -> (r: Result<Listing, Error>)
        requires
            old(self).wf(),
        ensures
            final(self).wf(),
            old(self)@.updated(
                final(self)@,
                result_view(r),
                caller,
                listing_id,
                price,
                method@,
                inventory,
                country@,
                city@,
                hide,
            ),
    {
        if !contains_id(self.account_listings.get(&caller), &listing_id) {
            return Err(Error::GenericError);
        }
        if method.len() > MAX_METHOD_LEN || country.len() > MAX_COUNTRY_LEN || city.len()
            > MAX_CITY_LEN {
            return Err(Error::DataTooLarge);
        }
        let ghost m0 = self@;
        proof {
            assert(m0.owners.contains_key(caller));
            assert(m0.owner_entry_ok(caller));
            let j = choose|j: int|
                0 <= j < m0.owners[caller].len() && m0.owners[caller][j] == listing_id;
            assert(m0.table.contains_key(m0.owners[caller][j]));
        }
        let details = match self.listing_details.get(&listing_id) {
            Some(l) => l.clone(),
            None => {
                return Err(Error::GenericError);
            },
        };
        let update = Listing {
            listing_id,
            seller: caller,
            offer_coin: details.offer_coin,
            asking_coin: details.asking_coin,
            pair: details.pair,
            price,
            method,
            inventory,
            country,
            city,
            hide,
        };
        let ghost rec = update@;
        assert(rec == crate::model::revised_record(
            m0.table[listing_id],
            price,
            update.method@,
            inventory,
            update.country@,
            update.city@,
            hide,
        ));
        let result = update.clone();
        let key = copy_pair(&result.pair);
        proof {
            m0.lemma_revise_consistent(rec);
        }
        self.listing_details.put(update);
        let ghost m1 = self@;
        assert(m1 == m0.revise(rec));
        proof {
            m1.lemma_enter_consistent(rec.pair, listing_id, price);
        }
        match self.enter_pair(&key, &listing_id, price) {
            Ok(()) => Ok(result),
            Err(e) => Err(e),
        }
    }
    /// Every visible competitor of every tracked pair, pair by pair in the
    /// order the pairs were tracked; hidden records are left out.
    pub fn browse_all_listings(&self) -> (r: Vec<Listing>)
        requires
            self.wf(),
        ensures
            listing_views(r@) == browse_pairs(self@.queue, self@),
            forall|i: int| 0 <= i < r@.len() ==> !(#[trigger] r@[i]).hide,
    {
        let ghost m = self@;
        let mut results: Vec<Listing> = Vec::new();
        let mut i: usize = 0;
        while i < self.recent_pairs.len()
            invariant
                self.listing_details.wf(),
                self.pair_listing_map.wf(),
                m == self@,
                i <= self.recent_pairs@.len(),
                listing_views(results@) == browse_pairs(m.queue.subrange(0, i as int), m),
                forall|k: int| 0 <= k < results@.len() ==> !(#[trigger] results@[k]).hide,
            decreases self.recent_pairs.len() - i,
        {
            let ids = self.pair_listing_map.get(&self.recent_pairs[i]);
            let ghost base = listing_views(results@);
            let mut j: usize = 0;
            while j < ids.len()
                invariant
                    self.listing_details.wf(),
                    m == self@,
                    j <= ids@.len(),
                    listing_views(results@) == base + visible(ids@.subrange(0, j as int), m.table),
                    forall|k: int| 0 <= k < results@.len() ==> !(#[trigger] results@[k]).hide,
                decreases ids.len() - j,
            {
                proof {
                    assert(ids@.subrange(0, j + 1).drop_last() =~= ids@.subrange(0, j as int));
                }
                match self.listing_details.get(&ids[j]) {
                    Some(l) => {
                        if !l.hide {
                            let ghost before = results@;
                            results.push(l.clone());
                            assert(listing_views(results@) =~= listing_views(before).push(l@));
                        }
                    },
                    None => {},
                }
                j = j + 1;
            }
            proof {
                assert(ids@.subrange(0, ids@.len() as int) =~= ids@);
                assert(m.queue.subrange(0, i + 1).drop_last() =~= m.queue.subrange(0, i as int));
                assert(m.queue[i as int] == pair_view(self.recent_pairs@[i as int]));
            }
            i = i + 1;
        }
        assert(m.queue.subrange(0, m.queue.len() as int) =~= m.queue);
        results
    }

    /// Every listing of `caller`, oldest first, hidden ones included.
    pub fn view_my_listings(&self, caller: [u8; 32]) -> (r: ViewListings)
        requires
            self.wf(),
        ensures
            r.listings@.len() == self@.owner_count(caller),
            forall|i: int|
                0 <= i < r.listings@.len() ==> (#[trigger] r.listings@[i])@ == self@.table[ids_or_empty(
                    self@.owners,
                    caller,
                )[i]],
    {
        let ghost m = self@;
        let ids = self.account_listings.get(&caller);
        proof {
            if m.owners.contains_key(caller) {
                assert(m.owner_entry_ok(caller));
            }
        }
        let mut listings: Vec<Listing> = Vec::new();
        let mut i: usize = 0;
        while i < ids.len()
            invariant
                self.listing_details.wf(),
                m == self@,
                ids@ == ids_or_empty(m.owners, caller),
                forall|k: int| 0 <= k < ids@.len() ==> m.table.contains_key(#[trigger] ids@[k]),
                i <= ids@.len(),
                listings@.len() == i,
                forall|k: int| 0 <= k < i ==> (#[trigger] listings@[k])@ == m.table[ids@[k]],
            decreases ids.len() - i,
        {
            match self.listing_details.get(&ids[i]) {
                Some(l) => listings.push(l.clone()),
                None => listings.push(Listing::default()),
            }
            i = i + 1;
        }
        ViewListings { listings }
    }

    /// 1 where `account` holds at least one listing, 0 otherwise.
    pub fn verify_account(&self, account: [u8; 32]) -> (r: u8)
        requires
            self.wf(),
        ensures
            r == if self@.has_listing(account) { 1u8 } else { 0u8 },
    {
        if self.account_listings.get(&account).len() > 0 {
            1
        } else {
            0
        }
    }
    /// The record stored under `id`, if any.
    pub fn get_listing(&self, id: &[u8; 32]) -> (r: Option<Listing>)
        requires
            self.wf(),
        ensures
            match r {
                Some(l) => self@.table.contains_key(*id) && l@ == self@.table[*id],
                None => !self@.table.contains_key(*id),
            },
    {
        match self.listing_details.get(id) {
            Some(l) => Some(l.clone()),
            None => None,
        }
    }

    /// The identifiers that compete on `pair`.
    pub fn pair_members(&self, pair: &(Vec<u8>, Vec<u8>)) -> (r: Vec<[u8; 32]>)
        requires
            self.wf(),
        ensures
            r@ == ids_or_empty(self@.pairs, pair_view(*pair)),
    {
        ids_from(self.pair_listing_map.get(pair), 0).hashvector
    }

    /// The identifiers of `account`'s listings, oldest first.
    pub fn owner_ids(&self, account: &[u8; 32]) -> (r: Vec<[u8; 32]>)
        requires
            self.wf(),
        ensures
            r@ == ids_or_empty(self@.owners, *account),
    {
        ids_from(self.account_listings.get(account), 0).hashvector
    }

    /// The tracked pairs, oldest first.
    pub fn tracked_pairs(&self) -> (r: Vec<(Vec<u8>, Vec<u8>)>)
        ensures
            r@.map_values(|p: (Vec<u8>, Vec<u8>)| pair_view(p)) == self@.queue,
    {
        let mut r: Vec<(Vec<u8>, Vec<u8>)> = Vec::new();
        let mut i: usize = 0;
        while i < self.recent_pairs.len()
            invariant
                i <= self.recent_pairs@.len(),
                r@.len() == i,
                forall|k: int| 0 <= k < i ==> pair_view(#[trigger] r@[k]) == self@.queue[k],
            decreases self.recent_pairs.len() - i,
        {
            r.push(copy_pair(&self.recent_pairs[i]));
            i = i + 1;
        }
        assert(r@.map_values(|p: (Vec<u8>, Vec<u8>)| pair_view(p)) =~= self@.queue);
        r
    }
}

} // verus!
