//! A bounded, multi-index listing board: participants publish offers to trade
//! one asset for another at a stated price. Records live in one table and are
//! reachable through a per-owner index and a price-competitive per-pair index.
//!
//! `model` states the board as mathematical values and each operation as a
//! step on them; `store` carries the steps out; `laws` proves what holds of
//! every board and every operation.

mod digest;
mod laws;
mod listing;
mod model;
mod owners;
mod pairs;
mod store;
mod table;

pub use digest::listing_digest;
pub use laws::{
    lemma_create_pair_and_owner, lemma_dearer_refused, lemma_equal_price_displaces,
    lemma_evicts_oldest, lemma_index_bounds, lemma_other_owners_kept, lemma_update_keeps_owners,
    lemma_update_keeps_pair, lemma_update_member_keeps_pairs,
};
pub use listing::{same_bytes, same_id, Error, HashVector, Listing, ListingView, ViewListings};
pub use model::{
    details_fit, fields_fit, new_record, owned_ids_ok, owner_bound, paired_ids_ok, result_view,
    revised_record, without, OwnerPolicy, PairKey, StoreModel, EVICT_BOUND, MAX_CITY_LEN,
    MAX_COIN_LEN, MAX_COUNTRY_LEN, MAX_METHOD_LEN, RECENT_PAIRS_BOUND, REJECT_BOUND,
};
pub use owners::{ids_or_empty, OwnerIndex};
pub use pairs::{
    admitted, compete, highest_index, is_highest, member_prices, same_pair, PairIndex,
    PAIR_CAPACITY,
};
pub use store::{browse_pairs, listing_views, pair_view, visible, ContractStorage};
pub use table::{price_or_zero, ListingTable};
