use vstd::prelude::*;

verus! {

/// The identifier of a listing: the SHA2-256 digest of the SCALE encoding of
/// the tuple (creator, offered label, requested label, creation time).
pub uninterp spec fn listing_digest(caller: [u8; 32], offer: Seq<u8>, ask: Seq<u8>, now: u64) -> [u8; 32];

/// Relies on ink::env::hash_encoded with ink::env::hash::Sha2x256: it encodes
/// the tuple with SCALE and hashes the bytes, so the digest depends on the four
/// values alone.
#[verifier::external_body]
pub(crate) fn listing_id_of(caller: &[u8; 32], offer: &Vec<u8>, ask: &Vec<u8>, now: u64) -> (r: [u8; 32])
    ensures
        r == listing_digest(*caller, offer@, ask@, now),
{
    let encodable = (ink::primitives::AccountId::from(*caller), offer, ask, now);
    let mut out = <ink::env::hash::Sha2x256 as ink::env::hash::HashOutput>::Type::default();
    ink::env::hash_encoded::<ink::env::hash::Sha2x256, _>(&encodable, &mut out);
    out
}

} // verus!
