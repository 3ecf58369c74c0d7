use private_exchange::{compete, same_bytes, same_id, same_pair, ContractStorage, HashVector, Listing, ListingTable};

fn record(id: u8, price: u128) -> Listing {
    Listing {
        listing_id: [id; 32],
        seller: [1; 32],
        offer_coin: b"BTC".to_vec(),
        asking_coin: b"USD".to_vec(),
        pair: (b"BTC".to_vec(), b"USD".to_vec()),
        price,
        method: Vec::new(),
        inventory: 0,
        country: Vec::new(),
        city: Vec::new(),
        hide: false,
    }
}

#[test]
fn listing_identifier_is_the_digest_of_creator_pair_and_time() {
    let mut board = ContractStorage::new();
    let caller = [7u8; 32];
    let offer = b"BTC".to_vec();
    let ask = b"USD".to_vec();
    let now: u64 = 1_700_000_000_000;
    let l = board
        .new_listing(caller, offer.clone(), ask.clone(), 1, Vec::new(), 1, Vec::new(), Vec::new(), now)
        .unwrap();
    let mut expected = [0u8; 32];
    let encodable = (ink::primitives::AccountId::from(caller), offer, ask, now);
    ink::env::hash_encoded::<ink::env::hash::Sha2x256, _>(&encodable, &mut expected);
    assert_eq!(l.listing_id, expected);
    assert_ne!(l.listing_id, caller);
    assert_ne!(l.listing_id, [0u8; 32]);
}

#[test]
fn identifiers_differ_by_time_and_pair() {
    let mut board = ContractStorage::new();
    let c = [8u8; 32];
    let a = board.new_listing(c, b"A".to_vec(), b"B".to_vec(), 1, Vec::new(), 1, Vec::new(), Vec::new(), 1).unwrap();
    let b = board.new_listing(c, b"A".to_vec(), b"B".to_vec(), 1, Vec::new(), 1, Vec::new(), Vec::new(), 2).unwrap();
    let d = board.new_listing(c, b"B".to_vec(), b"A".to_vec(), 1, Vec::new(), 1, Vec::new(), Vec::new(), 1).unwrap();
    assert_ne!(a.listing_id, b.listing_id);
    assert_ne!(a.listing_id, d.listing_id);
    let mut other = ContractStorage::new();
    let again = other.new_listing(c, b"A".to_vec(), b"B".to_vec(), 9, Vec::new(), 1, Vec::new(), Vec::new(), 1).unwrap();
    assert_eq!(again.listing_id, a.listing_id);
}

#[test]
fn compete_fills_free_places_and_keeps_members() {
    let mut table = ListingTable::new();
    table.put(record(1, 10));
    table.put(record(2, 20));
    let members = vec![[1u8; 32]];
    let r = compete(&members, &[2u8; 32], 20, &table).unwrap();
    assert_eq!(r.hashvector, vec![[1u8; 32], [2u8; 32]]);
    let r = compete(&members, &[1u8; 32], 999, &table).unwrap();
    assert_eq!(r, HashVector { hashvector: members.clone() });
}

#[test]
fn compete_in_a_full_index() {
    let mut table = ListingTable::new();
    for (id, price) in [(1u8, 30u128), (2, 50), (3, 10), (4, 50), (5, 20)] {
        table.put(record(id, price));
    }
    let members: Vec<[u8; 32]> = (1u8..=5).map(|i| [i; 32]).collect();
    assert!(compete(&members, &[6u8; 32], 51, &table).is_none());
    let r = compete(&members, &[6u8; 32], 50, &table).unwrap();
    assert_eq!(r.hashvector, vec![[1u8; 32], [3u8; 32], [4u8; 32], [5u8; 32], [6u8; 32]]);
    let r = compete(&members, &[6u8; 32], 0, &table).unwrap();
    assert_eq!(r.hashvector, vec![[1u8; 32], [3u8; 32], [4u8; 32], [5u8; 32], [6u8; 32]]);
}

#[test]
fn compete_reads_missing_prices_as_zero() {
    let table = ListingTable::new();
    let members: Vec<[u8; 32]> = (1u8..=5).map(|i| [i; 32]).collect();
    assert!(compete(&members, &[6u8; 32], 1, &table).is_none());
    let r = compete(&members, &[6u8; 32], 0, &table).unwrap();
    assert_eq!(r.hashvector, vec![[2u8; 32], [3u8; 32], [4u8; 32], [5u8; 32], [6u8; 32]]);
}

#[test]
fn table_put_get_remove() {
    let mut table = ListingTable::new();
    assert!(!table.contains(&[1u8; 32]));
    table.put(record(1, 10));
    assert!(table.contains(&[1u8; 32]));
    assert_eq!(table.price_of(&[1u8; 32]), 10);
    assert_eq!(table.price_of(&[2u8; 32]), 0);
    table.put(record(1, 11));
    assert_eq!(table.get(&[1u8; 32]).unwrap().price, 11);
    table.remove(&[1u8; 32]);
    assert!(table.get(&[1u8; 32]).is_none());
}

#[test]
fn default_listing_is_empty_and_visible() {
    let l = Listing::default();
    assert_eq!(l.listing_id, [0u8; 32]);
    assert_eq!(l.seller, [0u8; 32]);
    assert!(l.offer_coin.is_empty() && l.asking_coin.is_empty());
    assert!(l.pair.0.is_empty() && l.pair.1.is_empty());
    assert_eq!(l.price, 0);
    assert_eq!(l.inventory, 0);
    assert!(l.method.is_empty() && l.country.is_empty() && l.city.is_empty());
    assert!(!l.hide);
}

#[test]
fn clone_keeps_every_field() {
    let mut l = record(3, 77);
    l.method = b"cash".to_vec();
    l.hide = true;
    assert_eq!(l.clone(), l);
}

#[test]
fn byte_comparisons() {
    assert!(same_id(&[1u8; 32], &[1u8; 32]));
    let mut b = [1u8; 32];
    b[31] = 2;
    assert!(!same_id(&[1u8; 32], &b));
    assert!(same_bytes(&b"ab".to_vec(), &b"ab".to_vec()));
    assert!(!same_bytes(&b"ab".to_vec(), &b"abc".to_vec()));
    assert!(same_pair(&(b"a".to_vec(), b"b".to_vec()), &(b"a".to_vec(), b"b".to_vec())));
    assert!(!same_pair(&(b"a".to_vec(), b"b".to_vec()), &(b"b".to_vec(), b"a".to_vec())));
}
