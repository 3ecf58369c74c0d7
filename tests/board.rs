use private_exchange::{ContractStorage, Error, Listing, OwnerPolicy};

fn account(n: u8) -> [u8; 32] {
    [n; 32]
}

fn pair(offer: &str, ask: &str) -> (Vec<u8>, Vec<u8>) {
    (offer.as_bytes().to_vec(), ask.as_bytes().to_vec())
}

fn create(
    board: &mut ContractStorage,
    caller: [u8; 32],
    offer: &str,
    ask: &str,
    price: u128,
    now: u64,
) -> Result<Listing, Error> {
    board.new_listing(
        caller,
        offer.as_bytes().to_vec(),
        ask.as_bytes().to_vec(),
        price,
        b"bank transfer".to_vec(),
        7,
        b"Canada".to_vec(),
        b"Toronto".to_vec(),
        now,
    )
}

fn member_prices(board: &ContractStorage, p: &(Vec<u8>, Vec<u8>)) -> Vec<u128> {
    let mut prices: Vec<u128> = board
        .pair_members(p)
        .iter()
        .map(|id| board.get_listing(id).unwrap().price)
        .collect();
    prices.sort();
    prices
}

#[test]
fn six_listings_keep_the_five_cheapest() {
    let mut board = ContractStorage::new();
    let seller = account(1);
    let mut results = Vec::new();
    for (i, price) in [10u128, 20, 30, 40, 50, 60].iter().enumerate() {
        results.push(create(&mut board, seller, "BTC", "USD", *price, i as u64));
    }
    for r in &results[..5] {
        assert!(r.is_ok());
    }
    assert_eq!(results[5], Err(Error::GenericError));
    let p = pair("BTC", "USD");
    assert_eq!(member_prices(&board, &p), vec![10, 20, 30, 40, 50]);
    // the refused listing stays filed under its owner
    assert_eq!(board.owner_ids(&seller).len(), 6);
    assert_eq!(board.view_my_listings(seller).listings.len(), 6);
}

#[test]
fn seventh_listing_dearer_than_all_is_refused() {
    let mut board = ContractStorage::new();
    let seller = account(1);
    for (i, price) in [10u128, 20, 30, 40, 50, 60].iter().enumerate() {
        let _ = create(&mut board, seller, "BTC", "USD", *price, i as u64);
    }
    let p = pair("BTC", "USD");
    let before = board.pair_members(&p);
    assert_eq!(create(&mut board, seller, "BTC", "USD", 70, 6), Err(Error::GenericError));
    assert_eq!(board.pair_members(&p), before);
    assert_eq!(member_prices(&board, &p), vec![10, 20, 30, 40, 50]);
}

#[test]
fn seventh_listing_cheapest_evicts_fifty() {
    let mut board = ContractStorage::new();
    let seller = account(1);
    for (i, price) in [10u128, 20, 30, 40, 50, 60].iter().enumerate() {
        let _ = create(&mut board, seller, "BTC", "USD", *price, i as u64);
    }
    let r = create(&mut board, seller, "BTC", "USD", 5, 6);
    assert!(r.is_ok());
    let p = pair("BTC", "USD");
    assert_eq!(member_prices(&board, &p), vec![5, 10, 20, 30, 40]);
}

#[test]
fn equal_price_displaces_the_first_highest() {
    let mut board = ContractStorage::new();
    let seller = account(2);
    let mut ids = Vec::new();
    for (i, price) in [10u128, 50, 30, 50, 20].iter().enumerate() {
        ids.push(create(&mut board, seller, "DOT", "EUR", *price, i as u64).unwrap().listing_id);
    }
    let newcomer = create(&mut board, seller, "DOT", "EUR", 50, 9).unwrap().listing_id;
    let members = board.pair_members(&pair("DOT", "EUR"));
    assert_eq!(members.len(), 5);
    assert!(!members.contains(&ids[1]));
    assert!(members.contains(&ids[3]));
    assert!(members.contains(&newcomer));
    // the newcomer takes the last place
    assert_eq!(members, vec![ids[0], ids[2], ids[3], ids[4], newcomer]);
}

#[test]
fn owner_over_the_bound_loses_the_oldest() {
    let mut board = ContractStorage::new();
    let seller = account(3);
    let first = create(&mut board, seller, "ETH", "USD", 1, 0).unwrap().listing_id;
    for i in 1..291u64 {
        let _ = create(&mut board, seller, "BTC", "USD", 1000 - i as u128, i);
    }
    let ids = board.owner_ids(&seller);
    assert_eq!(ids.len(), 290);
    assert!(!ids.contains(&first));
    assert!(board.get_listing(&first).is_none());
    assert!(!board.pair_members(&pair("ETH", "USD")).contains(&first));
    // the pair itself stays tracked
    assert!(board.tracked_pairs().contains(&pair("ETH", "USD")));
}

#[test]
fn eviction_filters_only_the_oldest_out_of_its_pair() {
    let mut board = ContractStorage::new();
    let seller = account(4);
    let other = account(5);
    let first = create(&mut board, seller, "ETH", "USD", 3, 0).unwrap().listing_id;
    let kept = create(&mut board, other, "ETH", "USD", 4, 0).unwrap().listing_id;
    for i in 1..290u64 {
        let _ = create(&mut board, seller, "BTC", "USD", 1000 - i as u128, i);
    }
    assert_eq!(board.owner_ids(&seller).len(), 290);
    assert!(board.pair_members(&pair("ETH", "USD")).contains(&first));
    let _ = create(&mut board, seller, "BTC", "USD", 1, 500);
    assert_eq!(board.pair_members(&pair("ETH", "USD")), vec![kept]);
    assert_eq!(board.owner_ids(&seller).len(), 290);
}

#[test]
fn reject_policy_refuses_past_the_bound() {
    let mut board = ContractStorage::with_policy(OwnerPolicy::Reject);
    assert_eq!(board.policy(), OwnerPolicy::Reject);
    let seller = account(6);
    for i in 0..490u64 {
        assert!(create(&mut board, seller, "BTC", "USD", 10_000 - i as u128, i).is_ok());
    }
    let before = board.owner_ids(&seller);
    assert_eq!(before.len(), 490);
    assert_eq!(create(&mut board, seller, "BTC", "USD", 1, 1000), Err(Error::TooManyListings));
    assert_eq!(board.owner_ids(&seller), before);
    // another owner is not affected
    assert!(create(&mut board, account(7), "BTC", "USD", 1, 1000).is_ok());
}

#[test]
fn browse_leaves_hidden_listings_out() {
    let mut board = ContractStorage::new();
    let seller = account(8);
    let a = create(&mut board, seller, "BTC", "USD", 10, 0).unwrap();
    let b = create(&mut board, seller, "BTC", "USD", 20, 1).unwrap();
    let edited = board
        .edit_listing(
            seller,
            a.listing_id,
            10,
            b"cash".to_vec(),
            3,
            b"Peru".to_vec(),
            b"Lima".to_vec(),
            true,
        )
        .unwrap();
    assert!(edited.hide);
    let shown = board.browse_all_listings();
    assert_eq!(shown.len(), 1);
    assert_eq!(shown[0].listing_id, b.listing_id);
    assert!(shown.iter().all(|l| !l.hide));
    let mine = board.view_my_listings(seller).listings;
    assert_eq!(mine.len(), 2);
    assert_eq!(mine[0], edited);
    assert_eq!(mine[1], b);
}

#[test]
fn browse_goes_pair_by_pair_in_tracking_order() {
    let mut board = ContractStorage::new();
    let x = create(&mut board, account(1), "ETH", "USD", 5, 0).unwrap();
    let y = create(&mut board, account(2), "BTC", "USD", 6, 0).unwrap();
    let z = create(&mut board, account(3), "ETH", "USD", 7, 0).unwrap();
    let shown: Vec<[u8; 32]> = board.browse_all_listings().iter().map(|l| l.listing_id).collect();
    assert_eq!(shown, vec![x.listing_id, z.listing_id, y.listing_id]);
}

#[test]
fn verify_account_reports_owners() {
    let mut board = ContractStorage::new();
    assert_eq!(board.verify_account(account(9)), 0);
    assert!(create(&mut board, account(9), "BTC", "USD", 10, 0).is_ok());
    assert_eq!(board.verify_account(account(9)), 1);
    assert_eq!(board.verify_account(account(10)), 0);
}

#[test]
fn verify_account_after_a_refused_competition() {
    let mut board = ContractStorage::new();
    for i in 0..5u64 {
        let _ = create(&mut board, account(1), "BTC", "USD", 1, i);
    }
    assert_eq!(create(&mut board, account(11), "BTC", "USD", 99, 0), Err(Error::GenericError));
    assert_eq!(board.verify_account(account(11)), 1);
}

#[test]
fn update_of_a_member_keeps_pair_members() {
    let mut board = ContractStorage::new();
    let seller = account(12);
    let mut ids = Vec::new();
    for i in 0..5u64 {
        ids.push(create(&mut board, seller, "BTC", "USD", 10 * (i as u128 + 1), i).unwrap().listing_id);
    }
    let p = pair("BTC", "USD");
    let before = board.pair_members(&p);
    let r = board.edit_listing(
        seller,
        ids[2],
        30,
        b"bank transfer".to_vec(),
        7,
        b"Canada".to_vec(),
        b"Toronto".to_vec(),
        false,
    );
    assert!(r.is_ok());
    assert_eq!(board.pair_members(&p), before);
    // a member stays a member whatever its new price
    let r = board.edit_listing(
        seller,
        ids[0],
        1000,
        b"cash".to_vec(),
        1,
        b"Canada".to_vec(),
        b"Ottawa".to_vec(),
        false,
    );
    assert!(r.is_ok());
    assert_eq!(board.pair_members(&p), before);
}

#[test]
fn update_keeps_identity_owner_and_pair() {
    let mut board = ContractStorage::new();
    let seller = account(13);
    let created = create(&mut board, seller, "KSM", "GBP", 42, 3).unwrap();
    assert_eq!(created.pair, pair("KSM", "GBP"));
    assert_eq!(created.offer_coin, b"KSM".to_vec());
    assert_eq!(created.asking_coin, b"GBP".to_vec());
    assert_eq!(created.seller, seller);
    assert!(!created.hide);
    let updated = board
        .edit_listing(
            seller,
            created.listing_id,
            41,
            b"in person".to_vec(),
            2,
            b"UK".to_vec(),
            b"Leeds".to_vec(),
            false,
        )
        .unwrap();
    assert_eq!(updated.listing_id, created.listing_id);
    assert_eq!(updated.seller, seller);
    assert_eq!(updated.pair, pair("KSM", "GBP"));
    assert_eq!(updated.price, 41);
    assert_eq!(updated.method, b"in person".to_vec());
    assert_eq!(updated.inventory, 2);
    assert_eq!(updated.country, b"UK".to_vec());
    assert_eq!(updated.city, b"Leeds".to_vec());
    assert_eq!(board.get_listing(&created.listing_id), Some(updated));
}

#[test]
fn update_by_another_account_is_refused() {
    let mut board = ContractStorage::new();
    let created = create(&mut board, account(14), "BTC", "USD", 10, 0).unwrap();
    let r = board.edit_listing(
        account(15),
        created.listing_id,
        1,
        Vec::new(),
        0,
        Vec::new(),
        Vec::new(),
        false,
    );
    assert_eq!(r, Err(Error::GenericError));
    assert_eq!(board.get_listing(&created.listing_id), Some(created));
}

#[test]
fn update_of_a_non_member_competes_again() {
    let mut board = ContractStorage::new();
    let seller = account(16);
    for i in 0..5u64 {
        let _ = create(&mut board, seller, "BTC", "USD", 10 + i as u128, i);
    }
    let outsider_id = board.owner_ids(&seller)[4];
    assert_eq!(create(&mut board, seller, "BTC", "USD", 100, 9), Err(Error::GenericError));
    let late = *board.owner_ids(&seller).last().unwrap();
    assert!(!board.pair_members(&pair("BTC", "USD")).contains(&late));
    // still too dear: refused, but the revision is stored
    let r = board.edit_listing(seller, late, 90, b"m".to_vec(), 1, b"c".to_vec(), b"t".to_vec(), false);
    assert_eq!(r, Err(Error::GenericError));
    assert_eq!(board.get_listing(&late).unwrap().price, 90);
    // cheap enough: takes the place of the dearest member
    let r = board.edit_listing(seller, late, 1, b"m".to_vec(), 1, b"c".to_vec(), b"t".to_vec(), false);
    assert!(r.is_ok());
    let members = board.pair_members(&pair("BTC", "USD"));
    assert!(members.contains(&late));
    assert!(!members.contains(&outsider_id));
    assert_eq!(member_prices(&board, &pair("BTC", "USD")), vec![1, 10, 11, 12, 13]);
}

#[test]
fn create_with_oversized_fields_is_refused() {
    let mut board = ContractStorage::new();
    let c = account(17);
    let long = |n: usize| vec![b'x'; n];
    let cases = [
        (long(13), long(3), long(1), long(1), long(1)),
        (long(3), long(13), long(1), long(1), long(1)),
        (long(3), long(3), long(601), long(1), long(1)),
        (long(3), long(3), long(1), long(41), long(1)),
        (long(3), long(3), long(1), long(1), long(61)),
    ];
    for (offer, ask, method, country, city) in cases.iter() {
        let r = board.new_listing(c, offer.clone(), ask.clone(), 1, method.clone(), 1, country.clone(), city.clone(), 0);
        assert_eq!(r, Err(Error::DataTooLarge));
    }
    assert_eq!(board.verify_account(c), 0);
    let r = board.new_listing(c, long(12), long(12), 1, long(600), 1, long(40), long(60), 0);
    assert!(r.is_ok());
}

#[test]
fn update_with_oversized_fields_is_refused() {
    let mut board = ContractStorage::new();
    let c = account(18);
    let id = create(&mut board, c, "BTC", "USD", 5, 0).unwrap().listing_id;
    let long = |n: usize| vec![b'x'; n];
    assert_eq!(board.edit_listing(c, id, 1, long(601), 1, long(1), long(1), false), Err(Error::DataTooLarge));
    assert_eq!(board.edit_listing(c, id, 1, long(1), 1, long(41), long(1), false), Err(Error::DataTooLarge));
    assert_eq!(board.edit_listing(c, id, 1, long(1), 1, long(1), long(61), false), Err(Error::DataTooLarge));
    // ownership is checked before the labels
    assert_eq!(board.edit_listing(account(19), id, 1, long(601), 1, long(1), long(1), false), Err(Error::GenericError));
    assert_eq!(board.get_listing(&id).unwrap().price, 5);
    assert!(board.edit_listing(c, id, 1, long(600), 1, long(40), long(60), false).is_ok());
}

#[test]
fn identifier_already_in_use_is_refused() {
    let mut board = ContractStorage::new();
    let c = account(20);
    assert!(create(&mut board, c, "BTC", "USD", 5, 77).is_ok());
    assert_eq!(create(&mut board, c, "BTC", "USD", 4, 77), Err(Error::GenericError));
    assert_eq!(board.owner_ids(&c).len(), 1);
    // another time gives another identifier
    assert!(create(&mut board, c, "BTC", "USD", 4, 78).is_ok());
    assert_eq!(board.owner_ids(&c).len(), 2);
}

#[test]
fn full_pair_queue_lets_go_of_the_oldest_pair() {
    let mut board = ContractStorage::new();
    let c = account(21);
    let mut first = None;
    for i in 0..58u8 {
        let offer = format!("C{}", i);
        let l = create(&mut board, c, &offer, "USD", 10, i as u64).unwrap();
        if i == 0 {
            first = Some(l.listing_id);
        }
    }
    assert_eq!(board.tracked_pairs().len(), 58);
    assert_eq!(board.browse_all_listings().len(), 58);
    assert!(create(&mut board, c, "NEW", "USD", 10, 100).is_ok());
    let queue = board.tracked_pairs();
    assert_eq!(queue.len(), 58);
    assert_eq!(queue[0], pair("C1", "USD"));
    assert_eq!(queue[57], pair("NEW", "USD"));
    assert!(board.pair_members(&pair("C0", "USD")).is_empty());
    let shown = board.browse_all_listings();
    assert_eq!(shown.len(), 58);
    assert!(shown.iter().all(|l| Some(l.listing_id) != first));
    // the record itself stays reachable through its owner
    assert!(board.get_listing(&first.unwrap()).is_some());
    assert_eq!(board.view_my_listings(c).listings.len(), 59);
}

#[test]
fn chosen_identifier_is_used() {
    let mut board = ContractStorage::new();
    let id = [42u8; 32];
    let r = board
        .new_listing_with_id(account(22), b"A".to_vec(), b"B".to_vec(), 3, b"m".to_vec(), 4, b"c".to_vec(), b"t".to_vec(), id)
        .unwrap();
    assert_eq!(r.listing_id, id);
    assert_eq!(board.owner_ids(&account(22)), vec![id]);
    assert_eq!(board.pair_members(&pair("A", "B")), vec![id]);
    let again = board.new_listing_with_id(account(23), b"A".to_vec(), b"B".to_vec(), 3, b"m".to_vec(), 4, b"c".to_vec(), b"t".to_vec(), id);
    assert_eq!(again, Err(Error::GenericError));
    assert_eq!(board.verify_account(account(23)), 0);
}
