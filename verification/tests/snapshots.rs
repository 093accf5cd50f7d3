use nft_market::{Contract, MarketError, Offer, Snapshot, TokenData};

fn s(text: &str) -> String {
    text.to_string()
}

fn record(owner: &str, token: &str, price: u128) -> TokenData {
    TokenData { owner_id: s(owner), nft_contract_id: s("nft.near"), token_id: s(token), price, approval_id: 1 }
}

fn offer(id: &str, token: &str, price: u128, buyer: &str) -> Offer {
    Offer { token_uid: format!("nft.near:{}", token), offer_id: s(id), price, buyer_id: s(buyer) }
}

fn busy_market() -> Contract {
    let mut c = Contract::new();
    for (owner, token, price) in [("alice.near", "1", 10u128), ("bob.near", "2", 20), ("alice.near", "3", 30)] {
        c.nft_on_approve(s(token), s(owner), 1, s("nft.near"), price).unwrap();
    }
    c.place_offer(&s("nft.near:1"), &s("carol.near"), 5).unwrap();
    c.place_offer(&s("nft.near:2"), &s("carol.near"), 6).unwrap();
    c.place_offer(&s("nft.near:1"), &s("bob.near"), 7).unwrap();
    c.withdraw_offer(&s("1"), &s("carol.near")).unwrap();
    c
}

#[test]
fn snapshot_holds_listings_and_offers_in_their_order() {
    let snap = busy_market().snapshot();
    assert_eq!(
        snap,
        Snapshot {
            tokens: vec![record("alice.near", "1", 10), record("bob.near", "2", 20), record("alice.near", "3", 30)],
            offers: vec![offer("0", "1", 5, "carol.near"), offer("2", "1", 7, "bob.near")],
            offers_minted: 3,
        }
    );
}

#[test]
fn restored_market_answers_as_the_one_that_was_kept() {
    let c = busy_market();
    let mut r = Contract::restore(c.snapshot()).unwrap();
    assert_eq!(r.snapshot(), c.snapshot());
    assert_eq!(r.get_nfts(0, 10), c.get_nfts(0, 10));
    assert_eq!(r.get_user_nfts(&s("alice.near")), c.get_user_nfts(&s("alice.near")));
    assert_eq!(r.get_offers_by_item(&s("nft.near:1")), c.get_offers_by_item(&s("nft.near:1")));
    assert_eq!(r.get_offers_by_bidder(&s("carol.near")), c.get_offers_by_bidder(&s("carol.near")));
    assert_eq!(r.get_offer_bidder(&s("2")), Some(s("bob.near")));
    assert_eq!(r.offers_minted(), 3);
    let next = r.place_offer(&s("nft.near:3"), &s("carol.near"), 1).unwrap();
    assert_eq!(next.offer_id, "3");
}

#[test]
fn empty_snapshot_is_the_empty_market() {
    let c = Contract::restore(Snapshot { tokens: vec![], offers: vec![], offers_minted: 0 }).unwrap();
    assert_eq!(c.get_nfts(0, 10).total_count, 0);
    assert_eq!(Contract::new().snapshot(), Snapshot { tokens: vec![], offers: vec![], offers_minted: 0 });
}

#[test]
fn snapshot_with_an_item_twice_is_refused() {
    let snap = Snapshot {
        tokens: vec![record("alice.near", "1", 10), record("bob.near", "1", 20)],
        offers: vec![],
        offers_minted: 0,
    };
    assert_eq!(Contract::restore(snap).err(), Some(MarketError::InvariantViolation));
}

#[test]
fn snapshot_with_an_offer_that_cannot_stand_is_refused() {
    let tokens = || vec![record("alice.near", "1", 10)];
    let unlisted = Snapshot { tokens: tokens(), offers: vec![offer("0", "2", 5, "bob.near")], offers_minted: 1 };
    assert_eq!(Contract::restore(unlisted).err(), Some(MarketError::InvariantViolation));
    let by_seller = Snapshot { tokens: tokens(), offers: vec![offer("0", "1", 5, "alice.near")], offers_minted: 1 };
    assert_eq!(Contract::restore(by_seller).err(), Some(MarketError::InvariantViolation));
    let twice = Snapshot {
        tokens: tokens(),
        offers: vec![offer("0", "1", 5, "bob.near"), offer("0", "1", 6, "carol.near")],
        offers_minted: 2,
    };
    assert_eq!(Contract::restore(twice).err(), Some(MarketError::InvariantViolation));
    let not_minted = Snapshot { tokens: tokens(), offers: vec![offer("1", "1", 5, "bob.near")], offers_minted: 1 };
    assert_eq!(Contract::restore(not_minted).err(), Some(MarketError::InvariantViolation));
    let no_number = Snapshot { tokens: tokens(), offers: vec![offer("x", "1", 5, "bob.near")], offers_minted: 9 };
    assert_eq!(Contract::restore(no_number).err(), Some(MarketError::InvariantViolation));
    let fine = Snapshot { tokens: tokens(), offers: vec![offer("0", "1", 5, "bob.near")], offers_minted: 1 };
    assert!(Contract::restore(fine).is_ok());
}
