use nft_market::contract::REMOVER_ACCOUNT_ID;
use nft_market::{Contract, MarketError, TokenData};

fn s(text: &str) -> String {
    text.to_string()
}

fn list(c: &mut Contract, owner: &str, token: &str, price: u128) -> Result<String, MarketError> {
    c.nft_on_approve(s(token), s(owner), 1, s("nft.near"), price)
}

fn record(owner: &str, token: &str, price: u128) -> TokenData {
    TokenData { owner_id: s(owner), nft_contract_id: s("nft.near"), token_id: s(token), price, approval_id: 1 }
}

fn listed_uids(c: &Contract) -> Vec<String> {
    let page = c.get_nfts(0, u64::MAX);
    page.tokens.iter().map(|t| format!("{}:{}", t.nft_contract_id, t.token_id)).collect()
}

#[test]
fn new_market_is_empty() {
    let c = Contract::new();
    let page = c.get_nfts(0, 10);
    assert!(page.tokens.is_empty());
    assert!(!page.has_next_batch);
    assert_eq!(page.total_count, 0);
    assert!(c.get_user_nfts(&s("alice.near")).is_empty());
    assert_eq!(c.get_nft_price(&s("nft.near:1")), None);
    assert_eq!(c.offers_minted(), 0);
}

#[test]
fn listing_creates_the_record_under_its_uid() {
    let mut c = Contract::new();
    let uid = c.nft_on_approve(s("7"), s("alice.near"), 33, s("nft.near"), 1_000).unwrap();
    assert_eq!(uid, "nft.near:7");
    assert_eq!(c.get_nft_price(&uid), Some(1_000));
    let d = c.get_nft(&uid).unwrap();
    assert_eq!(
        d,
        TokenData {
            owner_id: s("alice.near"),
            nft_contract_id: s("nft.near"),
            token_id: s("7"),
            price: 1_000,
            approval_id: 33,
        }
    );
    assert_eq!(c.get_user_nfts(&s("alice.near")), vec![d]);
}

#[test]
fn listing_twice_is_refused_and_changes_nothing() {
    let mut c = Contract::new();
    list(&mut c, "alice.near", "1", 10).unwrap();
    assert_eq!(list(&mut c, "bob.near", "1", 99), Err(MarketError::AlreadyListed));
    assert_eq!(list(&mut c, "alice.near", "1", 10), Err(MarketError::AlreadyListed));
    assert_eq!(c.get_nft_price(&s("nft.near:1")), Some(10));
    assert_eq!(c.get_nfts(0, 10).total_count, 1);
    assert!(c.get_user_nfts(&s("bob.near")).is_empty());
}

#[test]
fn same_item_name_at_another_service_is_another_item() {
    let mut c = Contract::new();
    c.nft_on_approve(s("1"), s("alice.near"), 1, s("a.near"), 10).unwrap();
    c.nft_on_approve(s("1"), s("alice.near"), 1, s("b.near"), 20).unwrap();
    assert_eq!(c.get_nft_price(&s("a.near:1")), Some(10));
    assert_eq!(c.get_nft_price(&s("b.near:1")), Some(20));
}

#[test]
fn price_is_set_by_the_owner_alone() {
    let mut c = Contract::new();
    list(&mut c, "alice.near", "1", 10).unwrap();
    assert_eq!(c.update_token_price(&s("nft.near"), &s("1"), 25, &s("alice.near")), Ok(()));
    assert_eq!(c.get_nft_price(&s("nft.near:1")), Some(25));
    assert_eq!(c.update_token_price(&s("nft.near"), &s("1"), 1, &s("bob.near")), Err(MarketError::NotOwner));
    assert_eq!(c.get_nft_price(&s("nft.near:1")), Some(25));
    assert_eq!(c.update_token_price(&s("nft.near"), &s("2"), 1, &s("alice.near")), Err(MarketError::NotListed));
    assert_eq!(c.get_user_nfts(&s("alice.near")), vec![record("alice.near", "1", 25)]);
}

#[test]
fn delisting_is_for_the_owner_alone() {
    let mut c = Contract::new();
    list(&mut c, "alice.near", "1", 10).unwrap();
    assert_eq!(
        c.remove_from_market(&s("nft.near"), &s("1"), &s("bob.near")).unwrap_err(),
        MarketError::NotOwner
    );
    assert_eq!(
        c.remove_from_market(&s("nft.near"), &s("9"), &s("alice.near")).unwrap_err(),
        MarketError::NotListed
    );
    assert_eq!(c.get_nfts(0, 10).total_count, 1);
    let removal = c.remove_from_market(&s("nft.near"), &s("1"), &s("alice.near")).unwrap();
    assert_eq!(removal.data, record("alice.near", "1", 10));
    assert!(removal.refunds.is_empty());
    assert_eq!(c.get_nfts(0, 10).total_count, 0);
    assert_eq!(c.get_nft_price(&s("nft.near:1")), None);
    assert!(c.get_user_nfts(&s("alice.near")).is_empty());
    assert_eq!(
        c.remove_from_market(&s("nft.near"), &s("1"), &s("alice.near")).unwrap_err(),
        MarketError::NotListed
    );
}

#[test]
fn item_can_be_listed_again_after_it_left() {
    let mut c = Contract::new();
    list(&mut c, "alice.near", "1", 10).unwrap();
    c.remove_from_market(&s("nft.near"), &s("1"), &s("alice.near")).unwrap();
    list(&mut c, "bob.near", "1", 11).unwrap();
    assert_eq!(c.get_user_nfts(&s("bob.near")), vec![record("bob.near", "1", 11)]);
    assert!(c.get_user_nfts(&s("alice.near")).is_empty());
}

#[test]
fn listing_set_and_owner_index_hold_the_same_items() {
    let mut c = Contract::new();
    let owners = ["alice.near", "bob.near", "carol.near"];
    for i in 0..12u32 {
        list(&mut c, owners[(i % 3) as usize], &i.to_string(), 100 + i as u128).unwrap();
    }
    for i in [3u32, 4, 11, 0] {
        c.remove_from_market(&s("nft.near"), &i.to_string(), &s(owners[(i % 3) as usize])).unwrap();
    }
    list(&mut c, "bob.near", "3", 5).unwrap();
    let mut in_set = listed_uids(&c);
    let mut in_index: Vec<String> = Vec::new();
    for owner in owners {
        for t in c.get_user_nfts(&s(owner)) {
            assert_eq!(t.owner_id, owner);
            in_index.push(format!("{}:{}", t.nft_contract_id, t.token_id));
        }
    }
    in_set.sort();
    in_index.sort();
    assert_eq!(in_set, in_index);
    assert_eq!(in_set.len(), 9);
}

#[test]
fn owner_index_keeps_the_order_of_listing() {
    let mut c = Contract::new();
    list(&mut c, "alice.near", "1", 1).unwrap();
    list(&mut c, "bob.near", "2", 2).unwrap();
    list(&mut c, "alice.near", "3", 3).unwrap();
    list(&mut c, "alice.near", "4", 4).unwrap();
    c.remove_from_market(&s("nft.near"), &s("3"), &s("alice.near")).unwrap();
    assert_eq!(c.get_user_nfts(&s("alice.near")), vec![record("alice.near", "1", 1), record("alice.near", "4", 4)]);
    assert_eq!(c.get_user_nfts(&s("bob.near")), vec![record("bob.near", "2", 2)]);
}

#[test]
fn pages_run_from_the_newest_listing_back() {
    let mut c = Contract::new();
    for i in 1..=5u32 {
        list(&mut c, "alice.near", &i.to_string(), i as u128).unwrap();
    }
    let first = c.get_nfts(0, 2);
    assert_eq!(first.tokens, vec![record("alice.near", "5", 5), record("alice.near", "4", 4)]);
    assert!(first.has_next_batch);
    assert_eq!(first.total_count, 5);
    let second = c.get_nfts(2, 2);
    assert_eq!(second.tokens, vec![record("alice.near", "3", 3), record("alice.near", "2", 2)]);
    assert!(second.has_next_batch);
    let third = c.get_nfts(4, 2);
    assert_eq!(third.tokens, vec![record("alice.near", "1", 1)]);
    assert!(!third.has_next_batch);
    assert_eq!(third.total_count, 5);
}

#[test]
fn pages_at_the_edges() {
    let mut c = Contract::new();
    for i in 1..=3u32 {
        list(&mut c, "alice.near", &i.to_string(), i as u128).unwrap();
    }
    let none = c.get_nfts(0, 0);
    assert!(none.tokens.is_empty());
    assert!(none.has_next_batch);
    let beyond = c.get_nfts(3, 5);
    assert!(beyond.tokens.is_empty());
    assert!(!beyond.has_next_batch);
    assert_eq!(beyond.total_count, 3);
    let far = c.get_nfts(u64::MAX, u64::MAX);
    assert!(far.tokens.is_empty());
    assert!(!far.has_next_batch);
    let all = c.get_nfts(0, u64::MAX);
    assert_eq!(all.tokens.len(), 3);
    assert!(!all.has_next_batch);
    let exact = c.get_nfts(1, 2);
    assert_eq!(exact.tokens, vec![record("alice.near", "2", 2), record("alice.near", "1", 1)]);
    assert!(!exact.has_next_batch);
}

#[test]
fn pages_skip_what_left_and_keep_the_order_of_the_rest() {
    let mut c = Contract::new();
    for i in 1..=4u32 {
        list(&mut c, "alice.near", &i.to_string(), i as u128).unwrap();
    }
    c.remove_from_market(&s("nft.near"), &s("2"), &s("alice.near")).unwrap();
    let page = c.get_nfts(0, 10);
    assert_eq!(
        page.tokens,
        vec![record("alice.near", "4", 4), record("alice.near", "3", 3), record("alice.near", "1", 1)]
    );
    assert_eq!(page.total_count, 3);
}

#[test]
fn cleanup_for_the_wrong_owner_is_an_invariant_violation() {
    let mut c = Contract::new();
    list(&mut c, "alice.near", "1", 10).unwrap();
    assert_eq!(c.remove_nft(&s("bob.near"), &s("nft.near:1")).unwrap_err(), MarketError::InvariantViolation);
    assert_eq!(c.remove_nft(&s("alice.near"), &s("nft.near:2")).unwrap_err(), MarketError::InvariantViolation);
    assert_eq!(c.get_nfts(0, 10).total_count, 1);
    assert_eq!(c.get_user_nfts(&s("alice.near")).len(), 1);
    let removal = c.remove_nft(&s("alice.near"), &s("nft.near:1")).unwrap();
    assert_eq!(removal.data, record("alice.near", "1", 10));
    assert_eq!(c.get_nfts(0, 10).total_count, 0);
}

#[test]
fn stale_listing_is_removed_by_the_remover_alone() {
    let mut c = Contract::new();
    list(&mut c, "alice.near", "1", 10).unwrap();
    assert_eq!(REMOVER_ACCOUNT_ID, "cleaner.mjol.near");
    assert_eq!(c.remove_old_listing(&s("nft.near:1"), &s("alice.near")).unwrap_err(), MarketError::NotRemover);
    assert_eq!(c.remove_old_listing(&s("nft.near:9"), &s("alice.near")).unwrap_err(), MarketError::NotRemover);
    assert_eq!(c.get_nfts(0, 10).total_count, 1);
    assert_eq!(
        c.remove_old_listing(&s("nft.near:9"), &s(REMOVER_ACCOUNT_ID)).unwrap_err(),
        MarketError::NotListed
    );
    let removal = c.remove_old_listing(&s("nft.near:1"), &s(REMOVER_ACCOUNT_ID)).unwrap();
    assert_eq!(removal.data, record("alice.near", "1", 10));
    assert_eq!(c.get_nfts(0, 10).total_count, 0);
    assert!(c.get_user_nfts(&s("alice.near")).is_empty());
}
