use nft_market::payout::TREASURY_ID;
use nft_market::settlement::MAX_LEN_PAYOUT;
use nft_market::{
    Contract, MarketError, Purchase, Settlement, SettlementState, TokenData, Transfer, TransferOutcome,
    TransferRequest,
};

fn s(text: &str) -> String {
    text.to_string()
}

fn pay(who: &str, amount: u128) -> Transfer {
    Transfer { receiver_id: s(who), amount }
}

fn market() -> Contract {
    let mut c = Contract::new();
    c.nft_on_approve(s("1"), s("alice.near"), 11, s("nft.near"), 1_000_000).unwrap();
    c.nft_on_approve(s("2"), s("alice.near"), 12, s("nft.near"), 500).unwrap();
    c
}

fn buy_first(c: &mut Contract) -> Purchase {
    c.buy(&s("nft.near"), &s("1"), true, &s("bob.near"), 1_000_000).unwrap()
}

fn sorted(mut transfers: Vec<Transfer>) -> Vec<(String, u128)> {
    let mut lines: Vec<(String, u128)> = transfers.drain(..).map(|t| (t.receiver_id, t.amount)).collect();
    lines.sort();
    lines
}

#[test]
fn purchase_asks_for_the_transfer_to_the_buyer() {
    let mut c = market();
    let p = buy_first(&mut c);
    assert_eq!(MAX_LEN_PAYOUT, 10);
    assert_eq!(
        p.request,
        TransferRequest {
            nft_contract_id: s("nft.near"),
            receiver_id: s("bob.near"),
            token_id: s("1"),
            approval_id: 11,
            balance: Some(1_000_000),
            max_len_payout: Some(10),
        }
    );
    assert_eq!(p.settlement.buyer_id(), "bob.near");
    assert_eq!(p.settlement.seller_id(), "alice.near");
    assert_eq!(p.settlement.nft_uid(), "nft.near:1");
    assert_eq!(p.settlement.price(), 1_000_000);
    assert_eq!(p.settlement.state(), SettlementState::Pending);
    assert!(p.refunds.is_empty());
}

#[test]
fn purchase_without_payouts_asks_for_a_plain_transfer() {
    let mut c = market();
    let p = c.buy(&s("nft.near"), &s("2"), false, &s("bob.near"), 500).unwrap();
    assert_eq!(p.request.balance, None);
    assert_eq!(p.request.max_len_payout, None);
    assert_eq!(p.request.approval_id, 12);
    assert_eq!(p.request.token_id, "2");
}

#[test]
fn purchased_item_leaves_the_pages_before_the_result_comes() {
    let mut c = market();
    let before = c.get_nfts(0, 10);
    assert_eq!(before.total_count, 2);
    let p = buy_first(&mut c);
    assert_eq!(p.settlement.state(), SettlementState::Pending);
    let after = c.get_nfts(0, 10);
    assert_eq!(after.total_count, 1);
    assert!(after.tokens.iter().all(|t| t.token_id != "1"));
    assert_eq!(c.get_nft_price(&s("nft.near:1")), None);
    assert_eq!(c.get_user_nfts(&s("alice.near")).len(), 1);
    assert_eq!(
        c.buy(&s("nft.near"), &s("1"), true, &s("carol.near"), 1_000_000).unwrap_err(),
        MarketError::NotListed
    );
}

#[test]
fn purchase_needs_the_price_to_the_unit() {
    let mut c = market();
    assert_eq!(c.buy(&s("nft.near"), &s("1"), true, &s("bob.near"), 999_999).unwrap_err(), MarketError::PriceMismatch);
    assert_eq!(
        c.buy(&s("nft.near"), &s("1"), true, &s("bob.near"), 1_000_001).unwrap_err(),
        MarketError::PriceMismatch
    );
    assert_eq!(c.buy(&s("nft.near"), &s("1"), true, &s("bob.near"), 0).unwrap_err(), MarketError::PriceMismatch);
    assert_eq!(c.get_nfts(0, 10).total_count, 2);
}

#[test]
fn seller_cannot_buy() {
    let mut c = market();
    assert_eq!(c.buy(&s("nft.near"), &s("1"), true, &s("alice.near"), 1_000_000).unwrap_err(), MarketError::SelfOffer);
    assert_eq!(c.buy(&s("nft.near"), &s("1"), true, &s("alice.near"), 1).unwrap_err(), MarketError::SelfOffer);
    assert_eq!(c.get_nfts(0, 10).total_count, 2);
}

#[test]
fn purchase_of_what_is_not_on_sale_is_refused() {
    let mut c = market();
    assert_eq!(c.buy(&s("nft.near"), &s("9"), true, &s("bob.near"), 1).unwrap_err(), MarketError::NotListed);
    assert_eq!(c.buy(&s("other.near"), &s("1"), true, &s("bob.near"), 1_000_000).unwrap_err(), MarketError::NotListed);
}

#[test]
fn purchase_refunds_the_offers_on_the_item() {
    let mut c = market();
    c.place_offer(&s("nft.near:1"), &s("carol.near"), 50).unwrap();
    c.place_offer(&s("nft.near:1"), &s("dave.near"), 75).unwrap();
    let kept = c.place_offer(&s("nft.near:2"), &s("carol.near"), 5).unwrap();
    let p = buy_first(&mut c);
    assert_eq!(p.refunds, vec![pay("carol.near", 50), pay("dave.near", 75)]);
    assert!(c.get_offers_by_item(&s("nft.near:1")).is_empty());
    assert_eq!(c.get_offers_by_bidder(&s("carol.near")), vec![kept]);
    assert!(c.get_offers_by_bidder(&s("dave.near")).is_empty());
}

#[test]
fn settlement_with_a_royalty_split() {
    let mut c = market();
    let mut p = buy_first(&mut c);
    let payload = br#"{"payout":{"alice.near":"900000","royalty.near":"100000"}}"#.to_vec();
    let paid = Contract::resolve_purchase(&mut p.settlement, TransferOutcome::Successful(payload)).unwrap();
    assert_eq!(
        sorted(paid),
        vec![(s("alice.near"), 880_000), (s("royalty.near"), 100_000), (s(TREASURY_ID), 20_000)]
    );
    assert_eq!(p.settlement.state(), SettlementState::Resolved);
}

#[test]
fn settlement_with_a_flat_split() {
    let mut c = market();
    let mut p = buy_first(&mut c);
    let payload = br#"{"alice.near":"899999","royalty.near":"100000"}"#.to_vec();
    let paid = Contract::resolve_purchase(&mut p.settlement, TransferOutcome::Successful(payload)).unwrap();
    assert_eq!(
        sorted(paid),
        vec![(s("alice.near"), 879_999), (s("royalty.near"), 100_000), (s(TREASURY_ID), 20_000)]
    );
}

#[test]
fn fee_transfer_follows_the_seller_in_a_split() {
    let mut settlement = Settlement::new(s("bob.near"), s("alice.near"), s("nft.near:1"), 1_000);
    let payload = br#"{"payout":{"alice.near":"1000"}}"#.to_vec();
    let paid = Contract::resolve_purchase(&mut settlement, TransferOutcome::Successful(payload)).unwrap();
    assert_eq!(paid, vec![pay("alice.near", 980), pay(TREASURY_ID, 20)]);
}

#[test]
fn settlement_without_a_usable_split_falls_back() {
    for payload in [
        b"".to_vec(),
        b"null".to_vec(),
        b"\"ok\"".to_vec(),
        br#"{"payout":{"alice.near":"1"}}"#.to_vec(),
        br#"{"payout":{"alice.near":"1000000","royalty.near":"1"}}"#.to_vec(),
        br#"{"royalty.near":"1000000"}"#.to_vec(),
        br#"{"payout":{"Alice":"1000000"}}"#.to_vec(),
    ] {
        let mut settlement = Settlement::new(s("bob.near"), s("alice.near"), s("nft.near:1"), 1_000_000);
        let paid = Contract::resolve_purchase(&mut settlement, TransferOutcome::Successful(payload)).unwrap();
        assert_eq!(paid, vec![pay("alice.near", 980_000), pay(TREASURY_ID, 20_000)]);
        assert_eq!(settlement.state(), SettlementState::Resolved);
    }
}

#[test]
fn envelope_that_is_refused_is_not_read_again_as_flat() {
    let mut settlement = Settlement::new(s("bob.near"), s("alice.near"), s("nft.near:1"), 10);
    let payload = br#"{"payout":{"alice.near":"3"}}"#.to_vec();
    let paid = Contract::resolve_purchase(&mut settlement, TransferOutcome::Successful(payload)).unwrap();
    assert_eq!(paid, vec![pay("alice.near", 10), pay(TREASURY_ID, 0)]);
}

#[test]
fn settlement_without_payouts_ignores_what_came_back() {
    let mut c = market();
    let mut p = c.buy(&s("nft.near"), &s("1"), false, &s("bob.near"), 1_000_000).unwrap();
    let payload = br#"{"payout":{"alice.near":"900000","royalty.near":"100000"}}"#.to_vec();
    let paid = Contract::resolve_purchase_no_payouts(&mut p.settlement, TransferOutcome::Successful(payload)).unwrap();
    assert_eq!(paid, vec![pay("alice.near", 980_000), pay(TREASURY_ID, 20_000)]);
    assert_eq!(p.settlement.state(), SettlementState::Resolved);
}

#[test]
fn failed_transfer_pays_nobody() {
    let mut c = market();
    let mut p = buy_first(&mut c);
    assert_eq!(
        Contract::resolve_purchase(&mut p.settlement, TransferOutcome::Failed),
        Err(MarketError::ExternalTransferFailed)
    );
    assert_eq!(p.settlement.state(), SettlementState::Resolved);
    assert_eq!(c.get_nfts(0, 10).total_count, 1);
    assert_eq!(c.get_nft_price(&s("nft.near:2")), Some(500));
    let mut q = Settlement::new(s("bob.near"), s("alice.near"), s("nft.near:1"), 5);
    assert_eq!(
        Contract::resolve_purchase_no_payouts(&mut q, TransferOutcome::Failed),
        Err(MarketError::ExternalTransferFailed)
    );
}

#[test]
fn settlement_takes_one_result_and_no_more() {
    let mut c = market();
    let mut p = buy_first(&mut c);
    Contract::resolve_purchase(&mut p.settlement, TransferOutcome::Successful(Vec::new())).unwrap();
    assert_eq!(
        Contract::resolve_purchase(&mut p.settlement, TransferOutcome::Successful(Vec::new())),
        Err(MarketError::InvariantViolation)
    );
    assert_eq!(
        Contract::resolve_purchase(&mut p.settlement, TransferOutcome::Failed),
        Err(MarketError::InvariantViolation)
    );
    assert_eq!(
        Contract::resolve_purchase_no_payouts(&mut p.settlement, TransferOutcome::Successful(Vec::new())),
        Err(MarketError::InvariantViolation)
    );
    assert_eq!(p.settlement.state(), SettlementState::Resolved);
}

#[test]
fn accepted_offer_pays_for_the_item_out_of_escrow() {
    let mut c = market();
    c.update_token_price(&s("nft.near"), &s("2"), 400, &s("alice.near")).unwrap();
    let low = c.place_offer(&s("nft.near:2"), &s("bob.near"), 300).unwrap();
    let good = c.place_offer(&s("nft.near:2"), &s("carol.near"), 400).unwrap();
    let other = c.place_offer(&s("nft.near:1"), &s("carol.near"), 9).unwrap();
    let mut p = c.accept_offer(&s("nft.near:2"), &good.offer_id, &s("alice.near"), true).unwrap();
    assert_eq!(p.settlement.buyer_id(), "carol.near");
    assert_eq!(p.settlement.seller_id(), "alice.near");
    assert_eq!(p.settlement.nft_uid(), "nft.near:2");
    assert_eq!(p.settlement.price(), 400);
    assert_eq!(p.request.receiver_id, "carol.near");
    assert_eq!(p.request.token_id, "2");
    assert_eq!(p.request.approval_id, 12);
    assert_eq!(p.request.balance, Some(400));
    assert_eq!(p.refunds, vec![pay("bob.near", 300)]);
    assert_eq!(c.get_nft_price(&s("nft.near:2")), None);
    assert_eq!(c.get_offer_bidder(&good.offer_id), None);
    assert_eq!(c.get_offer_bidder(&low.offer_id), None);
    assert_eq!(c.get_offers_by_bidder(&s("carol.near")), vec![other]);
    assert!(c.get_offers_by_bidder(&s("bob.near")).is_empty());
    let paid = Contract::resolve_purchase(&mut p.settlement, TransferOutcome::Successful(Vec::new())).unwrap();
    assert_eq!(paid, vec![pay("alice.near", 392), pay(TREASURY_ID, 8)]);
}

#[test]
fn offer_is_accepted_by_the_seller_alone() {
    let mut c = market();
    let o = c.place_offer(&s("nft.near:2"), &s("bob.near"), 500).unwrap();
    assert_eq!(c.accept_offer(&s("nft.near:2"), &o.offer_id, &s("bob.near"), true).unwrap_err(), MarketError::NotOwner);
    assert_eq!(c.accept_offer(&s("nft.near:9"), &o.offer_id, &s("alice.near"), true).unwrap_err(), MarketError::NotListed);
    assert_eq!(c.accept_offer(&s("nft.near:2"), &s("5"), &s("alice.near"), true).unwrap_err(), MarketError::NoSuchOffer);
    assert_eq!(
        c.accept_offer(&s("nft.near:1"), &o.offer_id, &s("alice.near"), true).unwrap_err(),
        MarketError::OfferMismatch
    );
    assert_eq!(c.get_offers_by_item(&s("nft.near:2")), vec![o]);
    assert_eq!(c.get_nfts(0, 10).total_count, 2);
}

#[test]
fn offer_that_is_not_the_price_is_not_accepted() {
    let mut c = market();
    let o = c.place_offer(&s("nft.near:2"), &s("bob.near"), 499).unwrap();
    assert_eq!(
        c.accept_offer(&s("nft.near:2"), &o.offer_id, &s("alice.near"), true).unwrap_err(),
        MarketError::PriceMismatch
    );
    assert_eq!(c.get_offers_by_item(&s("nft.near:2")), vec![o.clone()]);
    c.update_token_price(&s("nft.near"), &s("2"), 499, &s("alice.near")).unwrap();
    let p = c.accept_offer(&s("nft.near:2"), &o.offer_id, &s("alice.near"), false).unwrap();
    assert_eq!(p.settlement.price(), 499);
    assert_eq!(p.request.balance, None);
    assert!(p.refunds.is_empty());
}

#[test]
fn bought_record_is_the_one_that_was_listed() {
    let mut c = Contract::new();
    c.nft_on_approve(s("x"), s("alice.near"), 99, s("keeper.near"), 7).unwrap();
    let p = c.buy(&s("keeper.near"), &s("x"), true, &s("bob.near"), 7).unwrap();
    assert_eq!(p.request.nft_contract_id, "keeper.near");
    assert_eq!(p.request.approval_id, 99);
    assert!(c.get_nft(&s("keeper.near:x")).is_none());
    let relisted = c.nft_on_approve(s("x"), s("bob.near"), 100, s("keeper.near"), 8).unwrap();
    assert_eq!(
        c.get_nft(&relisted),
        Some(TokenData { owner_id: s("bob.near"), nft_contract_id: s("keeper.near"), token_id: s("x"), price: 8, approval_id: 100 })
    );
}
