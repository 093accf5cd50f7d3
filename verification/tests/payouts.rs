use nft_market::payout::{check_payouts, settle, treasury_fee, Payout, Transfer, TREASURY_FEE, TREASURY_ID};

fn split(lines: &[(&str, u128)]) -> Payout {
    let mut p = Payout::new();
    for (who, amount) in lines {
        p.insert(who.to_string(), *amount);
    }
    p
}

fn pay(who: &str, amount: u128) -> Transfer {
    Transfer { receiver_id: who.to_string(), amount }
}

#[test]
fn fee_is_two_hundred_ten_thousandths_rounded_down() {
    assert_eq!(TREASURY_FEE, 200);
    assert_eq!(treasury_fee(0), 0);
    assert_eq!(treasury_fee(1), 0);
    assert_eq!(treasury_fee(49), 0);
    assert_eq!(treasury_fee(50), 1);
    assert_eq!(treasury_fee(99), 1);
    assert_eq!(treasury_fee(100), 2);
    assert_eq!(treasury_fee(1_000_000), 20_000);
    assert_eq!(treasury_fee(1_000_049), 20_000);
    assert_eq!(treasury_fee(10u128.pow(24)), 2 * 10u128.pow(22));
}

#[test]
fn fee_of_the_largest_price_does_not_overflow() {
    assert_eq!(treasury_fee(u128::MAX), u128::MAX / 50);
}

#[test]
fn split_that_sums_to_the_price_is_accepted() {
    let p = check_payouts(1_000_000, split(&[("alice.near", 900_000), ("bob.near", 100_000)])).unwrap();
    assert_eq!(p.len(), 2);
    assert_eq!(p.get(&"alice.near".to_string()), Some(900_000));
    assert_eq!(p.get(&"bob.near".to_string()), Some(100_000));
}

#[test]
fn split_one_unit_short_is_accepted() {
    assert!(check_payouts(1_000_000, split(&[("alice.near", 899_999), ("bob.near", 100_000)])).is_some());
    assert!(check_payouts(1, split(&[])).is_some());
    assert!(check_payouts(0, split(&[])).is_some());
}

#[test]
fn split_two_units_short_is_refused() {
    assert!(check_payouts(1_000_000, split(&[("alice.near", 899_998), ("bob.near", 100_000)])).is_none());
    assert!(check_payouts(2, split(&[])).is_none());
}

#[test]
fn split_over_the_price_is_refused() {
    assert!(check_payouts(1_000_000, split(&[("alice.near", 900_001), ("bob.near", 100_000)])).is_none());
    assert!(check_payouts(0, split(&[("alice.near", 1)])).is_none());
}

#[test]
fn split_whose_sum_is_beyond_the_largest_number_is_refused() {
    assert!(check_payouts(u128::MAX, split(&[("alice.near", u128::MAX), ("bob.near", u128::MAX)])).is_none());
    assert!(check_payouts(u128::MAX, split(&[("alice.near", u128::MAX)])).is_some());
}

#[test]
fn insert_replaces_the_line_of_a_recipient() {
    let mut p = Payout::new();
    assert_eq!(p.insert("alice.near".to_string(), 5), None);
    assert_eq!(p.insert("bob.near".to_string(), 6), None);
    assert_eq!(p.insert("alice.near".to_string(), 7), Some(5));
    assert_eq!(p.len(), 2);
    assert_eq!(p.entry(0).receiver_id, "alice.near");
    assert_eq!(p.entry(0).amount, 7);
    assert_eq!(p.entry(1).receiver_id, "bob.near");
    assert_eq!(p.get(&"alice.near".to_string()), Some(7));
}

#[test]
fn sale_with_a_royalty_pays_seller_royalty_and_treasury() {
    let seller = "alice.near".to_string();
    let paid = settle(1_000_000, &seller, Some(split(&[("alice.near", 900_000), ("royalty.near", 100_000)])));
    assert_eq!(paid, vec![pay("alice.near", 880_000), pay(TREASURY_ID, 20_000), pay("royalty.near", 100_000)]);
    let sum: u128 = paid.iter().map(|t| t.amount).sum();
    assert_eq!(sum, 1_000_000);
}

#[test]
fn fee_comes_out_of_the_seller_alone_wherever_its_line_stands() {
    let seller = "alice.near".to_string();
    let paid = settle(
        1_000,
        &seller,
        Some(split(&[("r1.near", 100), ("alice.near", 800), ("r2.near", 99)])),
    );
    assert_eq!(
        paid,
        vec![pay("r1.near", 100), pay("alice.near", 780), pay(TREASURY_ID, 20), pay("r2.near", 99)]
    );
}

#[test]
fn sale_without_a_split_pays_seller_and_treasury_the_price() {
    let seller = "alice.near".to_string();
    let paid = settle(1_000_000, &seller, None);
    assert_eq!(paid, vec![pay("alice.near", 980_000), pay(TREASURY_ID, 20_000)]);
    let paid = settle(49, &seller, None);
    assert_eq!(paid, vec![pay("alice.near", 49), pay(TREASURY_ID, 0)]);
    let paid = settle(0, &seller, None);
    assert_eq!(paid, vec![pay("alice.near", 0), pay(TREASURY_ID, 0)]);
}

#[test]
fn sale_with_a_refused_split_falls_back() {
    let seller = "alice.near".to_string();
    let over = settle(1_000, &seller, Some(split(&[("alice.near", 1_000), ("bob.near", 1)])));
    assert_eq!(over, vec![pay("alice.near", 980), pay(TREASURY_ID, 20)]);
    let short = settle(1_000, &seller, Some(split(&[("alice.near", 900), ("bob.near", 98)])));
    assert_eq!(short, vec![pay("alice.near", 980), pay(TREASURY_ID, 20)]);
}

#[test]
fn split_without_a_line_for_the_seller_falls_back() {
    let seller = "alice.near".to_string();
    let paid = settle(1_000, &seller, Some(split(&[("bob.near", 1_000)])));
    assert_eq!(paid, vec![pay("alice.near", 980), pay(TREASURY_ID, 20)]);
    let free = settle(10, &seller, Some(split(&[("bob.near", 10)])));
    assert_eq!(free, vec![pay("alice.near", 10), pay(TREASURY_ID, 0)]);
}

#[test]
fn split_whose_seller_line_is_under_the_fee_falls_back() {
    let seller = "alice.near".to_string();
    let paid = settle(1_000, &seller, Some(split(&[("alice.near", 19), ("bob.near", 981)])));
    assert_eq!(paid, vec![pay("alice.near", 980), pay(TREASURY_ID, 20)]);
    let exact = settle(1_000, &seller, Some(split(&[("alice.near", 20), ("bob.near", 980)])));
    assert_eq!(exact, vec![pay("alice.near", 0), pay(TREASURY_ID, 20), pay("bob.near", 980)]);
}

#[test]
fn split_one_unit_short_pays_one_unit_less_than_the_price() {
    let seller = "alice.near".to_string();
    let paid = settle(1_000, &seller, Some(split(&[("alice.near", 899), ("bob.near", 100)])));
    assert_eq!(paid, vec![pay("alice.near", 879), pay(TREASURY_ID, 20), pay("bob.near", 100)]);
    let sum: u128 = paid.iter().map(|t| t.amount).sum();
    assert_eq!(sum, 999);
}

#[test]
fn treasury_with_a_line_of_its_own_is_paid_that_line_and_the_fee() {
    let seller = "alice.near".to_string();
    let paid = settle(1_000, &seller, Some(split(&[("alice.near", 900), (TREASURY_ID, 100)])));
    assert_eq!(paid, vec![pay("alice.near", 880), pay(TREASURY_ID, 20), pay(TREASURY_ID, 100)]);
}
