use nft_market::offers::{mint_offer_id, offer_number};
use nft_market::utils::{contains_uid, token_uid, UID_DELIMITER};
use nft_market::{delete_from_vector_by_offer_id, delete_from_vector_by_uid, Offer};

fn uids(items: &[&str]) -> Vec<String> {
    items.iter().map(|s| s.to_string()).collect()
}

fn offer(id: &str, uid: &str, price: u128, buyer: &str) -> Offer {
    Offer { token_uid: uid.to_string(), offer_id: id.to_string(), price, buyer_id: buyer.to_string() }
}

#[test]
fn uid_joins_address_and_item_with_the_delimiter() {
    assert_eq!(UID_DELIMITER, ":");
    assert_eq!(token_uid(&"nft.near".to_string(), &"42".to_string()), "nft.near:42");
    assert_eq!(token_uid(&"".to_string(), &"".to_string()), ":");
    assert_eq!(token_uid(&"a".to_string(), &"b:c".to_string()), "a:b:c");
}

#[test]
fn delete_by_uid_takes_the_element_and_keeps_the_order() {
    let mut v = uids(&["a", "b", "c", "d"]);
    assert_eq!(delete_from_vector_by_uid(&mut v, &"b".to_string()), Some("b".to_string()));
    assert_eq!(v, uids(&["a", "c", "d"]));
    assert_eq!(delete_from_vector_by_uid(&mut v, &"d".to_string()), Some("d".to_string()));
    assert_eq!(v, uids(&["a", "c"]));
    assert_eq!(delete_from_vector_by_uid(&mut v, &"a".to_string()), Some("a".to_string()));
    assert_eq!(v, uids(&["c"]));
}

#[test]
fn delete_by_uid_of_an_absent_element_changes_nothing() {
    let mut v = uids(&["a", "b"]);
    assert_eq!(delete_from_vector_by_uid(&mut v, &"z".to_string()), None);
    assert_eq!(v, uids(&["a", "b"]));
    let mut empty: Vec<String> = Vec::new();
    assert_eq!(delete_from_vector_by_uid(&mut empty, &"z".to_string()), None);
    assert!(empty.is_empty());
}

#[test]
fn delete_by_uid_takes_the_last_of_equal_elements() {
    let mut v = uids(&["a", "b", "a", "c"]);
    assert_eq!(delete_from_vector_by_uid(&mut v, &"a".to_string()), Some("a".to_string()));
    assert_eq!(v, uids(&["a", "b", "c"]));
}

#[test]
fn delete_by_offer_id_takes_the_offer_and_keeps_the_order() {
    let mut v = vec![offer("0", "n:1", 5, "x.near"), offer("1", "n:1", 6, "y.near"), offer("2", "n:2", 7, "x.near")];
    let taken = delete_from_vector_by_offer_id(&mut v, &"1".to_string());
    assert_eq!(taken, Some(offer("1", "n:1", 6, "y.near")));
    assert_eq!(v, vec![offer("0", "n:1", 5, "x.near"), offer("2", "n:2", 7, "x.near")]);
    assert_eq!(delete_from_vector_by_offer_id(&mut v, &"1".to_string()), None);
    assert_eq!(v.len(), 2);
}

#[test]
fn membership_is_by_equal_text() {
    let v = uids(&["a", "b"]);
    assert!(contains_uid(&v, &"a".to_string()));
    assert!(contains_uid(&v, &"b".to_string()));
    assert!(!contains_uid(&v, &"c".to_string()));
    assert!(!contains_uid(&Vec::new(), &"a".to_string()));
}

#[test]
fn offer_ids_are_decimal_counts() {
    assert_eq!(mint_offer_id(0), "0");
    assert_eq!(mint_offer_id(7), "7");
    assert_eq!(mint_offer_id(10), "10");
    assert_eq!(mint_offer_id(1_234_567_890), "1234567890");
    assert_eq!(mint_offer_id(u64::MAX), "18446744073709551615");
}

#[test]
fn offer_number_reads_what_was_minted_and_nothing_else() {
    assert_eq!(offer_number(&"0".to_string()), Some(0));
    assert_eq!(offer_number(&"42".to_string()), Some(42));
    assert_eq!(offer_number(&"18446744073709551615".to_string()), Some(u64::MAX));
    assert_eq!(offer_number(&"18446744073709551616".to_string()), None);
    assert_eq!(offer_number(&"".to_string()), None);
    assert_eq!(offer_number(&"007".to_string()), None);
    assert_eq!(offer_number(&"4x".to_string()), None);
    assert_eq!(offer_number(&"-1".to_string()), None);
    assert_eq!(offer_number(&"١".to_string()), None);
}
