use nft_market::table::Table;
use nft_market::{Offer, TokenData};

fn s(text: &str) -> String {
    text.to_string()
}

#[test]
fn table_holds_one_value_for_a_key() {
    let mut t: Table<u64> = Table::new();
    assert_eq!(t.len(), 0);
    assert!(!t.contains_key(&s("a")));
    assert_eq!(t.get(&s("a")), None);
    t.insert(s("a"), 1);
    t.insert(s("b"), 2);
    t.insert(s("a"), 3);
    assert_eq!(t.len(), 2);
    assert_eq!(t.get(&s("a")), Some(&3));
    assert_eq!(t.get(&s("b")), Some(&2));
    assert_eq!(t.key_at(0), "a");
    assert_eq!(t.key_at(1), "b");
}

#[test]
fn table_gives_back_what_is_removed() {
    let mut t: Table<u64> = Table::new();
    t.insert(s("a"), 1);
    t.insert(s("b"), 2);
    t.insert(s("c"), 3);
    assert_eq!(t.remove(&s("b")), Some(2));
    assert_eq!(t.remove(&s("b")), None);
    assert_eq!(t.remove(&s("z")), None);
    assert_eq!(t.len(), 2);
    assert_eq!(t.get(&s("a")), Some(&1));
    assert_eq!(t.get(&s("c")), Some(&3));
    assert_eq!(t.key_at(1), "c");
    assert!(!t.contains_key(&s("b")));
    assert!(t.contains_key(&s("c")));
}

#[test]
fn keys_differ_by_any_character() {
    let mut t: Table<u64> = Table::new();
    t.insert(s("nft.near:1"), 1);
    t.insert(s("nft.near:10"), 10);
    t.insert(s(""), 0);
    assert_eq!(t.get(&s("nft.near:1")), Some(&1));
    assert_eq!(t.get(&s("nft.near:10")), Some(&10));
    assert_eq!(t.get(&s("")), Some(&0));
    assert_eq!(t.get(&s("nft.near:")), None);
}

#[test]
fn records_are_copied_field_by_field() {
    let d = TokenData { owner_id: s("alice.near"), nft_contract_id: s("nft.near"), token_id: s("1"), price: 5, approval_id: 9 };
    assert_eq!(d.clone(), d);
    let o = Offer { token_uid: s("nft.near:1"), offer_id: s("0"), price: 5, buyer_id: s("bob.near") };
    assert_eq!(o.clone(), o);
}
