use nft_market::migrate::UserUids;
use nft_market::table::Table;
use nft_market::Contract;

fn uids(items: &[&str]) -> Vec<String> {
    items.iter().map(|s| s.to_string()).collect()
}

fn user(owner: &str, items: &[&str]) -> UserUids {
    UserUids { owner_id: owner.to_string(), uids: uids(items) }
}

#[test]
fn listings_move_a_window_at_a_time() {
    let old = uids(&["a", "b", "c", "d", "e"]);
    let mut set: Vec<String> = Vec::new();
    Contract::migrate_listings(&old, &mut set, 0, 2);
    assert_eq!(set, uids(&["a", "b"]));
    Contract::migrate_listings(&old, &mut set, 2, 2);
    assert_eq!(set, uids(&["a", "b", "c", "d"]));
    Contract::migrate_listings(&old, &mut set, 4, 2);
    assert_eq!(set, uids(&["a", "b", "c", "d", "e"]));
}

#[test]
fn listings_that_the_set_holds_are_not_added_again() {
    let old = uids(&["a", "b", "a", "c"]);
    let mut set = uids(&["c"]);
    Contract::migrate_listings(&old, &mut set, 0, 10);
    assert_eq!(set, uids(&["c", "a", "b"]));
    Contract::migrate_listings(&old, &mut set, 1, 2);
    assert_eq!(set, uids(&["c", "a", "b"]));
}

#[test]
fn window_behind_the_end_moves_nothing() {
    let old = uids(&["a", "b"]);
    let mut set: Vec<String> = Vec::new();
    Contract::migrate_listings(&old, &mut set, 2, 5);
    assert!(set.is_empty());
    Contract::migrate_listings(&old, &mut set, 7, 5);
    assert!(set.is_empty());
    Contract::migrate_listings(&old, &mut set, 0, 0);
    assert!(set.is_empty());
    Contract::migrate_listings(&old, &mut set, u64::MAX, usize::MAX);
    assert!(set.is_empty());
    Contract::migrate_listings(&old, &mut set, 1, usize::MAX);
    assert_eq!(set, uids(&["b"]));
}

#[test]
fn users_move_a_window_of_users_and_of_their_items() {
    let old = vec![user("alice.near", &["a1", "a2", "a3"]), user("bob.near", &["b1"]), user("carol.near", &["c1", "c2"])];
    let mut index: Table<Vec<String>> = Table::new();
    Contract::migrate_users_uids(&old, &mut index, 0, 2, 0, 2);
    assert_eq!(index.get(&"alice.near".to_string()), Some(&uids(&["a1", "a2"])));
    assert_eq!(index.get(&"bob.near".to_string()), Some(&uids(&["b1"])));
    assert_eq!(index.get(&"carol.near".to_string()), None);
    Contract::migrate_users_uids(&old, &mut index, 0, 2, 2, 2);
    assert_eq!(index.get(&"alice.near".to_string()), Some(&uids(&["a1", "a2", "a3"])));
    assert_eq!(index.get(&"bob.near".to_string()), Some(&uids(&["b1"])));
    Contract::migrate_users_uids(&old, &mut index, 2, 2, 0, 2);
    assert_eq!(index.get(&"carol.near".to_string()), Some(&uids(&["c1", "c2"])));
    assert_eq!(index.len(), 3);
    assert_eq!(index.key_at(0), "alice.near");
}

#[test]
fn user_in_the_window_without_items_gets_an_empty_set() {
    let old = vec![user("alice.near", &[])];
    let mut index: Table<Vec<String>> = Table::new();
    Contract::migrate_users_uids(&old, &mut index, 0, 1, 0, 5);
    assert_eq!(index.get(&"alice.near".to_string()), Some(&Vec::new()));
    assert!(index.contains_key(&"alice.near".to_string()));
    assert_eq!(index.remove(&"alice.near".to_string()), Some(Vec::new()));
    assert_eq!(index.len(), 0);
}
