use service_book::error::InternError;
use service_book::identity::{same_text, ServiceIdentity, Session};
use service_book::index::ProtocolIndex;
use service_book::known::KnownSet;
use std::sync::PoisonError;

fn id(protocol: &str, address: &str) -> ServiceIdentity {
    ServiceIdentity { protocol: protocol.to_string(), address: address.to_string() }
}

fn session(token: u128) -> Session {
    Session { token }
}

fn sorted<T: Ord>(mut list: Vec<T>) -> Vec<T> {
    list.sort();
    list
}

#[test]
fn known_set_holds_each_identity_once() {
    let mut known = KnownSet::new();
    assert!(!known.contains(&id("a", "x:1")));
    assert!(known.insert(id("a", "x:1")));
    assert!(known.contains(&id("a", "x:1")));
    assert!(!known.insert(id("a", "x:1")));
    assert!(known.insert(id("a", "x:2")));
    assert!(known.insert(id("b", "x:1")));
    assert!(known.remove(&id("a", "x:1")));
    assert!(!known.contains(&id("a", "x:1")));
    assert!(!known.remove(&id("a", "x:1")));
    assert!(known.contains(&id("a", "x:2")));
    assert!(known.contains(&id("b", "x:1")));
    assert!(known.insert(id("a", "x:1")));
}

#[test]
fn index_lists_the_addresses_of_a_protocol() {
    let mut index = ProtocolIndex::new();
    assert_eq!(index.get("a"), None);
    index.insert("a".to_string(), session(1), "x:1".to_string());
    index.insert("a".to_string(), session(2), "y:2".to_string());
    index.insert("b".to_string(), session(3), "z:3".to_string());
    assert_eq!(index.get("a").map(sorted), Some(vec!["x:1".to_string(), "y:2".to_string()]));
    assert_eq!(index.get("b"), Some(vec!["z:3".to_string()]));
    assert_eq!(index.get("c"), None);
    assert_eq!(index.get(""), None);
}

#[test]
fn index_keeps_one_address_for_each_session() {
    let mut index = ProtocolIndex::new();
    index.insert("a".to_string(), session(1), "old:1".to_string());
    index.insert("a".to_string(), session(1), "new:1".to_string());
    assert_eq!(index.get("a"), Some(vec!["new:1".to_string()]));
    index.insert("a".to_string(), session(2), "new:1".to_string());
    assert_eq!(index.get("a"), Some(vec!["new:1".to_string(), "new:1".to_string()]));
}

#[test]
fn index_keeps_the_bucket_of_a_protocol_that_nobody_serves() {
    let mut index = ProtocolIndex::new();
    index.insert("a".to_string(), session(1), "x:1".to_string());
    index.insert("a".to_string(), session(2), "y:2".to_string());
    index.remove("a", session(1));
    assert_eq!(index.get("a"), Some(vec!["y:2".to_string()]));
    index.remove("a", session(7));
    index.remove("b", session(2));
    assert_eq!(index.get("a"), Some(vec!["y:2".to_string()]));
    index.remove("a", session(2));
    assert_eq!(index.get("a"), Some(vec![]));
    assert_eq!(index.get("b"), None);
}

#[test]
fn index_knows_all_its_sessions() {
    let mut index = ProtocolIndex::new();
    assert_eq!(index.sessions(), vec![]);
    index.insert("a".to_string(), session(1), "x:1".to_string());
    index.insert("b".to_string(), session(3), "z:3".to_string());
    index.insert("a".to_string(), session(2), "y:2".to_string());
    let tokens: Vec<u128> = index.sessions().iter().map(|s| s.token).collect();
    assert_eq!(sorted(tokens), vec![1, 2, 3]);
    index.remove("a", session(1));
    let tokens: Vec<u128> = index.sessions().iter().map(|s| s.token).collect();
    assert_eq!(sorted(tokens), vec![2, 3]);
}

#[test]
fn texts_compare_by_their_characters() {
    assert!(same_text("", ""));
    assert!(same_text("echo", "echo"));
    assert!(!same_text("echo", "echo "));
    assert!(!same_text("echo", "ecno"));
    assert!(same_text("grüß", "grüß"));
    assert!(!same_text("grüß", "gruß"));
}

#[test]
fn poisoned_lock_is_a_lock_error() {
    let poisoned = PoisonError::new(7u8);
    assert_eq!(InternError::from(poisoned), InternError::LockError);
}
