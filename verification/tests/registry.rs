use service_book::error::InternError;
use service_book::identity::{ServiceIdentity, Session};
use service_book::registry::ServiceBook;
use std::time::{Duration, Instant};

fn id(protocol: &str, address: &str) -> ServiceIdentity {
    ServiceIdentity { protocol: protocol.to_string(), address: address.to_string() }
}

fn session(token: u128) -> Session {
    Session { token }
}

fn sorted(list: Option<Vec<String>>) -> Option<Vec<String>> {
    list.map(|mut list| {
        list.sort();
        list
    })
}

fn wait_a_little() {
    let start = Instant::now();
    while start.elapsed() < Duration::from_millis(60) {}
}

#[test]
fn second_registration_of_an_identity_is_turned_away() {
    let mut book = ServiceBook::new();
    let first = book.add_address(id("echo", "10.0.0.1:9"));
    assert!(first.is_some());
    assert_eq!(book.add_address(id("echo", "10.0.0.1:9")), None);
    assert_eq!(book.get("echo"), Some(vec!["10.0.0.1:9".to_string()]));
}

#[test]
fn ping_knows_live_sessions_only() {
    let mut book = ServiceBook::new();
    let live = book.add_address(id("echo", "10.0.0.1:9")).unwrap();
    assert!(book.ping(&live));
    let other = Session { token: live.token ^ 1 };
    assert!(!book.ping(&other));
    let stranger = ServiceBook::new().add_address(id("echo", "10.0.0.1:9")).unwrap();
    assert_ne!(stranger, live);
    assert!(!book.ping(&stranger));
    assert!(book.ping(&live));
}

#[test]
fn ping_of_an_empty_book_fails() {
    let mut book = ServiceBook::new();
    assert!(!book.ping_at(&session(7), 1));
    assert_eq!(book.get("echo"), None);
}

#[test]
fn sweep_takes_what_was_silent_for_too_long() {
    let mut book = ServiceBook::new();
    let first = book.add_address_at(id("echo", "10.0.0.1:9"), session(1), 1_000).unwrap();
    assert_eq!(first, session(1));
    book.clean_at(1_030, 30);
    assert_eq!(book.get("echo"), Some(vec!["10.0.0.1:9".to_string()]));
    book.clean_at(1_031, 30);
    assert_eq!(book.get("echo"), Some(vec![]));
    assert!(!book.ping_at(&first, 1_032));
    let again = book.add_address_at(id("echo", "10.0.0.1:9"), session(2), 1_033);
    assert_eq!(again, Some(session(2)));
    assert_ne!(again, Some(first));
    assert_eq!(book.get("echo"), Some(vec!["10.0.0.1:9".to_string()]));
}

#[test]
fn ping_puts_off_the_sweep() {
    let mut book = ServiceBook::new();
    let quiet = book.add_address_at(id("echo", "a:1"), session(1), 100).unwrap();
    let loud = book.add_address_at(id("echo", "b:2"), session(2), 100).unwrap();
    assert!(book.ping_at(&loud, 150));
    book.clean_at(160, 50);
    assert_eq!(book.get("echo"), Some(vec!["b:2".to_string()]));
    assert!(!book.ping_at(&quiet, 161));
    assert!(book.ping_at(&loud, 161));
}

#[test]
fn sweep_before_the_last_ping_takes_nothing() {
    let mut book = ServiceBook::new();
    book.add_address_at(id("echo", "a:1"), session(1), 500).unwrap();
    book.clean_at(100, 0);
    assert_eq!(book.get("echo"), Some(vec!["a:1".to_string()]));
    book.clean_at(500, 0);
    assert_eq!(book.get("echo"), Some(vec!["a:1".to_string()]));
    book.clean_at(501, 0);
    assert_eq!(book.get("echo"), Some(vec![]));
}

#[test]
fn protocols_do_not_see_each_other() {
    let mut book = ServiceBook::new();
    book.add_address_at(id("a", "10.0.0.1:1"), session(1), 0).unwrap();
    assert_eq!(book.get("b"), None);
    book.add_address_at(id("b", "10.0.0.2:2"), session(2), 0).unwrap();
    book.add_address_at(id("a", "10.0.0.3:3"), session(3), 0).unwrap();
    assert_eq!(book.get("b"), Some(vec!["10.0.0.2:2".to_string()]));
    assert_eq!(
        sorted(book.get("a")),
        Some(vec!["10.0.0.1:1".to_string(), "10.0.0.3:3".to_string()])
    );
}

#[test]
fn one_address_may_serve_two_protocols() {
    let mut book = ServiceBook::new();
    assert!(book.add_address_at(id("a", "host:1"), session(1), 0).is_some());
    assert!(book.add_address_at(id("b", "host:1"), session(2), 0).is_some());
    assert_eq!(book.add_address_at(id("a", "host:1"), session(3), 0), None);
    assert_eq!(book.get("a"), Some(vec!["host:1".to_string()]));
    assert_eq!(book.get("b"), Some(vec!["host:1".to_string()]));
}

#[test]
fn session_in_use_is_not_handed_out_again() {
    let mut book = ServiceBook::new();
    assert_eq!(book.add_address_at(id("a", "x:1"), session(9), 0), Some(session(9)));
    assert_eq!(book.add_address_at(id("a", "y:2"), session(9), 0), None);
    assert_eq!(book.get("a"), Some(vec!["x:1".to_string()]));
    assert_eq!(book.add_address_at(id("a", "y:2"), session(10), 0), Some(session(10)));
}

#[test]
fn sweep_takes_from_every_protocol() {
    let mut book = ServiceBook::new();
    book.add_address_at(id("a", "old:1"), session(1), 10).unwrap();
    book.add_address_at(id("a", "new:1"), session(2), 90).unwrap();
    book.add_address_at(id("b", "old:2"), session(3), 20).unwrap();
    book.add_address_at(id("c", "new:3"), session(4), 95).unwrap();
    book.clean_at(100, 50);
    assert_eq!(book.get("a"), Some(vec!["new:1".to_string()]));
    assert_eq!(book.get("b"), Some(vec![]));
    assert_eq!(book.get("c"), Some(vec!["new:3".to_string()]));
    assert_eq!(book.get("d"), None);
    assert!(!book.ping_at(&session(1), 100));
    assert!(book.ping_at(&session(2), 100));
    assert!(!book.ping_at(&session(3), 100));
    assert!(book.ping_at(&session(4), 100));
}

#[test]
fn random_sessions_differ() {
    let mut book = ServiceBook::new();
    let a = book.add_address(id("echo", "a:1")).unwrap();
    let b = book.add_address(id("echo", "b:2")).unwrap();
    assert_ne!(a, b);
    assert_eq!(sorted(book.get("echo")), Some(vec!["a:1".to_string(), "b:2".to_string()]));
}

#[test]
fn sweep_by_the_clock_keeps_what_is_fresh() {
    let mut book = ServiceBook::new();
    let live = book.add_address(id("echo", "10.0.0.1:9")).unwrap();
    book.clean(Duration::from_secs(3600).as_nanos());
    assert!(book.ping(&live));
    assert_eq!(book.get("echo"), Some(vec!["10.0.0.1:9".to_string()]));
}

#[test]
fn sweep_by_the_clock_takes_what_is_silent() {
    let mut book = ServiceBook::new();
    let gone = book.add_address(id("echo", "10.0.0.1:9")).unwrap();
    wait_a_little();
    book.clean(Duration::from_millis(1).as_nanos());
    assert!(!book.ping(&gone));
    assert_eq!(book.get("echo"), Some(vec![]));
    let again = book.add_address(id("echo", "10.0.0.1:9")).unwrap();
    assert_ne!(again, gone);
}

#[test]
fn ping_by_the_clock_puts_off_the_sweep() {
    let mut book = ServiceBook::new();
    let quiet = book.add_address(id("echo", "a:1")).unwrap();
    let loud = book.add_address(id("echo", "b:2")).unwrap();
    wait_a_little();
    assert!(book.ping(&loud));
    book.clean(Duration::from_millis(50).as_nanos());
    assert!(!book.ping(&quiet));
    assert!(book.ping(&loud));
}

#[test]
fn identities_compare_by_both_parts() {
    assert!(id("a", "b").same_as(&id("a", "b")));
    assert!(!id("a", "b").same_as(&id("a", "c")));
    assert!(!id("a", "b").same_as(&id("c", "b")));
    assert!(!id("ab", "").same_as(&id("a", "b")));
    assert_eq!(id("a", "b").duplicate(), id("a", "b"));
}

#[test]
fn lock_error_says_what_failed() {
    assert_eq!(InternError::LockError.to_string(), "Error in a lock");
}
