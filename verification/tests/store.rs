//! The shared state store: get/set, expiry, the purge worker's scan, and
//! the worker wake-up rule.

use my_mini_redis::db::Db;

#[test]
fn key_value_get_set() {
    let mut db = Db::new();
    db.set("foo".to_string(), b"bar".to_vec(), None);
    let value = db.get("foo").unwrap();
    assert_eq!(b"bar", &value[..]);
}

#[test]
fn get_of_never_set_key_is_none() {
    let db = Db::new();
    assert!(db.get("missing").is_none());
}

#[test]
fn set_replaces_value_and_lifetime() {
    let mut db = Db::new();
    db.set("k".to_string(), b"one".to_vec(), Some(50));
    db.set("k".to_string(), b"two".to_vec(), None);
    // the old expiry was discarded with the old entry
    assert_eq!(db.purge_expired_keys(1_000), None);
    assert_eq!(db.get("k").unwrap(), b"two".to_vec());
}

#[test]
fn ttl_expiry_purges_the_key() {
    let mut db = Db::new();
    db.set("foo".to_string(), b"bar".to_vec(), Some(50));
    assert_eq!(db.get("foo").unwrap(), b"bar".to_vec());
    assert_eq!(db.purge_expired_keys(200), None);
    assert!(db.get("foo").is_none());
}

#[test]
fn past_due_value_remains_until_the_purge_worker_runs() {
    let mut db = Db::new();
    db.set("foo".to_string(), b"bar".to_vec(), Some(0));
    // not yet purged: the read still sees it
    assert_eq!(db.get("foo").unwrap(), b"bar".to_vec());
    db.purge_expired_keys(1);
    assert!(db.get("foo").is_none());
}

#[test]
fn purge_reports_the_next_deadline_and_spares_later_entries() {
    let mut db = Db::new();
    db.set("a".to_string(), b"1".to_vec(), Some(10));
    db.set("b".to_string(), b"2".to_vec(), Some(300));
    assert_eq!(db.next_expiration(), Some(10));
    assert_eq!(db.purge_expired_keys(100), Some(300));
    assert!(db.get("a").is_none());
    assert_eq!(db.get("b").unwrap(), b"2".to_vec());
}

#[test]
fn set_wakes_the_worker_exactly_when_the_deadline_moves_up() {
    let mut db = Db::new();
    // empty index: any expiry is the new earliest
    assert!(db.set("a".to_string(), b"1".to_vec(), Some(500)));
    // later than the current earliest: no wake
    assert!(!db.set("b".to_string(), b"2".to_vec(), Some(900)));
    // earlier: wake
    assert!(db.set("c".to_string(), b"3".to_vec(), Some(100)));
    // no expiry: never a wake
    assert!(!db.set("d".to_string(), b"4".to_vec(), None));
}

#[test]
fn shutdown_stops_the_purge_scan() {
    let mut db = Db::new();
    db.set("foo".to_string(), b"bar".to_vec(), Some(1));
    db.shutdown_purge_task();
    assert!(db.is_shutdown());
    assert_eq!(db.purge_expired_keys(100), None);
    // nothing was purged under shutdown
    assert_eq!(db.get("foo").unwrap(), b"bar".to_vec());
}
