use acmegen::{Duration, Instant, Record, RecordStore};

fn rec(sub: &str, txt: &str) -> Record {
    Record { subdomain: sub.to_string(), txt: txt.to_string() }
}

fn secs(s: u64) -> Instant {
    Instant::from_nanos(s as u128 * 1_000_000_000)
}

fn listed(store: &RecordStore) -> Vec<(String, String)> {
    let mut v: Vec<(String, String)> =
        store.entries().iter().map(|r| (r.subdomain.clone(), r.txt.clone())).collect();
    v.sort();
    v
}

#[test]
fn add_new_subdomain_reports_change() {
    let mut store = RecordStore::new(Duration::from_secs(600), false);
    assert!(store.add(rec("foo", "abc"), secs(0)));
    assert!(store.add(rec("bar", "abc"), secs(1)));
    assert_eq!(store.len(), 2);
}

#[test]
fn add_same_content_is_refresh_only() {
    let mut store = RecordStore::new(Duration::from_secs(100), false);
    assert!(store.add(rec("foo", "abc"), secs(0)));
    // refreshed at 150, when the entry was 150 s old
    assert!(!store.add(rec("foo", "abc"), secs(150)));
    assert_eq!(store.purge_old(secs(200)), 0);
    assert_eq!(listed(&store), vec![("foo".to_string(), "abc".to_string())]);
}

#[test]
fn refresh_restarts_clock_at_pre_refresh_age() {
    let mut store = RecordStore::new(Duration::from_secs(150), false);
    store.add(rec("foo", "abc"), secs(0));
    assert!(!store.add(rec("foo", "abc"), secs(150)));
    assert_eq!(store.purge_old(secs(300)), 0);
    assert_eq!(store.purge_old(secs(301)), 1);
}

#[test]
fn add_other_content_replaces() {
    let mut store = RecordStore::new(Duration::from_secs(600), false);
    store.add(rec("foo", "abc"), secs(0));
    assert!(store.add(rec("foo", "xyz"), secs(1)));
    assert_eq!(listed(&store), vec![("foo".to_string(), "xyz".to_string())]);
}

#[test]
fn purge_removes_exactly_stale_entries() {
    let mut store = RecordStore::new(Duration::from_secs(10), false);
    store.add(rec("a", "1"), secs(0));
    store.add(rec("b", "2"), secs(5));
    store.add(rec("c", "3"), secs(10));
    // ages at 20: 20, 15, 10; only those over 10 go
    assert_eq!(store.purge_old(secs(20)), 2);
    assert_eq!(listed(&store), vec![("c".to_string(), "3".to_string())]);
    assert_eq!(store.purge_old(secs(20)), 0);
}

#[test]
fn purge_age_equal_to_threshold_is_kept() {
    let mut store = RecordStore::new(Duration::from_secs(10), false);
    store.add(rec("a", "1"), secs(0));
    assert_eq!(store.purge_old(secs(10)), 0);
    assert_eq!(store.purge_old(Instant::from_nanos(10_000_000_001)), 1);
}

#[test]
fn purge_on_empty_store() {
    let mut store = RecordStore::new(Duration::from_secs(0), true);
    assert_eq!(store.purge_old(secs(1000)), 0);
    assert_eq!(store.len(), 0);
    assert!(store.entries().is_empty());
    assert!(store.verbose());
}

#[test]
fn purge_expired_names_removed() {
    let mut store = RecordStore::new(Duration::from_secs(1), false);
    store.add(rec("a", "1"), secs(0));
    store.add(rec("b", "2"), secs(5));
    let removed = store.purge_expired(secs(5));
    assert_eq!(removed, vec!["a".to_string()]);
    assert!(!store.contains(&"a".to_string()));
    assert!(store.contains(&"b".to_string()));
}

#[test]
fn end_to_end_add_refresh_change_expire() {
    let mut store = RecordStore::new(Duration::from_secs(600), false);
    assert!(store.add(rec("foo", "abc"), secs(0)));
    assert!(!store.add(rec("foo", "abc"), secs(0)));
    assert!(store.add(rec("foo", "xyz"), secs(0)));
    assert_eq!(store.purge_old(secs(601)), 1);
    assert!(store.entries().iter().all(|r| r.subdomain != "foo"));
}

#[test]
fn clock_before_last_refresh_counts_as_age_zero() {
    let mut store = RecordStore::new(Duration::from_secs(0), false);
    store.add(rec("a", "1"), secs(10));
    assert_eq!(store.purge_old(secs(5)), 0);
    assert_eq!(store.threshold(), Duration::from_secs(0));
}
