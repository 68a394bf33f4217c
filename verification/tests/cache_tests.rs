use conformulator::cache::CacheItem;
use conformulator::cache::Cacheit;

#[test]
fn set_followed_by_get_returns_value() {
    let mut cache = Cacheit::new();
    cache.set("report", "payload", 5, 100);
    assert_eq!(cache.get("report", 100), Some(String::from("payload")));
}

#[test]
fn get_within_ttl_returns_value() {
    let mut cache = Cacheit::new();
    cache.set("report", "payload", 5, 100);
    assert_eq!(cache.get("report", 103), Some(String::from("payload")));
    assert_eq!(cache.get("report", 105), Some(String::from("payload")));
}

#[test]
fn get_after_ttl_elapsed_returns_nothing() {
    let mut cache = Cacheit::new();
    cache.set("report", "payload", 5, 100);
    assert_eq!(cache.get("report", 106), None);
    assert_eq!(cache.get("report", 1000), None);
}

#[test]
fn get_on_missing_key_returns_nothing() {
    let cache = Cacheit::new();
    assert_eq!(cache.get("absent", 0), None);
}

#[test]
fn overwrite_returns_second_value_never_first() {
    let mut cache = Cacheit::new();
    cache.set("k", "v1", 10, 100);
    cache.set("k", "v2", 10, 101);
    assert_eq!(cache.get("k", 102), Some(String::from("v2")));
    assert_eq!(cache.get("k", 111), Some(String::from("v2")));
    assert_eq!(cache.get("k", 112), None);
}

#[test]
fn expiry_is_a_predicate_not_a_deletion() {
    let mut cache = Cacheit::new();
    cache.set("k", "v", 5, 100);
    // An expiry-aware read past the deadline misses ...
    assert_eq!(cache.get("k", 200), None);
    // ... but the entry is still there: a read at a fresh clock sees it.
    assert_eq!(cache.get("k", 104), Some(String::from("v")));
}

#[test]
fn keys_are_independent() {
    let mut cache = Cacheit::new();
    cache.set("a", "1", 5, 100);
    cache.set("b", "2", 50, 100);
    assert_eq!(cache.get("a", 103), Some(String::from("1")));
    assert_eq!(cache.get("b", 103), Some(String::from("2")));
    assert_eq!(cache.get("a", 120), None);
    assert_eq!(cache.get("b", 120), Some(String::from("2")));
}

#[test]
fn cache_item_expiry_boundary() {
    let item = CacheItem::new("v", 5, 100);
    assert!(!item.is_expired(100));
    assert!(!item.is_expired(105));
    assert!(item.is_expired(106));
}
