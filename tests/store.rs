use minikv::store::Store;

#[test]
fn overwrite_without_ttl_never_expires() {
    let mut store = Store::new();
    let k = "k".to_string();
    store.put(k.clone(), "v1".to_string(), Some(100), 0);
    store.put(k.clone(), "v2".to_string(), None, 10);
    assert_eq!(store.get(&k, 50), Some(&"v2".to_string()));
    assert_eq!(store.get(&k, 1_000_000), Some(&"v2".to_string()));
}

#[test]
fn last_set_wins() {
    let mut store = Store::new();
    let k = "k".to_string();
    for v in ["a", "b", "c"] {
        store.put(k.clone(), v.to_string(), None, 0);
    }
    assert_eq!(store.get(&k, 0), Some(&"c".to_string()));
}

#[test]
fn ttl_boundaries() {
    let mut store = Store::new();
    let k = "k".to_string();
    store.put(k.clone(), "v".to_string(), Some(100), 1000);
    assert_eq!(store.get(&k, 1099), Some(&"v".to_string()));
    assert_eq!(store.get(&k, 1100), None);
    assert_eq!(store.get(&k, 1101), None);
}

#[test]
fn largest_ttl_does_not_overflow() {
    let mut store = Store::new();
    let k = "k".to_string();
    store.put(k.clone(), "v".to_string(), Some(u64::MAX), u64::MAX);
    assert_eq!(store.get(&k, u64::MAX), Some(&"v".to_string()));
    store.put(k.clone(), "v".to_string(), Some(0), 7);
    assert_eq!(store.get(&k, 7), None);
}

#[test]
fn keys_are_independent() {
    let mut store = Store::new();
    store.put("a".to_string(), "1".to_string(), None, 0);
    store.put("b".to_string(), "2".to_string(), Some(5), 0);
    assert_eq!(store.get(&"a".to_string(), 10), Some(&"1".to_string()));
    assert_eq!(store.get(&"b".to_string(), 10), None);
    assert_eq!(store.get(&"c".to_string(), 0), None);
}
