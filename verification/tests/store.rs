use gossip_broadcast::store::ValueStore;

#[test]
fn new_store_is_empty() {
    let store = ValueStore::new();
    assert_eq!(store.len(), 0);
    assert!(store.snapshot().is_empty());
    assert!(!store.contains(0));
}

#[test]
fn test_and_insert_reports_prior_presence() {
    let mut store = ValueStore::new();
    assert!(!store.test_and_insert(42));
    assert!(store.contains(42));
    assert!(store.test_and_insert(42));
    assert_eq!(store.len(), 1);
}

#[test]
fn repeated_insert_leaves_one_entry() {
    let mut store = ValueStore::new();
    store.test_and_insert(7);
    store.test_and_insert(7);
    store.test_and_insert(7);
    assert_eq!(store.snapshot(), vec![7]);
}

#[test]
fn snapshot_is_a_copy() {
    let mut store = ValueStore::new();
    store.test_and_insert(1);
    let before = store.snapshot();
    store.test_and_insert(2);
    assert_eq!(before, vec![1]);
    let mut after = store.snapshot();
    after.sort();
    assert_eq!(after, vec![1, 2]);
}

#[test]
fn membership_is_monotone() {
    let mut store = ValueStore::new();
    let values: Vec<i64> = vec![5, -3, 0, i64::MAX, i64::MIN];
    for (k, v) in values.iter().enumerate() {
        store.test_and_insert(*v);
        for seen in values.iter().take(k + 1) {
            assert!(store.contains(*seen));
        }
    }
    assert_eq!(store.len(), values.len());
}
