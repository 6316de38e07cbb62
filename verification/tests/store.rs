use staking::store::StorageMap;

#[test]
fn store_keeps_keys_in_order() {
    let mut m: StorageMap<u64> = StorageMap::new();
    assert_eq!(m.len(), 0);
    m.insert(5, 50);
    m.insert(1, 10);
    m.insert(9, 90);
    m.insert(3, 30);
    assert_eq!(m.len(), 4);
    assert_eq!(
        (0..4).map(|i| (m.key_at(i), *m.value_at(i))).collect::<Vec<_>>(),
        vec![(1, 10), (3, 30), (5, 50), (9, 90)]
    );
}

#[test]
fn store_insert_replaces() {
    let mut m: StorageMap<u64> = StorageMap::new();
    m.insert(5, 50);
    m.insert(5, 51);
    assert_eq!(m.len(), 1);
    assert_eq!(m.get(5), Some(&51));
}

#[test]
fn store_get_and_contains() {
    let mut m: StorageMap<u64> = StorageMap::new();
    m.insert(2, 20);
    m.insert(4, 40);
    assert!(m.contains_key(2));
    assert!(!m.contains_key(3));
    assert_eq!(m.get(4), Some(&40));
    assert_eq!(m.get(0), None);
    assert_eq!(m.get(5), None);
}

#[test]
fn store_remove() {
    let mut m: StorageMap<u64> = StorageMap::new();
    m.insert(2, 20);
    m.insert(4, 40);
    m.insert(6, 60);
    assert_eq!(m.remove(4), Some(40));
    assert_eq!(m.remove(4), None);
    assert_eq!(m.len(), 2);
    assert_eq!(m.key_at(0), 2);
    assert_eq!(m.key_at(1), 6);
    assert_eq!(m.remove(2), Some(20));
    assert_eq!(m.remove(6), Some(60));
    assert_eq!(m.len(), 0);
}
