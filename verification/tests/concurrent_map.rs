use clashmap::ConcurrentOrderedHashMap;

#[test]
fn concurrent_map_insert_then_replace() {
    // Re-inserting a key returns the first value, stores the second,
    // and leaves the length alone.
    let mut map: ConcurrentOrderedHashMap<&str> = ConcurrentOrderedHashMap::new();
    assert_eq!(map.insert_back(10, "v1"), None);
    assert_eq!(map.insert_back(10, "v2"), Some("v1"));
    let acc = map.get(10).unwrap();
    assert_eq!(map.read(&acc), &"v2");
    assert_eq!(map.len(), 1);
}

#[test]
fn concurrent_map_remove_absent_key() {
    let mut map: ConcurrentOrderedHashMap<i32> = ConcurrentOrderedHashMap::new();
    map.insert_back(1, 1);
    assert_eq!(map.remove(99), None);
    assert_eq!(map.len(), 1);
}

#[test]
fn concurrent_map_iteration_order() {
    let mut map: ConcurrentOrderedHashMap<&str> = ConcurrentOrderedHashMap::new();
    map.insert_back(1, "one");
    map.insert_back(2, "two");
    map.insert_back(3, "three");
    {
        let pairs = map.iterate();
        let keys: Vec<u64> = pairs.iter().map(|p| p.0).collect();
        assert_eq!(keys, vec![1, 2, 3]);
        assert_eq!(*pairs[1].1, "two");
    }
    map.remove(2);
    {
        let pairs = map.iterate();
        let keys: Vec<u64> = pairs.iter().map(|p| p.0).collect();
        assert_eq!(keys, vec![1, 3]);
    }
    // a replacement does not move the key
    map.insert_back(1, "uno");
    let pairs = map.iterate();
    let keys: Vec<u64> = pairs.iter().map(|p| p.0).collect();
    assert_eq!(keys, vec![1, 3]);
    assert_eq!(*pairs[0].1, "uno");
}

#[test]
fn concurrent_map_capacity_and_reserve() {
    let map: ConcurrentOrderedHashMap<i32> = ConcurrentOrderedHashMap::with_capacity(100);
    assert!(map.capacity() >= 100);
    let mut map: ConcurrentOrderedHashMap<i32> = ConcurrentOrderedHashMap::new();
    map.insert_back(1, 1);
    map.reserve(25);
    assert!(map.capacity() - map.len() >= 25);
}

#[test]
fn concurrent_map_disjoint_ranges_lose_nothing() {
    // Two disjoint key ranges inserted in turn: the length is the
    // total count and every key is retrievable afterwards.
    let mut map: ConcurrentOrderedHashMap<u64> = ConcurrentOrderedHashMap::new();
    for k in 0..50u64 {
        assert_eq!(map.insert_back(k, k), None);
    }
    for k in 1000..1050u64 {
        assert_eq!(map.insert_back(k, k), None);
    }
    assert_eq!(map.len(), 100);
    for k in 0..50u64 {
        let acc = map.get(k).unwrap();
        assert_eq!(*map.read(&acc), k);
    }
    for k in 1000..1050u64 {
        let acc = map.get(k).unwrap();
        assert_eq!(*map.read(&acc), k);
    }
}

#[test]
fn concurrent_map_accessor_survives_resize() {
    // A handle taken before the table grows still reads the same
    // value afterwards: entries never move in the arena.
    let mut map: ConcurrentOrderedHashMap<&str> = ConcurrentOrderedHashMap::new();
    map.insert_back(42, "stable");
    let acc = map.get(42).unwrap();
    map.reserve(1000);
    assert!(map.capacity() >= 1000);
    assert_eq!(map.read(&acc), &"stable");
}

#[test]
fn concurrent_map_colliding_cluster() {
    let mut map: ConcurrentOrderedHashMap<u64> = ConcurrentOrderedHashMap::with_capacity(8);
    let raw = 2 * 8;
    for i in 0..6u64 {
        map.insert_back(i * raw, i);
    }
    map.remove(2 * raw);
    for i in 0..6u64 {
        if i == 2 {
            assert!(map.get(i * raw).is_none());
        } else {
            let acc = map.get(i * raw).unwrap();
            assert_eq!(*map.read(&acc), i);
        }
    }
    let pairs = map.iterate();
    let keys: Vec<u64> = pairs.iter().map(|p| p.0).collect();
    assert_eq!(keys, vec![0, raw, 3 * raw, 4 * raw, 5 * raw]);
}

#[test]
fn concurrent_map_clear_and_is_empty() {
    let mut map: ConcurrentOrderedHashMap<i32> = ConcurrentOrderedHashMap::new();
    assert!(map.is_empty());
    map.insert_back(1, 1);
    assert!(!map.is_empty());
    map.clear();
    assert!(map.is_empty());
    assert_eq!(map.iterate().len(), 0);
    assert_eq!(map.get(1).is_none(), true);
}

#[test]
fn concurrent_map_remove_front_back_and_reinsert() {
    let mut map: ConcurrentOrderedHashMap<u64> = ConcurrentOrderedHashMap::new();
    for k in 1..=4u64 {
        map.insert_back(k, k);
    }
    assert_eq!(map.remove(1), Some(1));
    assert_eq!(map.remove(4), Some(4));
    let keys: Vec<u64> = map.iterate().iter().map(|p| p.0).collect();
    assert_eq!(keys, vec![2, 3]);
    // a removed key returns as the newest entry
    map.insert_back(1, 10);
    let keys: Vec<u64> = map.iterate().iter().map(|p| p.0).collect();
    assert_eq!(keys, vec![2, 3, 1]);
}
