use clashmap::map::ClashMap;
use clashmap::map::Record;

#[test]
fn clash_map_basic_insert_get_remove() {
    let mut map: ClashMap<&str> = ClashMap::new();
    assert_eq!(map.len(), 0);
    assert!(map.is_empty());
    assert_eq!(map.insert(1, "a"), None);
    assert_eq!(map.insert(2, "b"), None);
    assert_eq!(map.get(1), Some(&"a"));
    assert_eq!(map.get(2), Some(&"b"));
    assert_eq!(map.get(3), None);
    assert_eq!(map.len(), 2);
    assert_eq!(map.remove(1), Some("a"));
    assert_eq!(map.remove(1), None);
    assert_eq!(map.len(), 1);
}

#[test]
fn clash_map_replace_keeps_len() {
    let mut map: ClashMap<u32> = ClashMap::new();
    assert_eq!(map.insert(7, 1), None);
    assert_eq!(map.insert(7, 2), Some(1));
    assert_eq!(map.insert(7, 3), Some(2));
    assert_eq!(map.get(7), Some(&3));
    assert_eq!(map.len(), 1);
}

#[test]
fn clash_map_capacity_and_reserve() {
    let map: ClashMap<i32> = ClashMap::with_capacity(100);
    assert!(map.capacity() >= 100);
    let mut map: ClashMap<i32> = ClashMap::new();
    map.insert(1, 1);
    map.insert(2, 2);
    map.reserve(50);
    assert!(map.capacity() - map.len() >= 50);
}

#[test]
fn clash_map_colliding_keys_shift_back() {
    // All keys share a home slot, forcing long probe chains, and the
    // middle of the cluster is removed.
    let mut map: ClashMap<u64> = ClashMap::with_capacity(8);
    let raw = 2 * 8;
    let keys: Vec<u64> = (0..6u64).map(|i| i * raw).collect();
    for &k in &keys {
        assert_eq!(map.insert(k, k + 1), None);
    }
    assert_eq!(map.remove(keys[2]), Some(keys[2] + 1));
    assert_eq!(map.remove(keys[0]), Some(keys[0] + 1));
    for &k in &keys[..] {
        if k == keys[0] || k == keys[2] {
            assert_eq!(map.get(k), None);
        } else {
            assert_eq!(map.get(k), Some(&(k + 1)));
        }
    }
    assert_eq!(map.len(), 4);
}

#[test]
fn clash_map_grows_past_initial_capacity() {
    let mut map: ClashMap<u64> = ClashMap::new();
    for k in 0..200u64 {
        assert_eq!(map.insert(k, k * k), None);
    }
    assert_eq!(map.len(), 200);
    for k in 0..200u64 {
        assert_eq!(map.get(k), Some(&(k * k)));
    }
    assert!(map.capacity() >= 200);
}

#[test]
fn clash_map_clear_resets() {
    let mut map: ClashMap<i32> = ClashMap::with_capacity(10);
    map.insert(1, 1);
    map.clear();
    assert!(map.is_empty());
    assert_eq!(map.capacity(), 0);
    assert_eq!(map.get(1), None);
}

#[test]
fn record_holds_key_and_value() {
    let mut rec = Record::new(5, "x");
    assert_eq!(rec.key(), 5);
    assert_eq!(*rec.borrow_value(), "x");
    assert_eq!(rec.replace("y"), "x");
    assert_eq!(rec.key(), 5);
    assert_eq!(rec.into_value(), "y");
}
