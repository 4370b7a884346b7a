use clashmap::LinkedHashMap;

#[test]
fn test_linked_hash_map_len() {
    let mut a = LinkedHashMap::new();
    assert_eq!(a.len(), 0);
    a.insert(1, "a");
    assert_eq!(a.len(), 1);
}

#[test]
fn test_linked_hash_map_is_empty() {
    let mut a = LinkedHashMap::new();
    assert!(a.is_empty());
    a.insert(1, "a");
    assert!(!a.is_empty());
}

#[test]
fn test_linked_hash_map_clear() {
    let mut a = LinkedHashMap::new();
    a.insert(1, "a");
    a.clear();
    assert!(a.is_empty());
}

#[test]
fn test_linked_hash_map_get() {
    let mut map = LinkedHashMap::new();
    map.insert(1, "a");
    assert_eq!(map.get(&1), Some(&"a"));
    assert_eq!(map.get(&2), None);
}

#[test]
fn insert() {
    let mut map = LinkedHashMap::new();
    assert_eq!(map.insert(37, "a"), None);
    assert_eq!(map.is_empty(), false);

    map.insert(37, "b");
    assert_eq!(map.insert(37, "c"), Some("b"));
    assert_eq!(*map.index(&37), "c");
}

#[test]
fn test_linked_hash_map_remove() {
    let mut map = LinkedHashMap::new();
    map.insert(1, "a");
    assert_eq!(map.remove(&1), Some("a"));
    assert_eq!(map.remove(&1), None);
}
