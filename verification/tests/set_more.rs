use clashmap::set::ConcurrentHashSet;

#[test]
fn set_remove_and_take() {
    let mut set = ConcurrentHashSet::new();
    set.insert(5);
    set.insert(6);
    assert_eq!(set.remove(&5), true);
    assert_eq!(set.remove(&5), false);
    assert_eq!(set.take(&6), Some(6));
    assert_eq!(set.take(&6), None);
    assert!(set.is_empty());
}

#[test]
fn set_get_absent() {
    let mut set = ConcurrentHashSet::new();
    set.insert("a");
    assert_eq!(set.get(&"a"), Some(&"a"));
    assert_eq!(set.get(&"b"), None);
}

#[test]
fn set_insert_keeps_distinct_elements() {
    let mut set = ConcurrentHashSet::new();
    for i in 0..20 {
        assert!(set.insert(i));
    }
    for i in 0..20 {
        assert!(!set.insert(i));
    }
    assert_eq!(set.len(), 20);
}
