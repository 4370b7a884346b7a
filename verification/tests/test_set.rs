use clashmap::set::ConcurrentHashSet;

#[test]
fn capacity() {
    let set: ConcurrentHashSet<i32> = ConcurrentHashSet::with_capacity(100);
    assert!(set.capacity() >= 100);
}

#[test]
fn reserve() {
    let mut set: ConcurrentHashSet<i32> = ConcurrentHashSet::new();
    set.reserve(10);
    assert!(set.capacity() >= 10);
}

#[test]
fn test_set_len() {
    let mut v = ConcurrentHashSet::new();
    assert_eq!(v.len(), 0);
    v.insert(1);
    assert_eq!(v.len(), 1);
}

#[test]
fn test_set_is_empty() {
    let mut v = ConcurrentHashSet::new();
    assert!(v.is_empty());
    v.insert(1);
    assert!(!v.is_empty());
}

#[test]
fn test_set_insert() {
    let mut set = ConcurrentHashSet::new();
    assert_eq!(set.insert(2), true);
    assert_eq!(set.insert(2), false);
    assert_eq!(set.len(), 1);
}

#[test]
fn replace() {
    let mut set = ConcurrentHashSet::new();
    set.insert(Vec::<i32>::new());
    assert_eq!(set.get(&vec![]).unwrap().capacity(), 0);
    set.replace(Vec::with_capacity(10));
    assert_eq!(set.get(&vec![]).unwrap().capacity(), 10);
}

#[test]
fn test_set_clear() {
    let mut v = ConcurrentHashSet::new();
    v.insert(1);
    v.clear();
    assert!(v.is_empty());
}
