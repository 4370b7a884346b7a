//! Insertion-ordered map and set containers, verified with Verus.
//!
//! The crate grew out of one problem: maintaining a hash table together
//! with a secondary insertion order threaded through its entries.  The
//! `concurrent` module holds the full design — an open-addressing slot
//! table whose slots refer to entries in a stable arena, with the visit
//! order kept as a doubly-linked chain of arena indices.  The remaining
//! modules are simpler relatives of the same idea: a sequential
//! insertion-ordered map (`ordered`), a sequential linked map built on
//! it (here in the crate root), a plain open-addressing map (`map` and
//! `table`), and a set (`set`).

use vstd::prelude::*;

pub mod concurrent;
pub mod map;
pub mod ordered;
pub mod set;
pub mod table;

use crate::ordered::key_index_of;
use crate::ordered::OrderedHashMap;

pub use crate::concurrent::Accessor;
pub use crate::concurrent::ConcurrentOrderedHashMap;
pub use crate::map::ClashMap;
use vstd::std_specs::cmp::PartialEqSpec;

verus! {

/// A map that remembers the order in which keys were first inserted.
///
/// `insert` appends new keys at the back; re-inserting a key replaces
/// its value without moving it.  The abstract value is a sequence of
/// `(key, value)` pairs in insertion order, with no two entries whose
/// keys compare equal.
pub struct LinkedHashMap<K, V> {
    inner: OrderedHashMap<K, V>,
}

impl<K, V> View for LinkedHashMap<K, V> {
    type V = Seq<(K, V)>;

    closed spec fn view(&self) -> Seq<(K, V)> {
        self.inner@
    }
}

impl<K: Eq, V> LinkedHashMap<K, V> {
    /// No two entries hold keys that compare equal.
    pub closed spec fn wf(self) -> bool {
        self.inner.wf()
    }

    pub fn new() -> (m: Self)
        ensures
            m.wf(),
            m@ == Seq::<(K, V)>::empty(),
    {
        LinkedHashMap { inner: OrderedHashMap::new() }
    }

    pub fn len(&self) -> (n: usize)
        ensures
            n == self@.len(),
    {
        self.inner.len()
    }

    pub fn is_empty(&self) -> (b: bool)
        ensures
            b <==> self@.len() == 0,
    {
        self.inner.is_empty()
    }

    pub fn clear(&mut self)
        ensures
            final(self).wf(),
            final(self)@ == Seq::<(K, V)>::empty(),
    {
        self.inner.clear()
    }

    pub fn get(&self, k: &K) -> (r: Option<&V>)
        requires
            K::obeys_eq_spec(),
        ensures
            key_index_of(self@, *k) == -1 ==> r is None,
            key_index_of(self@, *k) >= 0 ==> (r matches Some(v) && *v == self@[key_index_of(
                self@,
                *k,
            )].1),
    {
        self.inner.get(k)
    }

    /// Insert at the back; an existing key keeps its place and only has
    /// its value replaced, and the prior value comes back.
    pub fn insert(&mut self, k: K, v: V) -> (r: Option<V>)
        requires
            old(self).wf(),
            K::obeys_eq_spec(),
        ensures
            final(self).wf(),
            ({
                let i = key_index_of(old(self)@, k);
                if i >= 0 {
                    r == Some(old(self)@[i].1) && final(self)@ == old(self)@.update(
                        i,
                        (old(self)@[i].0, v),
                    )
                } else {
                    r is None && final(self)@ == old(self)@.push((k, v))
                }
            }),
    {
        self.inner.push_back(k, v)
    }

    pub fn remove(&mut self, k: &K) -> (r: Option<V>)
        requires
            old(self).wf(),
            K::obeys_eq_spec(),
        ensures
            final(self).wf(),
            ({
                let i = key_index_of(old(self)@, *k);
                if i >= 0 {
                    r == Some(old(self)@[i].1) && final(self)@ == old(self)@.remove(i)
                } else {
                    r is None && final(self)@ == old(self)@
                }
            }),
    {
        self.inner.remove(k)
    }

    /// Strict lookup: the key must be present.
    pub fn index(&self, k: &K) -> (r: &V)
        requires
            K::obeys_eq_spec(),
            key_index_of(self@, *k) >= 0,
        ensures
            *r == self@[key_index_of(self@, *k)].1,
    {
        self.inner.index(k)
    }
}

} // verus!
