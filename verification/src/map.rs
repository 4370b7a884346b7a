//! A plain map over the open-addressing slot table.
//!
//! `ClashMap` composes the [`Table`](crate::table::Table) with a size
//! counter it owns, growing the table before an insert would push the
//! load factor over one half.  The abstract value is `Map<u64, V>`.

use vstd::prelude::*;

use crate::table::Table;

verus! {

/// One stored entry: a key and its value.
pub struct Record<V> {
    key: u64,
    value: V,
}

impl<V> Record<V> {
    pub closed spec fn spec_key(self) -> u64 {
        self.key
    }

    pub closed spec fn spec_value(self) -> V {
        self.value
    }

    pub fn new(key: u64, value: V) -> (r: Self)
        ensures
            r.spec_key() == key,
            r.spec_value() == value,
    {
        Record { key, value }
    }

    pub fn key(&self) -> (k: u64)
        ensures
            k == self.spec_key(),
    {
        self.key
    }

    pub fn borrow_value(&self) -> (v: &V)
        ensures
            *v == self.spec_value(),
    {
        &self.value
    }

    /// Swap in a new value, handing the old one back.
    pub fn replace(&mut self, value: V) -> (r: V)
        ensures
            r == old(self).spec_value(),
            final(self).spec_key() == old(self).spec_key(),
            final(self).spec_value() == value,
    {
        let mut tmp = value;
        core::mem::swap(&mut self.value, &mut tmp);
        tmp
    }

    pub fn into_value(self) -> (v: V)
        ensures
            v == self.spec_value(),
    {
        self.value
    }
}

/// A map from `u64` keys to values, open-addressed with linear probing
/// and backward-shift deletion, held at a load factor of at most one
/// half.
pub struct ClashMap<V> {
    table: Table<V>,
    size: usize,
}

impl<V> View for ClashMap<V> {
    type V = Map<u64, V>;

    closed spec fn view(&self) -> Map<u64, V> {
        self.table.contents()
    }
}

impl<V> ClashMap<V> {
    /// The table is sound and the counter matches it.
    pub closed spec fn wf(self) -> bool {
        &&& self.table.wf()
        &&& self.size as int == self.table.used_count()
    }

    /// How many entries fit before the map must grow.
    pub closed spec fn spec_capacity(self) -> int {
        self.table.raw() / 2
    }

    pub fn new() -> (m: Self)
        ensures
            m.wf(),
            m@ == Map::<u64, V>::empty(),
            m.spec_capacity() == 0,
    {
        Self::with_capacity(0)
    }

    pub fn with_capacity(capacity: usize) -> (m: Self)
        requires
            2 * capacity <= usize::MAX,
        ensures
            m.wf(),
            m@ == Map::<u64, V>::empty(),
            m.spec_capacity() == capacity,
    {
        ClashMap { table: Table::with_capacity(2 * capacity), size: 0 }
    }

    pub fn capacity(&self) -> (c: usize)
        ensures
            c == self.spec_capacity(),
    {
        self.table.len() / 2
    }

    pub fn len(&self) -> (n: usize)
        requires
            self.wf(),
        ensures
            n == self@.dom().len(),
    {
        proof {
            self.table.lemma_used_is_dom_len();
        }
        self.size
    }

    pub fn is_empty(&self) -> (b: bool)
        requires
            self.wf(),
        ensures
            b <==> self@.dom().len() == 0,
    {
        self.len() == 0
    }

    /// Drop every entry, releasing the slots.
    pub fn clear(&mut self)
        ensures
            final(self).wf(),
            final(self)@ == Map::<u64, V>::empty(),
            final(self).spec_capacity() == 0,
    {
        self.table = Table::with_capacity(0);
        self.size = 0;
    }

    /// Grow the table until `additional` more entries fit under the
    /// load factor.
    pub fn reserve(&mut self, additional: usize)
        requires
            old(self).wf(),
            2 * (old(self)@.dom().len() + additional) <= usize::MAX,
        ensures
            final(self).wf(),
            final(self)@ == old(self)@,
            final(self).spec_capacity() - final(self)@.dom().len() >= additional,
    {
        proof {
            self.table.lemma_used_is_dom_len();
            assert(2 * self.table.used_count() <= self.table.raw());
            assert(self.table.used_count() <= self.table.raw() / 2);
        }
        if self.capacity() - self.len() < additional {
            let raw = 2 * (self.len() + additional);
            self.table.resize(raw);
        }
    }

    pub fn get(&self, key: u64) -> (r: Option<&V>)
        requires
            self.wf(),
        ensures
            self@.contains_key(key) ==> (r matches Some(v) && *v == self@[key]),
            !self@.contains_key(key) ==> r is None,
    {
        self.table.get(key)
    }

    /// Map `key` to `value`; a fresh key grows the size by one, an
    /// existing key only has its value replaced, and the prior value
    /// comes back.
    pub fn insert(&mut self, key: u64, value: V) -> (r: Option<V>)
        requires
            old(self).wf(),
            2 * (old(self)@.dom().len() + 1) <= usize::MAX,
        ensures
            final(self).wf(),
            final(self)@ == old(self)@.insert(key, value),
            old(self)@.contains_key(key) ==> r == Some(old(self)@[key]) && final(self)@.dom().len()
                == old(self)@.dom().len(),
            !old(self)@.contains_key(key) ==> r is None && final(self)@.dom().len() == old(self)@.dom().len() + 1,
    {
        self.reserve(1);
        proof {
            self.table.lemma_used_is_dom_len();
            assert(self.table.used_count() + 1 <= self.table.raw() / 2);
            assert(2 * (self.table.raw() / 2) <= self.table.raw());
            assert(self.size < usize::MAX);
        }
        let r = self.table.insert(key, value);
        if r.is_none() {
            self.size = self.size + 1;
        }
        proof {
            self.table.lemma_used_is_dom_len();
        }
        r
    }

    /// Unmap `key`, handing back its value; absent keys change nothing.
    pub fn remove(&mut self, key: u64) -> (r: Option<V>)
        requires
            old(self).wf(),
        ensures
            final(self).wf(),
            final(self)@ == old(self)@.remove(key),
            old(self)@.contains_key(key) ==> r == Some(old(self)@[key]) && final(self)@.dom().len()
                == old(self)@.dom().len() - 1,
            !old(self)@.contains_key(key) ==> r is None && final(self)@.dom().len()
                == old(self)@.dom().len(),
    {
        proof {
            self.table.lemma_used_is_dom_len();
        }
        let r = self.table.remove(key);
        if r.is_some() {
            self.size = self.size - 1;
        }
        proof {
            self.table.lemma_used_is_dom_len();
        }
        r
    }
}

} // verus!
