//! The insertion-ordered map over the slot table: the full design the
//! crate is built around.
//!
//! Slots of the [`Table`](crate::table::Table) hold arena indices, and
//! the entries themselves live in a stable arena, threaded by a
//! doubly-linked chain of indices that records insertion order.  The
//! table may re-probe its slots when it grows, but it moves only
//! indices: an entry never changes its arena cell, so chain links and
//! any outstanding [`Accessor`] stay valid across a resize.
//!
//! `usize::MAX` serves as the nil link, and can never be an arena
//! index because the arena is bounded by the table's load factor.
//!
//! The map itself is a sequential value: every operation takes the
//! whole map, and the invariants hold before and after each one.  To
//! share it between threads, put it behind a lock and run each
//! operation under that lock; the stable arena is what makes handles
//! taken out earlier survive a resize that happens meanwhile.

use vstd::prelude::*;

use crate::table::Table;

verus! {

/// One entry of the chain: a key, its value, and the neighbouring
/// arena indices in insertion order (`usize::MAX` for none).
struct Entry<V> {
    key: u64,
    value: V,
    prev: usize,
    next: usize,
}

/// A stable handle for one entry's value: the index of the arena cell
/// that holds it.  It stays readable across table growth.
#[derive(Clone, Copy)]
pub struct Accessor {
    idx: usize,
}

/// A map from `u64` keys to values that can be walked in the order the
/// keys were first inserted.
///
/// Lookup goes through an open-addressing table held at a load factor
/// of at most one half; order is kept by a doubly-linked chain through
/// the arena of entries.  Re-inserting a key replaces its value in
/// place and keeps its position.
pub struct ConcurrentOrderedHashMap<V> {
    table: Table<usize>,
    arena: Vec<Option<Entry<V>>>,
    free: Vec<usize>,
    head: usize,
    tail: usize,
    size: usize,
    ord: Ghost<Seq<int>>,
}

impl<V> View for ConcurrentOrderedHashMap<V> {
    type V = Map<u64, V>;

    closed spec fn view(&self) -> Map<u64, V> {
        self.table.contents().map_values(|i: usize| self.arena@[i as int]->Some_0.value)
    }
}

impl<V> ConcurrentOrderedHashMap<V> {
    /// The keys in insertion order.
    pub closed spec fn order(self) -> Seq<u64> {
        self.ord@.map(|p: int, i: int| self.arena@[i]->Some_0.key)
    }

    /// How many entries fit before the table must grow.
    pub closed spec fn spec_capacity(self) -> int {
        self.table.raw() / 2
    }

    /// `a` designates a live entry.
    pub closed spec fn valid_accessor(self, a: Accessor) -> bool {
        0 <= a.idx < self.arena@.len() && self.arena@[a.idx as int] is Some
    }

    /// The key of the entry `a` designates.
    pub closed spec fn accessor_key(self, a: Accessor) -> u64 {
        self.arena@[a.idx as int]->Some_0.key
    }

    /// The value of the entry `a` designates.
    pub closed spec fn accessor_value(self, a: Accessor) -> V {
        self.arena@[a.idx as int]->Some_0.value
    }

    /// The accessor `get` hands out for a present key.
    pub closed spec fn accessor_for(self, k: u64) -> Accessor {
        Accessor { idx: self.table.contents()[k] }
    }

    pub closed spec fn wf(self) -> bool {
        let s = self.ord@;
        let n = s.len() as int;
        &&& self.table.wf()
        &&& self.size as int == self.table.used_count()
        &&& n == self.size as int
        &&& self.arena@.len() < usize::MAX
        &&& self.arena@.len() == self.size as int + self.free@.len()
        &&& forall|p: int, q: int| 0 <= p < q < n ==> s[p] != s[q]
        &&& forall|p: int|
            0 <= p < n ==> 0 <= #[trigger] s[p] < self.arena@.len() && self.arena@[s[p]] is Some
        &&& forall|p: int|
            0 <= p < n ==> (#[trigger] self.arena@[s[p]]->Some_0.next) as int == (if p == n - 1 {
                usize::MAX as int
            } else {
                s[p + 1]
            })
        &&& forall|p: int|
            0 <= p < n ==> (#[trigger] self.arena@[s[p]]->Some_0.prev) as int == (if p == 0 {
                usize::MAX as int
            } else {
                s[p - 1]
            })
        &&& self.head as int == (if n == 0 {
            usize::MAX as int
        } else {
            s[0]
        })
        &&& self.tail as int == (if n == 0 {
            usize::MAX as int
        } else {
            s[n - 1]
        })
        &&& forall|k: u64| #[trigger]
            self.table.contents().contains_key(k) ==> {
                let i = self.table.contents()[k] as int;
                &&& 0 <= i < self.arena@.len()
                &&& self.arena@[i] is Some
                &&& self.arena@[i]->Some_0.key == k
                &&& self.ord@.contains(i)
            }
        &&& forall|p: int|
            0 <= p < n ==> self.table.contents().contains_key(
                #[trigger] self.arena@[s[p]]->Some_0.key,
            ) && self.table.contents()[self.arena@[s[p]]->Some_0.key] as int == s[p]
        &&& forall|q: int|
            0 <= q < self.free@.len() ==> (#[trigger] self.free@[q]) < self.arena@.len()
                && !(self.arena@[self.free@[q] as int] is Some)
        &&& forall|q: int, q2: int|
            0 <= q < q2 < self.free@.len() ==> self.free@[q] != self.free@[q2]
        &&& forall|i: int|
            0 <= i < self.arena@.len() && !((#[trigger] self.arena@[i]) is Some)
                ==> self.free@.contains(i as usize)
    }

    pub fn new() -> (m: Self)
        ensures
            m.wf(),
            m@ == Map::<u64, V>::empty(),
            m.order() == Seq::<u64>::empty(),
            m.spec_capacity() == 0,
    {
        Self::with_capacity(0)
    }

    pub fn with_capacity(capacity: usize) -> (m: Self)
        requires
            2 * capacity <= usize::MAX,
        ensures
            m.wf(),
            m@ == Map::<u64, V>::empty(),
            m.order() == Seq::<u64>::empty(),
            m.spec_capacity() == capacity,
    {
        let m = ConcurrentOrderedHashMap {
            table: Table::with_capacity(2 * capacity),
            arena: Vec::new(),
            free: Vec::new(),
            head: usize::MAX,
            tail: usize::MAX,
            size: 0,
            ord: Ghost(Seq::empty()),
        };
        proof {
            assert(m@ =~= Map::<u64, V>::empty());
            assert(m.order() =~= Seq::<u64>::empty());
        }
        m
    }

    pub fn capacity(&self) -> (c: usize)
        ensures
            c == self.spec_capacity(),
    {
        self.table.len() / 2
    }

    pub fn len(&self) -> (n: usize)
        requires
            self.wf(),
        ensures
            n == self@.dom().len(),
            n == self.order().len(),
    {
        proof {
            self.table.lemma_used_is_dom_len();
            assert(self@.dom() =~= self.table.contents().dom());
        }
        self.size
    }

    pub fn is_empty(&self) -> (b: bool)
        requires
            self.wf(),
        ensures
            b <==> self@.dom().len() == 0,
            b <==> self.order().len() == 0,
    {
        self.len() == 0
    }

    /// The working part of `reserve`: grow the table, touching nothing
    /// else.
    fn ensure_headroom(&mut self, additional: usize)
        requires
            old(self).wf(),
            2 * (old(self)@.dom().len() + additional) <= usize::MAX,
        ensures
            final(self).wf(),
            final(self).table.contents() == old(self).table.contents(),
            final(self).arena@ == old(self).arena@,
            final(self).free@ == old(self).free@,
            final(self).ord@ == old(self).ord@,
            final(self).head == old(self).head,
            final(self).tail == old(self).tail,
            final(self).size == old(self).size,
            final(self)@ == old(self)@,
            final(self).order() == old(self).order(),
            final(self).spec_capacity() - final(self)@.dom().len() >= additional,
            final(self).spec_capacity() >= old(self).spec_capacity(),
    {
        proof {
            self.table.lemma_used_is_dom_len();
            assert(self@.dom() =~= self.table.contents().dom());
        }
        if self.capacity() - self.len() < additional {
            let raw = 2 * (self.len() + additional);
            self.table.resize(raw);
        }
        proof {
            assert(final(self)@ =~= old(self)@);
            assert(final(self).order() =~= old(self).order());
        }
    }

    /// Grow the table until `additional` more entries fit.  No entry
    /// moves in the arena, so every accessor stays valid and reads the
    /// same value afterwards.
    pub fn reserve(&mut self, additional: usize)
        requires
            old(self).wf(),
            2 * (old(self)@.dom().len() + additional) <= usize::MAX,
        ensures
            final(self).wf(),
            final(self)@ == old(self)@,
            final(self).order() == old(self).order(),
            final(self).spec_capacity() - final(self)@.dom().len() >= additional,
            final(self).spec_capacity() >= old(self).spec_capacity(),
            forall|a: Accessor| #[trigger]
                old(self).valid_accessor(a) ==> final(self).valid_accessor(a)
                    && final(self).accessor_key(a) == old(self).accessor_key(a)
                    && final(self).accessor_value(a) == old(self).accessor_value(a),
            forall|k: u64| #[trigger]
                old(self)@.contains_key(k) ==> final(self).accessor_for(k) == old(
                    self,
                ).accessor_for(k),
    {
        self.ensure_headroom(additional);
    }

    /// A stable handle on the entry for `k`, if present.
    pub fn get(&self, k: u64) -> (r: Option<Accessor>)
        requires
            self.wf(),
        ensures
            self@.contains_key(k) ==> (r matches Some(a) && a == self.accessor_for(k)
                && self.valid_accessor(a) && self.accessor_key(a) == k && self.accessor_value(a)
                == self@[k]),
            !self@.contains_key(k) ==> r is None,
    {
        match self.table.get(k) {
            Some(i) => Some(Accessor { idx: *i }),
            None => None,
        }
    }

    /// Read the value an accessor designates.
    pub fn read(&self, a: &Accessor) -> (v: &V)
        requires
            self.wf(),
            self.valid_accessor(*a),
        ensures
            *v == self.accessor_value(*a),
    {
        let ent = self.arena[a.idx].as_ref().unwrap();
        &ent.value
    }

    /// The keys and values in insertion order.
    pub fn iterate(&self) -> (r: Vec<(u64, &V)>)
        requires
            self.wf(),
        ensures
            r@.len() == self.order().len(),
            forall|p: int|
                0 <= p < r@.len() ==> (#[trigger] r@[p]).0 == self.order()[p] && *r@[p].1
                    == self@[self.order()[p]],
    {
        let mut out: Vec<(u64, &V)> = Vec::new();
        let mut cur = self.head;
        let mut pos: Ghost<int> = Ghost(0int);
        while cur != usize::MAX
            invariant
                self.wf(),
                0 <= pos@ <= self.ord@.len(),
                cur as int == (if pos@ < self.ord@.len() {
                    self.ord@[pos@]
                } else {
                    usize::MAX as int
                }),
                out@.len() == pos@,
                forall|q: int|
                    0 <= q < pos@ ==> (#[trigger] out@[q]).0 == self.order()[q] && *out@[q].1
                        == self@[self.order()[q]],
            decreases self.ord@.len() - pos@,
        {
            proof {
                assert(pos@ < self.ord@.len());
            }
            let ent = self.arena[cur].as_ref().unwrap();
            proof {
                assert(self.table.contents().contains_key(ent.key));
                assert(self.table.contents()[ent.key] as int == self.ord@[pos@]);
                assert(self@[ent.key] == ent.value);
            }
            out.push((ent.key, &ent.value));
            cur = ent.next;
            pos = Ghost(pos@ + 1);
        }
        out
    }

    /// Drop every entry, releasing the table and the arena.
    pub fn clear(&mut self)
        ensures
            final(self).wf(),
            final(self)@ == Map::<u64, V>::empty(),
            final(self).order() == Seq::<u64>::empty(),
            final(self).spec_capacity() == 0,
    {
        self.table = Table::with_capacity(0);
        self.arena = Vec::new();
        self.free = Vec::new();
        self.head = usize::MAX;
        self.tail = usize::MAX;
        self.size = 0;
        self.ord = Ghost(Seq::empty());
        proof {
            assert(self@ =~= Map::<u64, V>::empty());
            assert(self.order() =~= Seq::<u64>::empty());
        }
    }

    /// Insert at the back of the order.  An existing key keeps its
    /// position and only has its value replaced, with the prior value
    /// handed back; a fresh key is appended to the order.
    pub fn insert_back(&mut self, k: u64, v: V) -> (r: Option<V>)
        requires
            old(self).wf(),
            2 * (old(self)@.dom().len() + 1) <= usize::MAX,
        ensures
            final(self).wf(),
            final(self)@ == old(self)@.insert(k, v),
            old(self)@.contains_key(k) ==> r == Some(old(self)@[k]) && final(self).order() == old(
                self,
            ).order() && final(self)@.dom().len() == old(self)@.dom().len(),
            !old(self)@.contains_key(k) ==> r is None && final(self).order() == old(
                self,
            ).order().push(k) && final(self)@.dom().len() == old(self)@.dom().len() + 1,
    {
        self.ensure_headroom(1);
        proof {
            self.table.lemma_used_is_dom_len();
            assert(self@.dom() =~= self.table.contents().dom());
            assert(self.table.used_count() + 1 <= self.table.raw() / 2);
            assert(2 * (self.table.raw() / 2) <= self.table.raw());
        }
        let existing: Option<usize> = match self.table.get(k) {
            Some(i) => Some(*i),
            None => None,
        };
        match existing {
            Some(idx) => {
                let ghost a0 = self.arena@;
                let mut ent = self.arena[idx].take().unwrap();
                let mut tmp = v;
                core::mem::swap(&mut ent.value, &mut tmp);
                self.arena[idx] = Some(ent);
                proof {
                    assert(self.arena@ =~= a0.update(idx as int, self.arena@[idx as int]));
                    assert(self.arena@[idx as int]->Some_0.key == k);
                    assert forall|p: int| 0 <= p < self.ord@.len() implies self.arena@[
                        #[trigger] self.ord@[p]
                    ] is Some by {}
                    assert(self.order() =~= old(self).order());
                    assert(self@ =~= old(self)@.insert(k, v));
                }
                Some(tmp)
            },
            None => {
                let ghost a0 = self.arena@;
                let ghost n0 = self.ord@.len() as int;
                let ent = Entry { key: k, value: v, prev: self.tail, next: usize::MAX };
                let ghost f0 = self.free@;
                let idx = match self.free.pop() {
                    Some(i) => {
                        self.arena[i] = Some(ent);
                        proof {
                            assert forall|i2: int|
                                0 <= i2 < self.arena@.len() && !((#[trigger] self.arena@[i2])
                                    is Some) implies self.free@.contains(i2 as usize) by {
                                assert(a0[i2] == self.arena@[i2]);
                                assert(f0.contains(i2 as usize));
                                let q = choose|q: int| 0 <= q < f0.len() && f0[q] == i2 as usize;
                                assert(q != f0.len() - 1);
                                assert(self.free@[q] == i2 as usize);
                            }
                        }
                        i
                    },
                    None => {
                        self.arena.push(Some(ent));
                        self.arena.len() - 1
                    },
                };
                proof {
                    assert(!self.ord@.contains(idx as int)) by {
                        if self.ord@.contains(idx as int) {
                            let p = choose|p: int|
                                0 <= p < self.ord@.len() && self.ord@[p] == idx as int;
                            assert(a0[self.ord@[p]] is Some);
                        }
                    }
                }
                let old_tail = self.tail;
                if old_tail != usize::MAX {
                    let ghost a1 = self.arena@;
                    let mut pred = self.arena[old_tail].take().unwrap();
                    pred.next = idx;
                    self.arena[old_tail] = Some(pred);
                    proof {
                        assert(self.arena@ =~= a1.update(
                            old_tail as int,
                            self.arena@[old_tail as int],
                        ));
                        assert(self.arena@[old_tail as int] is Some);
                        assert(self.arena@[old_tail as int]->Some_0.key == a1[old_tail
                            as int]->Some_0.key);
                        assert(self.arena@[old_tail as int]->Some_0.value == a1[old_tail
                            as int]->Some_0.value);
                        assert(self.arena@[old_tail as int]->Some_0.prev == a1[old_tail
                            as int]->Some_0.prev);
                        assert(self.arena@[old_tail as int]->Some_0.next == idx);
                    }
                } else {
                    self.head = idx;
                }
                self.tail = idx;
                let prior = self.table.insert(k, idx);
                self.size = self.size + 1;
                self.ord = Ghost(self.ord@.push(idx as int));
                proof {
                    broadcast use vstd::seq_lib::lemma_seq_contains_after_push;
                    assert(prior is None);
                    let s = self.ord@;
                    let n = s.len() as int;
                    assert(n == n0 + 1);
                    assert(s[n - 1] == idx as int);
                    assert(self.arena@[idx as int]->Some_0.key == k);
                    assert(self.ord@.contains(idx as int));
                    assert forall|k2: u64| #[trigger]
                        self.table.contents().contains_key(k2) implies {
                        let i = self.table.contents()[k2] as int;
                        &&& 0 <= i < self.arena@.len()
                        &&& self.arena@[i] is Some
                        &&& self.arena@[i]->Some_0.key == k2
                        &&& self.ord@.contains(i)
                    } by {
                        if k2 != k {
                            assert(old(self).table.contents().contains_key(k2));
                            let i = old(self).table.contents()[k2] as int;
                            assert(old(self).ord@.contains(i));
                            let p = choose|p: int|
                                0 <= p < old(self).ord@.len() && old(self).ord@[p] == i;
                            assert(s[p] == i);
                        }
                    }
                    assert(self.order() =~= old(self).order().push(k));
                    assert(self@ =~= old(self)@.insert(k, v)) by {
                        assert(self@.dom() =~= old(self)@.insert(k, v).dom());
                        assert forall|k2: u64| #[trigger] self@.dom().contains(k2) implies self@[k2]
                            == old(self)@.insert(k, v)[k2] by {
                            if k2 != k {
                                let i = old(self).table.contents()[k2] as int;
                                assert(self.table.contents()[k2] as int == i);
                                if old_tail != usize::MAX && i == old_tail as int {
                                    assert(self.arena@[i]->Some_0.value == a0[i]->Some_0.value);
                                } else {
                                    assert(self.arena@[i] == a0[i]);
                                }
                            }
                        }
                    }
                    self.table.lemma_used_is_dom_len();
                    assert(self@.dom() =~= self.table.contents().dom());
                }
                None
            },
        }
    }

    /// Unmap `k`, handing back its value and closing the chain around
    /// its entry; absent keys change nothing.
    #[verifier::spinoff_prover]
    #[verifier::rlimit(100)]
    pub fn remove(&mut self, k: u64) -> (r: Option<V>)
        requires
            old(self).wf(),
        ensures
            final(self).wf(),
            final(self)@ == old(self)@.remove(k),
            !old(self)@.contains_key(k) ==> r is None && final(self).order() == old(self).order(),
            old(self)@.contains_key(k) ==> r == Some(old(self)@[k]) && (exists|p: int|
                0 <= p < old(self).order().len() && old(self).order()[p] == k && final(self).order()
                    == old(self).order().remove(p)),
    {
        proof {
            if self@.contains_key(k) {
                assert(self.table.contents().contains_key(k));
            }
            if self.table.contents().contains_key(k) {
                assert(self@.dom().contains(k));
            }
        }
        let removed = self.table.remove(k);
        match removed {
            None => {
                proof {
                    assert(self@ =~= old(self)@.remove(k));
                    assert(self.order() =~= old(self).order());
                }
                None
            },
            Some(idx) => {
                let ghost a0 = self.arena@;
                let ghost s0 = self.ord@;
                let ghost n0 = s0.len() as int;
                let ghost p = choose|p: int| 0 <= p < s0.len() && s0[p] == idx as int;
                let ent = self.arena[idx].take().unwrap();
                proof {
                    assert(s0[p] == idx as int);
                    assert(a0[idx as int]->Some_0.key == k);
                    assert(ent.prev as int == (if p == 0 {
                        usize::MAX as int
                    } else {
                        s0[p - 1]
                    }));
                    assert(ent.next as int == (if p == n0 - 1 {
                        usize::MAX as int
                    } else {
                        s0[p + 1]
                    }));
                }
                if ent.prev != usize::MAX {
                    let ghost a1 = self.arena@;
                    let mut pred = self.arena[ent.prev].take().unwrap();
                    pred.next = ent.next;
                    self.arena[ent.prev] = Some(pred);
                    proof {
                        assert(self.arena@ =~= a1.update(
                            ent.prev as int,
                            self.arena@[ent.prev as int],
                        ));
                        assert(self.arena@[ent.prev as int]->Some_0.key == a0[ent.prev
                            as int]->Some_0.key);
                        assert(self.arena@[ent.prev as int]->Some_0.value == a0[ent.prev
                            as int]->Some_0.value);
                        assert(self.arena@[ent.prev as int]->Some_0.prev == a0[ent.prev
                            as int]->Some_0.prev);
                        assert(self.arena@[ent.prev as int]->Some_0.next == ent.next);
                    }
                } else {
                    self.head = ent.next;
                }
                if ent.next != usize::MAX {
                    let ghost a2 = self.arena@;
                    let mut succ = self.arena[ent.next].take().unwrap();
                    succ.prev = ent.prev;
                    self.arena[ent.next] = Some(succ);
                    proof {
                        assert(self.arena@ =~= a2.update(
                            ent.next as int,
                            self.arena@[ent.next as int],
                        ));
                        assert(self.arena@[ent.next as int]->Some_0.key == a0[ent.next
                            as int]->Some_0.key);
                        assert(self.arena@[ent.next as int]->Some_0.value == a0[ent.next
                            as int]->Some_0.value);
                        assert(self.arena@[ent.next as int]->Some_0.next == a0[ent.next
                            as int]->Some_0.next);
                        assert(self.arena@[ent.next as int]->Some_0.prev == ent.prev);
                    }
                } else {
                    self.tail = ent.prev;
                }
                self.free.push(idx);
                self.size = self.size - 1;
                self.ord = Ghost(self.ord@.remove(p));
                proof {
                    broadcast use vstd::seq_lib::lemma_seq_contains_after_push;
                    let s = self.ord@;
                    let n = s.len() as int;
                    assert(n == n0 - 1);
                    assert forall|q: int| 0 <= q < n implies s[q] == (if q < p {
                        s0[q]
                    } else {
                        s0[q + 1]
                    }) by {}
                    // the two spliced cells keep their keys and values;
                    // every other live cell is untouched
                    assert forall|i2: int|
                        0 <= i2 < self.arena@.len() && i2 != idx as int implies {
                        &&& (self.arena@[i2] is Some <==> a0[i2] is Some)
                        &&& (self.arena@[i2] is Some ==> self.arena@[i2]->Some_0.key
                            == a0[i2]->Some_0.key && self.arena@[i2]->Some_0.value
                            == a0[i2]->Some_0.value)
                    } by {}
                    assert forall|k2: u64| #[trigger]
                        self.table.contents().contains_key(k2) implies {
                        let i = self.table.contents()[k2] as int;
                        &&& 0 <= i < self.arena@.len()
                        &&& self.arena@[i] is Some
                        &&& self.arena@[i]->Some_0.key == k2
                        &&& self.ord@.contains(i)
                    } by {
                        assert(old(self).table.contents().contains_key(k2));
                        let i = old(self).table.contents()[k2] as int;
                        assert(k2 != k);
                        assert(i != idx as int);
                        let q = choose|q: int| 0 <= q < s0.len() && s0[q] == i;
                        assert(q != p);
                        if q < p {
                            assert(s[q] == i);
                        } else {
                            assert(s[q - 1] == i);
                        }
                    }
                    assert forall|q: int|
                        0 <= q < n implies self.table.contents().contains_key(
                        #[trigger] self.arena@[s[q]]->Some_0.key,
                    ) && self.table.contents()[self.arena@[s[q]]->Some_0.key] as int == s[q] by {
                        let q0 = if q < p {
                            q
                        } else {
                            q + 1
                        };
                        assert(s[q] == s0[q0]);
                        assert(self.arena@[s0[q0]]->Some_0.key == a0[s0[q0]]->Some_0.key);
                        assert(a0[s0[q0]]->Some_0.key != k) by {
                            if a0[s0[q0]]->Some_0.key == k {
                                assert(old(self).table.contents()[k] as int == s0[q0]);
                            }
                        }
                    }
                    assert(self@ =~= old(self)@.remove(k)) by {
                        assert(self@.dom() =~= old(self)@.remove(k).dom());
                        assert forall|k2: u64| #[trigger] self@.dom().contains(k2) implies self@[k2]
                            == old(self)@.remove(k)[k2] by {
                            let i = old(self).table.contents()[k2] as int;
                            assert(i != idx as int);
                        }
                    }
                    assert(self.order() =~= old(self).order().remove(p)) by {
                        assert forall|q: int| 0 <= q < n implies self.order()[q] == old(
                            self,
                        ).order().remove(p)[q] by {
                            let q0 = if q < p {
                                q
                            } else {
                                q + 1
                            };
                            assert(s[q] == s0[q0]);
                            assert(self.arena@[s0[q0]]->Some_0.key == a0[s0[q0]]->Some_0.key);
                        }
                    }
                    assert(old(self).order()[p] == k);
                    self.table.lemma_used_is_dom_len();
                }
                Some(ent.value)
            },
        }
    }

    /// Re-inserting a key replaces its value only: the key is present
    /// with the first value before the second insert, the second
    /// insert returns that value's map, the key count does not change,
    /// and the visit order is untouched.
    pub proof fn lemma_reinsert_replaces(m: Map<u64, V>, ord: Seq<u64>, k: u64, v1: V, v2: V)
        ensures
            m.insert(k, v1).contains_key(k),
            m.insert(k, v1)[k] == v1,
            m.insert(k, v1).insert(k, v2) == m.insert(k, v2),
            m.insert(k, v1).insert(k, v2)[k] == v2,
            m.dom().finite() ==> m.insert(k, v1).insert(k, v2).dom().len() == m.insert(
                k,
                v1,
            ).dom().len(),
            (if m.insert(k, v1).contains_key(k) {
                ord
            } else {
                ord.push(k)
            }) == ord,
    {
        assert(m.insert(k, v1).insert(k, v2) =~= m.insert(k, v2));
        assert(m.insert(k, v1).insert(k, v2).dom() =~= m.insert(k, v1).dom());
    }

    /// Removing an absent key changes neither the map nor the order.
    pub proof fn lemma_remove_absent(m: Map<u64, V>, k: u64)
        requires
            !m.contains_key(k),
        ensures
            m.remove(k) == m,
            m.dom().finite() ==> m.remove(k).dom().len() == m.dom().len(),
    {
        assert(m.remove(k) =~= m);
    }

    /// An insert touches no other key: nothing is lost and nothing
    /// else changes, which is why disjoint inserts commute.
    pub proof fn lemma_insert_preserves_others(m: Map<u64, V>, k: u64, v: V, k2: u64)
        requires
            k2 != k,
        ensures
            m.insert(k, v).contains_key(k),
            m.insert(k, v)[k] == v,
            m.insert(k, v).contains_key(k2) <==> m.contains_key(k2),
            m.contains_key(k2) ==> m.insert(k, v)[k2] == m[k2],
    {
    }

    /// Three distinct fresh keys, inserted in turn, are visited in that
    /// order; removing the middle one leaves the other two in order.
    pub proof fn lemma_insertion_order(k1: u64, k2: u64, k3: u64)
        requires
            k1 != k2,
            k1 != k3,
            k2 != k3,
        ensures
            ({
                let ord3 = Seq::<u64>::empty().push(k1).push(k2).push(k3);
                &&& ord3 == seq![k1, k2, k3]
                &&& ord3[1] == k2
                &&& ord3.remove(1) == seq![k1, k3]
            }),
    {
        let ord3 = Seq::<u64>::empty().push(k1).push(k2).push(k3);
        assert(ord3 =~= seq![k1, k2, k3]);
        assert(ord3.remove(1) =~= seq![k1, k3]);
    }
}

} // verus!
