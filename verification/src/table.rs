//! The open-addressing slot table.
//!
//! A fixed run of slots, each empty or holding one [`Record`], probed
//! linearly from the key's home slot.  The table keeps the classic
//! open-addressing contiguity invariant: the probe path from a stored
//! key's home slot to the slot that holds it has no empty slot, so a
//! lookup may stop at the first empty slot it meets.  Removal restores
//! the invariant by shifting later records of the cluster backwards
//! over the gap.  The table is held at a load factor of at most one
//! half, so a probe always meets an empty slot.
//!
//! The abstract value is a finite map from keys to values, kept in two
//! ghost maps: key to slot index, and key to value.

use vstd::prelude::*;

use crate::map::Record;

verus! {

/// The slot a key's probe sequence starts from.
pub open spec fn home_of(k: u64, cap: int) -> int {
    (k as int) % cap
}

/// Steps from slot `a` forward (cyclically) to slot `b`.
pub open spec fn dist(cap: int, a: int, b: int) -> int {
    if b >= a {
        b - a
    } else {
        b - a + cap
    }
}

/// The slot `t` steps after `h`, for `0 <= t < cap` and `0 <= h < cap`.
pub open spec fn probe(cap: int, h: int, t: int) -> int {
    if h + t < cap {
        h + t
    } else {
        h + t - cap
    }
}

/// Every slot on the probe path from `h` up to (excluding) `j` is full.
pub open spec fn path_filled<V>(s: Seq<Option<Record<V>>>, cap: int, h: int, j: int) -> bool {
    forall|u: int| 0 <= u < dist(cap, h, j) ==> (#[trigger] s[probe(cap, h, u)]) is Some
}

/// Every slot on the probe path from `h` up to (excluding) `j` is full
/// or is the one gap `g`.
pub open spec fn path_filled_except<V>(
    s: Seq<Option<Record<V>>>,
    cap: int,
    h: int,
    j: int,
    g: int,
) -> bool {
    forall|u: int|
        0 <= u < dist(cap, h, j) ==> ((#[trigger] s[probe(cap, h, u)]) is Some || probe(cap, h, u)
            == g)
}

/// Cyclic distances behave like distances between the probe offsets.
pub proof fn lemma_dist_transfer(cap: int, g0: int, a: int, b: int)
    requires
        0 < cap,
        0 <= g0 < cap,
        0 <= a < cap,
        0 <= b < cap,
    ensures
        dist(cap, probe(cap, g0, a), probe(cap, g0, b)) == dist(cap, a, b),
{
}

/// Following a probe path lands `dist` steps away, and only there.
pub proof fn lemma_probe_dist(cap: int, a: int, b: int)
    requires
        0 < cap,
        0 <= a < cap,
        0 <= b < cap,
    ensures
        0 <= dist(cap, a, b) < cap,
        probe(cap, a, dist(cap, a, b)) == b,
        (dist(cap, a, b) == 0) <==> (a == b),
{
}

/// How many slots of `s` are full.
pub open spec fn count_occ<V>(s: Seq<Option<Record<V>>>) -> int
    decreases s.len(),
{
    if s.len() == 0 {
        0
    } else {
        count_occ(s.drop_last()) + if s.last() is Some {
            1int
        } else {
            0int
        }
    }
}

pub proof fn lemma_count_occ_bounds<V>(s: Seq<Option<Record<V>>>)
    ensures
        0 <= count_occ(s) <= s.len(),
    decreases s.len(),
{
    if s.len() > 0 {
        lemma_count_occ_bounds(s.drop_last());
    }
}

/// Replacing one slot changes the count by the difference of the two.
pub proof fn lemma_count_occ_update<V>(s: Seq<Option<Record<V>>>, i: int, x: Option<Record<V>>)
    requires
        0 <= i < s.len(),
    ensures
        count_occ(s.update(i, x)) == count_occ(s) - (if s[i] is Some {
            1int
        } else {
            0int
        }) + (if x is Some {
            1int
        } else {
            0int
        }),
    decreases s.len(),
{
    let su = s.update(i, x);
    if i == s.len() - 1 {
        assert(su.drop_last() =~= s.drop_last());
    } else {
        assert(su.drop_last() =~= s.drop_last().update(i, x));
        lemma_count_occ_update(s.drop_last(), i, x);
    }
}

/// A table with fewer records than slots has an empty slot.
pub proof fn lemma_count_occ_has_empty<V>(s: Seq<Option<Record<V>>>)
    requires
        count_occ(s) < s.len(),
    ensures
        exists|e: int| 0 <= e < s.len() && !((#[trigger] s[e]) is Some),
    decreases s.len(),
{
    lemma_count_occ_bounds(s.drop_last());
    if s.last() is Some {
        lemma_count_occ_has_empty(s.drop_last());
        let e = choose|e: int| 0 <= e < s.len() - 1 && !((#[trigger] s.drop_last()[e]) is Some);
        assert(!(s[e] is Some));
    } else {
        assert(!(s[s.len() - 1] is Some));
    }
}

/// An open-addressing table mapping `u64` keys to values of `V`.
///
/// `contents()` is the map it represents; `wf()` ties the slots, the
/// ghost maps, the size and the contiguity invariant together.
pub struct Table<V> {
    slots: Vec<Option<Record<V>>>,
    used: usize,
    index_map: Ghost<Map<u64, int>>,
    value_map: Ghost<Map<u64, V>>,
}

impl<V> Table<V> {
    /// The map this table represents.
    pub closed spec fn contents(self) -> Map<u64, V> {
        self.value_map@
    }

    /// The raw slot count.
    pub closed spec fn raw(self) -> int {
        self.slots@.len() as int
    }

    /// How many slots are full; equals `contents().dom().len()`.
    pub closed spec fn used_count(self) -> int {
        self.used as int
    }

    pub closed spec fn wf(self) -> bool {
        let s = self.slots@;
        let cap = s.len() as int;
        &&& self.index_map@.dom().finite()
        &&& self.value_map@.dom() == self.index_map@.dom()
        &&& forall|k: u64| #[trigger]
            self.index_map@.contains_key(k) ==> {
                let j = self.index_map@[k];
                &&& 0 <= j < cap
                &&& s[j] is Some
                &&& s[j]->Some_0.spec_key() == k
                &&& s[j]->Some_0.spec_value() == self.value_map@[k]
            }
        &&& forall|j: int|
            0 <= j < cap && (#[trigger] s[j]) is Some ==> {
                &&& self.index_map@.contains_key(s[j]->Some_0.spec_key())
                &&& self.index_map@[s[j]->Some_0.spec_key()] == j
            }
        &&& forall|j: int|
            0 <= j < cap && (#[trigger] s[j]) is Some ==> path_filled(
                s,
                cap,
                home_of(s[j]->Some_0.spec_key(), cap),
                j,
            )
        &&& self.used as int == count_occ(s)
        &&& self.used as int == self.index_map@.dom().len()
        &&& 2 * (self.used as int) <= cap
    }

    /// `used_count` counts the keys of `contents`.
    pub proof fn lemma_used_is_dom_len(self)
        requires
            self.wf(),
        ensures
            self.used_count() == self.contents().dom().len(),
            self.contents().dom().finite(),
            0 <= self.used_count(),
            2 * self.used_count() <= self.raw(),
    {
        lemma_count_occ_bounds(self.slots@);
    }

    /// A run of `raw` empty slots.
    fn empty_slots(raw: usize) -> (v: Vec<Option<Record<V>>>)
        ensures
            v@.len() == raw,
            forall|j: int| 0 <= j < raw ==> !((#[trigger] v@[j]) is Some),
            count_occ(v@) == 0,
    {
        let mut v: Vec<Option<Record<V>>> = Vec::new();
        let mut i: usize = 0;
        while i < raw
            invariant
                i <= raw,
                v@.len() == i,
                forall|j: int| 0 <= j < i ==> !((#[trigger] v@[j]) is Some),
                count_occ(v@) == 0,
            decreases raw - i,
        {
            let ghost prev = v@;
            v.push(None);
            proof {
                assert(v@.drop_last() =~= prev);
            }
            i = i + 1;
        }
        v
    }

    pub fn with_capacity(raw: usize) -> (t: Self)
        ensures
            t.wf(),
            t.contents() == Map::<u64, V>::empty(),
            t.raw() == raw,
            t.used_count() == 0,
    {
        let t = Table {
            slots: Self::empty_slots(raw),
            used: 0,
            index_map: Ghost(Map::empty()),
            value_map: Ghost(Map::empty()),
        };
        proof {
            assert(t.index_map@.dom() =~= Set::<u64>::empty());
            assert(t.value_map@.dom() =~= Set::<u64>::empty());
            broadcast use vstd::set::axiom_set_empty_len;
        }
        t
    }

    /// The raw slot count.
    pub fn len(&self) -> (n: usize)
        ensures
            n == self.raw(),
    {
        self.slots.len()
    }

    /// The home slot of `k`.
    fn slot_index(&self, k: u64) -> (h: usize)
        requires
            self.slots@.len() > 0,
        ensures
            h == home_of(k, self.raw()),
            h < self.slots@.len(),
    {
        (k % (self.slots.len() as u64)) as usize
    }

    /// Walk the probe sequence of `k`: the slot holding `k`, or the
    /// first empty slot met.
    fn find(&self, k: u64) -> (res: (usize, bool))
        requires
            self.wf(),
            self.raw() > 0,
        ensures
            res.0 < self.raw(),
            res.1 ==> self.slots@[res.0 as int] is Some
                && self.slots@[res.0 as int]->Some_0.spec_key() == k
                && self.index_map@.contains_key(k) && self.index_map@[k] == res.0 as int,
            !res.1 ==> !(self.slots@[res.0 as int] is Some) && !self.index_map@.contains_key(k)
                && dist(self.raw(), home_of(k, self.raw()), res.0 as int) < self.raw()
                && path_filled(self.slots@, self.raw(), home_of(k, self.raw()), res.0 as int),
    {
        let cap = self.slots.len();
        let h = self.slot_index(k);
        proof {
            lemma_count_occ_has_empty(self.slots@);
        }
        let ghost oe: int = choose|e: int|
            0 <= e < self.slots@.len() && !((#[trigger] self.slots@[e]) is Some);
        let mut j = h;
        let mut t: Ghost<int> = Ghost(0int);
        loop
            invariant
                self.wf(),
                cap as int == self.raw(),
                cap > 0,
                h as int == home_of(k, cap as int),
                h < cap,
                0 <= oe < cap,
                !(self.slots@[oe] is Some),
                0 <= t@ <= dist(cap as int, h as int, oe),
                j < cap,
                j as int == probe(cap as int, h as int, t@),
                t@ == dist(cap as int, h as int, j as int),
                forall|u: int|
                    0 <= u < t@ ==> (#[trigger] self.slots@[probe(cap as int, h as int, u)])
                        is Some && self.slots@[probe(cap as int, h as int, u)]->Some_0.spec_key()
                        != k,
            decreases cap - t@,
        {
            match &self.slots[j] {
                None => {
                    proof {
                        if self.index_map@.contains_key(k) {
                            let jj = self.index_map@[k];
                            let d = dist(cap as int, h as int, jj);
                            assert(self.slots@[jj] is Some);
                            assert(path_filled(self.slots@, cap as int, h as int, jj));
                            assert(probe(cap as int, h as int, d) == jj);
                            if d < t@ {
                                assert(self.slots@[probe(cap as int, h as int, d)]
                                    ->Some_0.spec_key() != k);
                            } else if d > t@ {
                                assert(self.slots@[probe(cap as int, h as int, t@)] is Some);
                            }
                            assert(false);
                        }
                    }
                    return (j, false);
                },
                Some(rec) => {
                    if rec.key() == k {
                        return (j, true);
                    }
                },
            }
            proof {
                assert(probe(cap as int, h as int, dist(cap as int, h as int, oe)) == oe);
                assert(t@ < dist(cap as int, h as int, oe)) by {
                    if t@ == dist(cap as int, h as int, oe) {
                        assert(j as int == oe);
                    }
                }
            }
            j = if j + 1 == cap {
                0
            } else {
                j + 1
            };
            t = Ghost(t@ + 1);
        }
    }

    /// Read the value stored for `k`, if any.
    pub fn get(&self, k: u64) -> (r: Option<&V>)
        requires
            self.wf(),
        ensures
            self.contents().contains_key(k) ==> (r matches Some(v) && *v == self.contents()[k]),
            !self.contents().contains_key(k) ==> r is None,
    {
        if self.slots.len() == 0 {
            proof {
                if self.contents().contains_key(k) {
                    assert(self.index_map@.contains_key(k));
                }
            }
            return None;
        }
        let (j, found) = self.find(k);
        if found {
            match &self.slots[j] {
                Some(rec) => Some(rec.borrow_value()),
                None => {
                    proof {
                        assert(false);
                    }
                    None
                },
            }
        } else {
            proof {
                if self.contents().contains_key(k) {
                    assert(self.index_map@.contains_key(k));
                }
            }
            None
        }
    }

    /// Store `value` under `k`, handing back the value it replaces.
    /// The caller keeps the load factor: one more record must fit.
    pub fn insert(&mut self, k: u64, value: V) -> (r: Option<V>)
        requires
            old(self).wf(),
            2 * (old(self).used_count() + 1) <= old(self).raw(),
        ensures
            final(self).wf(),
            final(self).contents() == old(self).contents().insert(k, value),
            final(self).raw() == old(self).raw(),
            old(self).contents().contains_key(k) ==> r == Some(old(self).contents()[k]) && final(self).used_count() == old(self).used_count(),
            !old(self).contents().contains_key(k) ==> r is None && final(self).used_count() == old(self).used_count() + 1,
    {
        let (j, found) = self.find(k);
        let ghost s0 = self.slots@;
        let cap = self.slots.len();
        let newrec = Record::new(k, value);
        let ghost nr = newrec;
        let prior = self.slots[j].take();
        self.slots[j] = Some(newrec);
        proof {
            assert(self.slots@ =~= s0.update(j as int, Some(nr)));
            lemma_count_occ_update(s0, j as int, Some(nr));
        }
        self.index_map = Ghost(self.index_map@.insert(k, j as int));
        self.value_map = Ghost(self.value_map@.insert(k, value));
        if !found {
            self.used = self.used + 1;
        }
        proof {
            let s = self.slots@;
            assert(self.value_map@.dom() =~= self.index_map@.dom());
            assert forall|j2: int| 0 <= j2 < cap && (#[trigger] s[j2]) is Some implies {
                &&& self.index_map@.contains_key(s[j2]->Some_0.spec_key())
                &&& self.index_map@[s[j2]->Some_0.spec_key()] == j2
            } by {
                if j2 != j as int {
                    assert(s0[j2] is Some);
                    assert(s0[j2]->Some_0.spec_key() != k);
                }
            }
            assert forall|j2: int| 0 <= j2 < cap && (#[trigger] s[j2]) is Some implies path_filled(
                s,
                cap as int,
                home_of(s[j2]->Some_0.spec_key(), cap as int),
                j2,
            ) by {
                let h2 = home_of(s[j2]->Some_0.spec_key(), cap as int);
                if j2 == j as int {
                    if found {
                        assert(s0[j2] is Some);
                        assert(s0[j2]->Some_0.spec_key() == k);
                        assert(path_filled(s0, cap as int, h2, j2));
                    } else {
                        assert(path_filled(s0, cap as int, home_of(k, cap as int), j as int));
                    }
                    assert forall|u: int| 0 <= u < dist(cap as int, h2, j2) implies (
                    #[trigger] s[probe(cap as int, h2, u)]) is Some by {
                        assert(s0[probe(cap as int, h2, u)] is Some);
                    }
                } else {
                    assert(s0[j2] is Some);
                    assert(path_filled(s0, cap as int, h2, j2));
                    assert forall|u: int| 0 <= u < dist(cap as int, h2, j2) implies (
                    #[trigger] s[probe(cap as int, h2, u)]) is Some by {
                        assert(s0[probe(cap as int, h2, u)] is Some);
                    }
                }
            }
            if found {
                assert(self.index_map@.dom() =~= old(self).index_map@.dom());
            } else {
                assert(self.index_map@.dom() =~= old(self).index_map@.dom().insert(k));
                vstd::set::axiom_set_insert_len(old(self).index_map@.dom(), k);
            }
            assert(self.contents() =~= old(self).contents().insert(k, value));
        }
        match prior {
            Some(rec) => Some(rec.into_value()),
            None => None,
        }
    }

    /// Resize to at least `new_raw` slots, re-probing every record into
    /// its new slot.  The map the table represents is unchanged.
    pub fn resize(&mut self, new_raw: usize)
        requires
            old(self).wf(),
            2 * old(self).used_count() <= new_raw,
        ensures
            final(self).wf(),
            final(self).contents() == old(self).contents(),
            final(self).used_count() == old(self).used_count(),
            old(self).raw() < new_raw ==> final(self).raw() == new_raw,
            old(self).raw() >= new_raw ==> final(self).raw() == old(self).raw(),
    {
        if self.slots.len() >= new_raw {
            return ;
        }
        let mut old_slots = Self::empty_slots(new_raw);
        core::mem::swap(&mut self.slots, &mut old_slots);
        let ghost old_index = self.index_map@;
        let ghost old_values = self.value_map@;
        self.index_map = Ghost(Map::empty());
        self.value_map = Ghost(Map::empty());
        self.used = 0;
        proof {
            assert(self.index_map@.dom() =~= Set::<u64>::empty());
            assert(self.value_map@.dom() =~= Set::<u64>::empty());
            broadcast use vstd::set::axiom_set_empty_len;
        }
        let mut i: usize = 0;
        while i < old_slots.len()
            invariant
                self.wf(),
                self.raw() == new_raw,
                old_slots@.len() == old(self).slots@.len(),
                old_slots@.len() <= new_raw,
                i <= old_slots@.len(),
                forall|k: u64|
                    (#[trigger] self.contents().contains_key(k)) <==> (old_index.contains_key(k)
                        && old_index[k] < i),
                forall|k: u64| #[trigger]
                    self.contents().contains_key(k) ==> self.contents()[k] == old_values[k],
                forall|j: int| i <= j < old_slots@.len() ==> old_slots@[j] == old(self).slots@[j],
                old_index.dom().finite(),
                2 * old_index.dom().len() <= new_raw,
                old_values.dom() == old_index.dom(),
                forall|k: u64| #[trigger]
                    old_index.contains_key(k) ==> 0 <= old_index[k] < old_slots@.len()
                        && old(self).slots@[old_index[k]] is Some
                        && old(self).slots@[old_index[k]]->Some_0.spec_key() == k
                        && old(self).slots@[old_index[k]]->Some_0.spec_value() == old_values[k],
                forall|j: int|
                    0 <= j < old_slots@.len() && (#[trigger] old(self).slots@[j]) is Some ==> (
                    old_index.contains_key(old(self).slots@[j]->Some_0.spec_key())
                        && old_index[old(self).slots@[j]->Some_0.spec_key()] == j),
            decreases old_slots@.len() - i,
        {
            let slot = old_slots[i].take();
            match slot {
                Some(rec) => {
                    proof {
                        assert(old(self).slots@[i as int] is Some);
                        assert(old_index.contains_key(rec.spec_key()) && old_index[rec.spec_key()]
                            == i as int);
                        assert(!self.contents().contains_key(rec.spec_key()));
                        assert(self.index_map@.dom().subset_of(
                            old_index.dom().remove(rec.spec_key()),
                        )) by {
                            assert forall|k2: u64| self.index_map@.dom().contains(k2) implies
                            old_index.dom().remove(rec.spec_key()).contains(k2) by {
                                assert(self.contents().contains_key(k2));
                                assert(old_index.contains_key(k2) && old_index[k2] < i);
                            }
                        }
                        vstd::set::axiom_set_remove_len(old_index.dom(), rec.spec_key());
                        vstd::set_lib::lemma_len_subset(
                            self.index_map@.dom(),
                            old_index.dom().remove(rec.spec_key()),
                        );
                    }
                    let kk = rec.key();
                    let prior = self.insert(kk, rec.into_value());
                    proof {
                        assert(prior is None);
                    }
                },
                None => {
                    proof {
                        assert(!(old(self).slots@[i as int] is Some));
                    }
                },
            }
            i = i + 1;
        }
        proof {
            assert forall|k: u64| #[trigger]
                old_values.contains_key(k) implies self.contents().contains_key(k) by {
                assert(old_index.contains_key(k));
                assert(old_index[k] < old_slots@.len());
            }
            assert(self.contents() =~= old(self).contents());
            assert(self.index_map@.dom() =~= old_index.dom());
        }
    }

    /// Unmap `k`, handing back its value.  The gap the record leaves is
    /// closed by shifting later records of the cluster backwards
    /// wherever their own probe paths allow, restoring the contiguity
    /// invariant without tombstones.
    pub fn remove(&mut self, k: u64) -> (r: Option<V>)
        requires
            old(self).wf(),
        ensures
            final(self).wf(),
            final(self).contents() == old(self).contents().remove(k),
            final(self).raw() == old(self).raw(),
            old(self).contents().contains_key(k) ==> r == Some(old(self).contents()[k])
                && final(self).used_count() == old(self).used_count() - 1,
            !old(self).contents().contains_key(k) ==> r is None && final(self).used_count()
                == old(self).used_count(),
    {
        if self.slots.len() == 0 {
            proof {
                if self.contents().contains_key(k) {
                    assert(self.index_map@.contains_key(k));
                }
                assert(self.contents().remove(k) =~= self.contents());
            }
            return None;
        }
        let (j0, found) = self.find(k);
        if !found {
            proof {
                if self.contents().contains_key(k) {
                    assert(self.index_map@.contains_key(k));
                }
                assert(self.contents().remove(k) =~= self.contents());
            }
            return None;
        }
        let cap = self.slots.len();
        let ghost s_pre = self.slots@;
        proof {
            lemma_count_occ_has_empty(self.slots@);
        }
        let ghost e0: int = choose|e: int|
            0 <= e < self.slots@.len() && !((#[trigger] self.slots@[e]) is Some);
        let ghost g0: int = j0 as int;
        let ghost oe0: int = dist(cap as int, g0, e0);
        proof {
            lemma_probe_dist(cap as int, g0, e0);
            vstd::set::axiom_set_remove_len(self.index_map@.dom(), k);
        }
        let rec = self.slots[j0].take().unwrap();
        self.used = self.used - 1;
        self.index_map = Ghost(self.index_map@.remove(k));
        self.value_map = Ghost(self.value_map@.remove(k));
        let ghost vm1 = old(self).value_map@.remove(k);
        let ghost used1: int = old(self).used as int - 1;
        proof {
            assert(self.slots@ =~= s_pre.update(g0, None));
            lemma_count_occ_update(s_pre, g0, None);
            assert(self.value_map@.dom() =~= self.index_map@.dom());
            assert forall|o: int| 0 <= o < cap implies dist(
                cap as int,
                g0,
                probe(cap as int, g0, o),
            ) == o by {}
            assert forall|j2: int|
                0 <= j2 < cap && (#[trigger] self.slots@[j2]) is Some implies path_filled_except(
                self.slots@,
                cap as int,
                home_of(self.slots@[j2]->Some_0.spec_key(), cap as int),
                j2,
                g0,
            ) by {
                let h2 = home_of(self.slots@[j2]->Some_0.spec_key(), cap as int);
                assert(s_pre[j2] is Some);
                assert(path_filled(s_pre, cap as int, h2, j2));
                assert forall|u: int| 0 <= u < dist(cap as int, h2, j2) implies ((
                #[trigger] self.slots@[probe(cap as int, h2, u)]) is Some || probe(cap as int, h2, u)
                    == g0) by {
                    assert(s_pre[probe(cap as int, h2, u)] is Some);
                }
            }
        }
        proof {
            assert forall|k2: u64| #[trigger] self.index_map@.contains_key(k2) implies {
                let j2 = self.index_map@[k2];
                &&& 0 <= j2 < cap
                &&& self.slots@[j2] is Some
                &&& self.slots@[j2]->Some_0.spec_key() == k2
                &&& self.slots@[j2]->Some_0.spec_value() == self.value_map@[k2]
            } by {
                assert(old(self).index_map@.contains_key(k2));
                assert(old(self).index_map@[k2] != g0);
            }
            assert forall|j2: int|
                0 <= j2 < cap && (#[trigger] self.slots@[j2]) is Some implies {
                &&& self.index_map@.contains_key(self.slots@[j2]->Some_0.spec_key())
                &&& self.index_map@[self.slots@[j2]->Some_0.spec_key()] == j2
            } by {
                assert(s_pre[j2] is Some);
                assert(self.slots@[j2]->Some_0.spec_key() != k);
            }
        }
        let mut gap = j0;
        let mut j = if j0 + 1 == cap {
            0
        } else {
            j0 + 1
        };
        let ghost mut og: int = 0;
        let ghost mut t: int = 1;
        while self.slots[j].is_some()
            invariant
                self.wf_mid(cap as int, g0, og, t, oe0, gap as int, j as int, vm1, used1, k),
            decreases cap as int - t,
        {
            let kj = self.slots[j].as_ref().unwrap().key();
            let hj = (kj % (cap as u64)) as usize;
            let dj = if j >= hj {
                j - hj
            } else {
                cap - (hj - j)
            };
            let dg = if j >= gap {
                j - gap
            } else {
                cap - (gap - j)
            };
            proof {
                assert(hj as int == home_of(kj, cap as int));
                assert(dj as int == dist(cap as int, hj as int, j as int));
                assert(dg as int == dist(cap as int, gap as int, j as int));
                assert forall|o: int| 0 <= o < cap implies dist(
                    cap as int,
                    g0,
                    probe(cap as int, g0, o),
                ) == o by {}
                lemma_dist_transfer(cap as int, g0, og, t);
                assert(dg as int == t - og);
                assert(oe0 != t);
            }
            if dj >= dg {
                let ghost s_it = self.slots@;
                let ghost im_it = self.index_map@;
                let moved = self.slots[j].take();
                self.slots[gap] = moved;
                self.index_map = Ghost(self.index_map@.insert(kj, gap as int));
                proof {
                    let ci = cap as int;
                    assert(self.slots@ =~= s_it.update(j as int, None).update(
                        gap as int,
                        s_it[j as int],
                    ));
                    lemma_count_occ_update(s_it, j as int, None);
                    lemma_count_occ_update(
                        s_it.update(j as int, None),
                        gap as int,
                        s_it[j as int],
                    );
                    assert(im_it.contains_key(kj) && im_it[kj] == j as int);
                    assert(self.index_map@.dom() =~= im_it.dom());
                    assert(self.value_map@.dom() =~= self.index_map@.dom());
                    // the moved record keeps a fully covered path to the gap
                    assert(dist(ci, hj as int, gap as int) == dj - dg);
                    assert forall|u: int| 0 <= u < dist(ci, hj as int, gap as int) implies (
                    #[trigger] self.slots@[probe(ci, hj as int, u)]) is Some by {
                        assert(path_filled_except(s_it, ci, hj as int, j as int, gap as int));
                        assert(s_it[probe(ci, hj as int, u)] is Some || probe(ci, hj as int, u)
                            == gap as int);
                        lemma_probe_dist(ci, hj as int, gap as int);
                        if probe(ci, hj as int, u) == gap as int {
                            assert(u == dist(ci, hj as int, gap as int));
                        }
                        assert(probe(ci, hj as int, u) != j as int) by {
                            if probe(ci, hj as int, u) == j as int {
                                assert(u == dj);
                            }
                        }
                    }
                    // every other record tolerates the gap moving to j
                    assert forall|j2: int|
                        0 <= j2 < ci && (#[trigger] self.slots@[j2]) is Some implies
                    path_filled_except(
                        self.slots@,
                        ci,
                        home_of(self.slots@[j2]->Some_0.spec_key(), ci),
                        j2,
                        j as int,
                    ) by {
                        let h2 = home_of(self.slots@[j2]->Some_0.spec_key(), ci);
                        if j2 == gap as int {
                            assert(h2 == hj as int);
                            assert forall|u: int| 0 <= u < dist(ci, h2, j2) implies ((
                            #[trigger] self.slots@[probe(ci, h2, u)]) is Some || probe(ci, h2, u)
                                == j as int) by {}
                        } else {
                            assert(s_it[j2] is Some);
                            assert(path_filled_except(s_it, ci, h2, j2, gap as int));
                            assert forall|u: int| 0 <= u < dist(ci, h2, j2) implies ((
                            #[trigger] self.slots@[probe(ci, h2, u)]) is Some || probe(ci, h2, u)
                                == j as int) by {
                                assert(s_it[probe(ci, h2, u)] is Some || probe(ci, h2, u)
                                    == gap as int);
                            }
                        }
                    }
                    og = t;
                }
                gap = j;
            } else {
                // the record stays: its home lies strictly after the
                // gap, so its probe path never crosses it
                proof {
                    let ci = cap as int;
                    assert(dj < t - og);
                    assert(dist(ci, g0, hj as int) == t - dj);
                }
            }
            j = if j + 1 == cap {
                0
            } else {
                j + 1
            };
            proof {
                t = t + 1;
                assert(t <= oe0);
            }
        }
        proof {
            let ci = cap as int;
            assert forall|o: int| 0 <= o < cap implies dist(ci, g0, probe(ci, g0, o)) == o by {}
            lemma_probe_dist(ci, g0, gap as int);
            lemma_probe_dist(ci, g0, j as int);
            assert(gap != j);
            assert forall|j2: int|
                0 <= j2 < ci && (#[trigger] self.slots@[j2]) is Some implies path_filled(
                self.slots@,
                ci,
                home_of(self.slots@[j2]->Some_0.spec_key(), ci),
                j2,
            ) by {
                let h2 = home_of(self.slots@[j2]->Some_0.spec_key(), ci);
                let o2 = dist(ci, g0, j2);
                let oh2 = dist(ci, g0, home_of(self.slots@[j2]->Some_0.spec_key(), ci));
                let d2 = dist(ci, h2, j2);
                lemma_probe_dist(ci, g0, j2);
                lemma_probe_dist(ci, g0, h2);
                lemma_dist_transfer(ci, g0, oh2, o2);
                assert(path_filled_except(self.slots@, ci, h2, j2, gap as int));
                if og < o2 && o2 < t {
                    assert(og < oh2 <= o2);
                    assert(d2 == o2 - oh2);
                    assert forall|u: int| 0 <= u < d2 implies (#[trigger] self.slots@[probe(
                        ci,
                        h2,
                        u,
                    )]) is Some by {
                        assert(probe(ci, h2, u) == probe(ci, g0, oh2 + u));
                        assert(self.slots@[probe(ci, g0, oh2 + u)] is Some);
                    }
                } else {
                    // the path cannot cross the gap: it would then also
                    // cross the empty slot the scan stopped at
                    assert forall|u: int| 0 <= u < d2 implies (#[trigger] self.slots@[probe(
                        ci,
                        h2,
                        u,
                    )]) is Some by {
                        if probe(ci, h2, u) == gap as int {
                            lemma_dist_transfer(ci, g0, oh2, og);
                            lemma_dist_transfer(ci, g0, oh2, t);
                            assert(u == dist(ci, h2, gap as int));
                            assert(dist(ci, h2, j as int) < d2);
                            assert(probe(ci, h2, dist(ci, h2, j as int)) == j as int);
                            assert(self.slots@[j as int] is Some || j as int == gap as int);
                            assert(false);
                        }
                    }
                }
            }
            assert(self.value_map@ =~= old(self).value_map@.remove(k));
        }
        Some(rec.into_value())
    }

    /// The state remove keeps while the scan walks the cluster: one gap
    /// at `gap`, the scan at `j`, offsets measured from `g0`.
    spec fn wf_mid(
        self,
        cap: int,
        g0: int,
        og: int,
        t: int,
        oe0: int,
        gap: int,
        j: int,
        vm1: Map<u64, V>,
        used1: int,
        k: u64,
    ) -> bool {
        let s = self.slots@;
        &&& s.len() == cap
        &&& 0 < cap
        &&& 0 <= g0 < cap
        &&& 0 <= gap < cap
        &&& 0 <= j < cap
        &&& 0 <= og < t
        &&& t <= oe0
        &&& oe0 < cap
        &&& gap == probe(cap, g0, og)
        &&& j == probe(cap, g0, t)
        &&& !(s[probe(cap, g0, oe0)] is Some)
        &&& !(s[gap] is Some)
        &&& self.index_map@.dom().finite()
        &&& self.value_map@ == vm1
        &&& self.value_map@.dom() == self.index_map@.dom()
        &&& !self.index_map@.contains_key(k)
        &&& self.used as int == used1
        &&& self.used as int == count_occ(s)
        &&& self.used as int == self.index_map@.dom().len()
        &&& 2 * (self.used as int + 1) <= cap
        &&& forall|k2: u64| #[trigger]
            self.index_map@.contains_key(k2) ==> {
                let j2 = self.index_map@[k2];
                &&& 0 <= j2 < cap
                &&& s[j2] is Some
                &&& s[j2]->Some_0.spec_key() == k2
                &&& s[j2]->Some_0.spec_value() == self.value_map@[k2]
            }
        &&& forall|j2: int|
            0 <= j2 < cap && (#[trigger] s[j2]) is Some ==> {
                &&& self.index_map@.contains_key(s[j2]->Some_0.spec_key())
                &&& self.index_map@[s[j2]->Some_0.spec_key()] == j2
            }
        &&& forall|o: int|
            0 <= o < t && o != og ==> (#[trigger] s[probe(cap, g0, o)]) is Some
        &&& forall|j2: int|
            0 <= j2 < cap && (#[trigger] s[j2]) is Some ==> path_filled_except(
                s,
                cap,
                home_of(s[j2]->Some_0.spec_key(), cap),
                j2,
                gap,
            )
        &&& forall|j2: int|
            0 <= j2 < cap && (#[trigger] s[j2]) is Some && og < dist(cap, g0, j2) < t ==> (og
                < dist(cap, g0, home_of(s[j2]->Some_0.spec_key(), cap)) && dist(
                cap,
                g0,
                home_of(s[j2]->Some_0.spec_key(), cap),
            ) <= dist(cap, g0, j2))
    }
}

} // verus!
