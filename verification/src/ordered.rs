//! A sequential insertion-ordered map.
//!
//! Entries live in a dense vector in visit order; lookup is a scan that
//! compares keys with `==`.  The abstract value is the sequence of
//! `(key, value)` pairs in order, and every contract is phrased through
//! [`key_index_of`], the index of the first entry whose key compares
//! equal to the one sought.

use vstd::prelude::*;

use vstd::std_specs::cmp::PartialEqSpec;

verus! {

/// Index of the first entry of `s` whose key compares equal to `k`
/// under `K`'s equality, or `-1` when no entry does.
pub open spec fn key_index_of<K: PartialEq, V>(s: Seq<(K, V)>, k: K) -> int
    decreases s.len(),
{
    if s.len() <= 0 {
        -1
    } else if s[0].0.eq_spec(&k) {
        0
    } else {
        let rest = key_index_of(s.subrange(1, s.len() as int), k);
        if rest < 0 {
            -1
        } else {
            rest + 1
        }
    }
}

/// `key_index_of` lands on a matching entry, nothing before it matches,
/// and `-1` means nothing matches at all.
pub proof fn lemma_key_index_of<K: PartialEq, V>(s: Seq<(K, V)>, k: K)
    ensures
        -1 <= key_index_of(s, k) < s.len(),
        key_index_of(s, k) >= 0 ==> s[key_index_of(s, k)].0.eq_spec(&k),
        forall|j: int| 0 <= j < key_index_of(s, k) ==> !(#[trigger] s[j].0.eq_spec(&k)),
        key_index_of(s, k) == -1 ==> forall|j: int|
            0 <= j < s.len() ==> !(#[trigger] s[j].0.eq_spec(&k)),
    decreases s.len(),
{
    if s.len() > 0 && !s[0].0.eq_spec(&k) {
        let rest = s.subrange(1, s.len() as int);
        lemma_key_index_of(rest, k);
        let ri = key_index_of(rest, k);
        if ri >= 0 {
            assert(s[ri + 1] == rest[ri]);
        }
        assert forall|j: int| 0 <= j < key_index_of(s, k) implies !(#[trigger] s[j].0.eq_spec(&k)) by {
            if j > 0 {
                assert(s[j] == rest[j - 1]);
                assert(!rest[j - 1].0.eq_spec(&k));
            }
        }
        if key_index_of(s, k) == -1 {
            assert forall|j: int| 0 <= j < s.len() implies !(#[trigger] s[j].0.eq_spec(&k)) by {
                if j > 0 {
                    assert(s[j] == rest[j - 1]);
                    assert(!rest[j - 1].0.eq_spec(&k));
                }
            }
        }
    }
}

/// How `key_index_of` sees one more entry at the back: earlier matches
/// win, and a fresh matching entry is found exactly at the end.
pub proof fn lemma_key_index_of_push<K: PartialEq, V>(s: Seq<(K, V)>, x: (K, V), k: K)
    ensures
        key_index_of(s, k) >= 0 ==> key_index_of(s.push(x), k) == key_index_of(s, k),
        key_index_of(s, k) == -1 && x.0.eq_spec(&k) ==> key_index_of(s.push(x), k) == s.len(),
        key_index_of(s, k) == -1 && !x.0.eq_spec(&k) ==> key_index_of(s.push(x), k) == -1,
    decreases s.len(),
{
    let sp = s.push(x);
    if s.len() == 0 {
        assert(sp[0] == x);
        if !x.0.eq_spec(&k) {
            assert(sp.subrange(1, sp.len() as int) =~= Seq::<(K, V)>::empty());
            assert(key_index_of(sp.subrange(1, sp.len() as int), k) == -1);
            assert(key_index_of(sp, k) == -1);
        } else {
            assert(key_index_of(sp, k) == 0);
        }
    } else {
        assert(sp[0] == s[0]);
        if !s[0].0.eq_spec(&k) {
            let rest = s.subrange(1, s.len() as int);
            lemma_key_index_of_push(rest, x, k);
            assert(sp.subrange(1, sp.len() as int) =~= rest.push(x));
            assert(key_index_of(sp, k) == (if key_index_of(rest.push(x), k) < 0 {
                -1int
            } else {
                key_index_of(rest.push(x), k) + 1
            }));
        }
    }
}

/// Pushing a fresh key and then pushing it again replaces the value in
/// place: the key sits at the end after the first push, is found there
/// by the second, and only its value changes.
pub proof fn lemma_push_back_reinsert<K: PartialEq, V>(s: Seq<(K, V)>, k: K, v1: V, v2: V)
    requires
        k.eq_spec(&k),
        key_index_of(s, k) == -1,
    ensures
        key_index_of(s.push((k, v1)), k) == s.len(),
        s.push((k, v1))[s.len() as int].1 == v1,
        s.push((k, v1)).update(s.len() as int, (s.push((k, v1))[s.len() as int].0, v2)) == s.push(
            (k, v2),
        ),
        s.push((k, v1)).len() == s.push((k, v2)).len(),
{
    lemma_key_index_of_push(s, (k, v1), k);
    assert(s.push((k, v1)).update(s.len() as int, (s.push((k, v1))[s.len() as int].0, v2)) =~= s.push(
        (k, v2),
    ));
}

/// One entry of the map: a key and its value.
pub struct Node<K, V> {
    key: K,
    value: V,
}

impl<K, V> View for Node<K, V> {
    type V = (K, V);

    closed spec fn view(&self) -> (K, V) {
        (self.key, self.value)
    }
}

impl<K, V> Node<K, V> {
    pub fn new(k: K, v: V) -> (n: Self)
        ensures
            n@ == (k, v),
    {
        Node { key: k, value: v }
    }
}

/// A map whose entries keep the order they were inserted in.
///
/// `push_back` and `push_front` add a new key at an end; re-inserting
/// an existing key replaces its value in place.  Removal closes the
/// gap, preserving the order of the rest.
pub struct OrderedHashMap<K, V> {
    nodes: Vec<Node<K, V>>,
}

impl<K, V> View for OrderedHashMap<K, V> {
    type V = Seq<(K, V)>;

    closed spec fn view(&self) -> Seq<(K, V)> {
        self.nodes@.map(|i: int, n: Node<K, V>| (n.key, n.value))
    }
}

impl<K: Eq, V> OrderedHashMap<K, V> {
    /// No two entries hold keys that compare equal.
    pub open spec fn wf(self) -> bool {
        forall|a: int, b: int|
            0 <= a < b < self@.len() ==> !(#[trigger] self@[a].0.eq_spec(&self@[b].0))
    }

    pub fn new() -> (m: Self)
        ensures
            m.wf(),
            m@ == Seq::<(K, V)>::empty(),
    {
        let m = OrderedHashMap { nodes: Vec::new() };
        proof {
            assert(m@ =~= Seq::<(K, V)>::empty());
        }
        m
    }

    pub fn len(&self) -> (n: usize)
        ensures
            n == self@.len(),
    {
        self.nodes.len()
    }

    pub fn is_empty(&self) -> (b: bool)
        ensures
            b <==> self@.len() == 0,
    {
        self.nodes.len() == 0
    }

    pub fn clear(&mut self)
        ensures
            final(self).wf(),
            final(self)@ == Seq::<(K, V)>::empty(),
    {
        self.nodes.clear();
        proof {
            assert(self@ =~= Seq::<(K, V)>::empty());
        }
    }

    /// Index of the first entry matching `k`, or the length when absent.
    fn position_of(&self, k: &K) -> (r: usize)
        requires
            K::obeys_eq_spec(),
        ensures
            -1 <= key_index_of(self@, *k) < self@.len(),
            key_index_of(self@, *k) >= 0 ==> r == key_index_of(self@, *k),
            key_index_of(self@, *k) >= 0 ==> self@[key_index_of(self@, *k)].0.eq_spec(&*k),
            key_index_of(self@, *k) == -1 ==> r == self@.len(),
            key_index_of(self@, *k) == -1 ==> forall|j: int|
                0 <= j < self@.len() ==> !(#[trigger] self@[j].0.eq_spec(&*k)),
            r <= self@.len(),
    {
        let mut i: usize = 0;
        while i < self.nodes.len()
            invariant
                K::obeys_eq_spec(),
                i <= self@.len(),
                self@.len() == self.nodes@.len(),
                forall|j: int| 0 <= j < i ==> !(#[trigger] self@[j].0.eq_spec(&*k)),
            decreases self.nodes@.len() - i,
        {
            let hit = self.nodes[i].key == *k;
            proof {
                assert(self@[i as int] == (self.nodes@[i as int].key, self.nodes@[i as int].value));
            }
            if hit {
                proof {
                    lemma_key_index_of(self@, *k);
                    assert(self@[i as int].0.eq_spec(&*k));
                    assert(key_index_of(self@, *k) == i as int);
                }
                return i;
            }
            i = i + 1;
        }
        proof {
            lemma_key_index_of(self@, *k);
            assert(key_index_of(self@, *k) == -1);
        }
        i
    }

    pub fn get(&self, k: &K) -> (r: Option<&V>)
        requires
            K::obeys_eq_spec(),
        ensures
            key_index_of(self@, *k) == -1 ==> r is None,
            key_index_of(self@, *k) >= 0 ==> (r matches Some(v) && *v == self@[key_index_of(
                self@,
                *k,
            )].1),
    {
        let i = self.position_of(k);
        if i < self.nodes.len() {
            Some(&self.nodes[i].value)
        } else {
            None
        }
    }

    pub fn contains_key(&self, k: &K) -> (b: bool)
        requires
            K::obeys_eq_spec(),
        ensures
            b <==> key_index_of(self@, *k) >= 0,
    {
        self.position_of(k) < self.nodes.len()
    }

    /// Strict lookup: the key must be present.
    pub fn index(&self, k: &K) -> (r: &V)
        requires
            K::obeys_eq_spec(),
            key_index_of(self@, *k) >= 0,
        ensures
            *r == self@[key_index_of(self@, *k)].1,
    {
        let i = self.position_of(k);
        &self.nodes[i].value
    }

    /// Append a new key at the back; replace in place when present.
    pub fn push_back(&mut self, k: K, v: V) -> (r: Option<V>)
        requires
            old(self).wf(),
            K::obeys_eq_spec(),
        ensures
            final(self).wf(),
            ({
                let i = key_index_of(old(self)@, k);
                if i >= 0 {
                    r == Some(old(self)@[i].1) && final(self)@ == old(self)@.update(
                        i,
                        (old(self)@[i].0, v),
                    )
                } else {
                    r is None && final(self)@ == old(self)@.push((k, v))
                }
            }),
    {
        let i = self.position_of(&k);
        if i < self.nodes.len() {
            let mut tmp = v;
            core::mem::swap(&mut self.nodes[i].value, &mut tmp);
            proof {
                assert(self@ =~= old(self)@.update(i as int, (old(self)@[i as int].0, v)));
                assert forall|a: int, b: int| 0 <= a < b < self@.len() implies !(#[trigger] self@[
                    a
                ].0.eq_spec(&self@[b].0)) by {
                    assert(self@[a].0 == old(self)@[a].0);
                    assert(self@[b].0 == old(self)@[b].0);
                }
            }
            Some(tmp)
        } else {
            self.nodes.push(Node { key: k, value: v });
            proof {
                assert(self@ =~= old(self)@.push((k, v)));
                assert forall|a: int, b: int| 0 <= a < b < self@.len() implies !(#[trigger] self@[
                    a
                ].0.eq_spec(&self@[b].0)) by {
                    assert(self@[a].0 == old(self)@[a].0);
                    if b == old(self)@.len() {
                        assert(!old(self)@[a].0.eq_spec(&k));
                    } else {
                        assert(self@[b].0 == old(self)@[b].0);
                    }
                }
            }
            None
        }
    }

    /// Add a new key at the front; replace in place when present.
    ///
    /// A fresh key lands in front of every stored key, so this one
    /// operation needs equality to be symmetric and transitive, not
    /// just consistent with `==`.
    pub fn push_front(&mut self, k: K, v: V) -> (r: Option<V>)
        requires
            old(self).wf(),
            vstd::laws_eq::obeys_eq::<K>(),
        ensures
            final(self).wf(),
            ({
                let i = key_index_of(old(self)@, k);
                if i >= 0 {
                    r == Some(old(self)@[i].1) && final(self)@ == old(self)@.update(
                        i,
                        (old(self)@[i].0, v),
                    )
                } else {
                    r is None && final(self)@ == seq![(k, v)] + old(self)@
                }
            }),
    {
        let i = self.position_of(&k);
        if i < self.nodes.len() {
            let mut tmp = v;
            core::mem::swap(&mut self.nodes[i].value, &mut tmp);
            proof {
                assert(self@ =~= old(self)@.update(i as int, (old(self)@[i as int].0, v)));
                assert forall|a: int, b: int| 0 <= a < b < self@.len() implies !(#[trigger] self@[
                    a
                ].0.eq_spec(&self@[b].0)) by {
                    assert(self@[a].0 == old(self)@[a].0);
                    assert(self@[b].0 == old(self)@[b].0);
                }
            }
            Some(tmp)
        } else {
            self.nodes.insert(0, Node { key: k, value: v });
            proof {
                reveal(vstd::laws_eq::obeys_eq_spec_properties);
                assert(self@ =~= seq![(k, v)] + old(self)@);
                assert forall|a: int, b: int| 0 <= a < b < self@.len() implies !(#[trigger] self@[
                    a
                ].0.eq_spec(&self@[b].0)) by {
                    assert(self@[b].0 == old(self)@[b - 1].0);
                    if a == 0 {
                        assert(self@[a].0 == k);
                        assert(!old(self)@[b - 1].0.eq_spec(&k));
                        assert(!k.eq_spec(&old(self)@[b - 1].0));
                    } else {
                        assert(self@[a].0 == old(self)@[a - 1].0);
                    }
                }
            }
            None
        }
    }

    /// `push_back` under its traditional name.
    pub fn insert_back(&mut self, k: K, v: V) -> (r: Option<V>)
        requires
            old(self).wf(),
            K::obeys_eq_spec(),
        ensures
            final(self).wf(),
            ({
                let i = key_index_of(old(self)@, k);
                if i >= 0 {
                    r == Some(old(self)@[i].1) && final(self)@ == old(self)@.update(
                        i,
                        (old(self)@[i].0, v),
                    )
                } else {
                    r is None && final(self)@ == old(self)@.push((k, v))
                }
            }),
    {
        self.push_back(k, v)
    }

    /// `push_front` under its traditional name.
    pub fn insert_front(&mut self, k: K, v: V) -> (r: Option<V>)
        requires
            old(self).wf(),
            vstd::laws_eq::obeys_eq::<K>(),
        ensures
            final(self).wf(),
            ({
                let i = key_index_of(old(self)@, k);
                if i >= 0 {
                    r == Some(old(self)@[i].1) && final(self)@ == old(self)@.update(
                        i,
                        (old(self)@[i].0, v),
                    )
                } else {
                    r is None && final(self)@ == seq![(k, v)] + old(self)@
                }
            }),
    {
        self.push_front(k, v)
    }

    pub fn remove(&mut self, k: &K) -> (r: Option<V>)
        requires
            old(self).wf(),
            K::obeys_eq_spec(),
        ensures
            final(self).wf(),
            ({
                let i = key_index_of(old(self)@, *k);
                if i >= 0 {
                    r == Some(old(self)@[i].1) && final(self)@ == old(self)@.remove(i)
                } else {
                    r is None && final(self)@ == old(self)@
                }
            }),
    {
        let i = self.position_of(k);
        if i < self.nodes.len() {
            let n = self.nodes.remove(i);
            proof {
                assert(self@ =~= old(self)@.remove(i as int));
            }
            Some(n.value)
        } else {
            None
        }
    }

    /// Remove and return the oldest entry.
    pub fn pop_front(&mut self) -> (r: Option<(K, V)>)
        requires
            old(self).wf(),
        ensures
            final(self).wf(),
            old(self)@.len() == 0 ==> r is None && final(self)@ == old(self)@,
            old(self)@.len() > 0 ==> r == Some(old(self)@[0]) && final(self)@ == old(self)@.remove(0),
    {
        if self.nodes.len() == 0 {
            None
        } else {
            let n = self.nodes.remove(0);
            proof {
                assert(self@ =~= old(self)@.remove(0));
            }
            Some((n.key, n.value))
        }
    }

    /// Remove and return the newest entry.
    pub fn pop_back(&mut self) -> (r: Option<(K, V)>)
        requires
            old(self).wf(),
        ensures
            final(self).wf(),
            old(self)@.len() == 0 ==> r is None && final(self)@ == old(self)@,
            old(self)@.len() > 0 ==> r == Some(old(self)@.last()) && final(self)@ == old(self)@.drop_last(),
    {
        match self.nodes.pop() {
            None => {
                proof {
                    assert(self@ =~= old(self)@);
                }
                None
            },
            Some(n) => {
                proof {
                    assert(self@ =~= old(self)@.drop_last());
                }
                Some((n.key, n.value))
            },
        }
    }

    pub fn first(&self) -> (r: Option<(&K, &V)>)
        ensures
            self@.len() == 0 ==> r is None,
            self@.len() > 0 ==> (r matches Some(p) && *p.0 == self@[0].0 && *p.1 == self@[0].1),
    {
        if self.nodes.len() == 0 {
            None
        } else {
            let n = &self.nodes[0];
            Some((&n.key, &n.value))
        }
    }

    pub fn last(&self) -> (r: Option<(&K, &V)>)
        ensures
            self@.len() == 0 ==> r is None,
            self@.len() > 0 ==> (r matches Some(p) && *p.0 == self@.last().0 && *p.1
                == self@.last().1),
    {
        if self.nodes.len() == 0 {
            None
        } else {
            let n = &self.nodes[self.nodes.len() - 1];
            Some((&n.key, &n.value))
        }
    }

    /// The entry directly after the one matching `k` in visit order.
    pub fn next(&self, k: &K) -> (r: Option<(&K, &V)>)
        requires
            K::obeys_eq_spec(),
        ensures
            ({
                let i = key_index_of(self@, *k);
                if 0 <= i && i + 1 < self@.len() {
                    r matches Some(p) && *p.0 == self@[i + 1].0 && *p.1 == self@[i + 1].1
                } else {
                    r is None
                }
            }),
    {
        let i = self.position_of(k);
        if i < self.nodes.len() && i + 1 < self.nodes.len() {
            let n = &self.nodes[i + 1];
            Some((&n.key, &n.value))
        } else {
            None
        }
    }

    pub fn iter(&self) -> (it: Iter<'_, K, V>)
        ensures
            it.entries() == self@,
            it.position() == 0,
    {
        Iter { map: self, pos: 0 }
    }
}

/// A cursor over an [`OrderedHashMap`], yielding entries oldest first.
pub struct Iter<'a, K, V> {
    map: &'a OrderedHashMap<K, V>,
    pos: usize,
}

impl<'a, K, V> Iter<'a, K, V> {
    /// The entries being walked, in visit order.
    pub closed spec fn entries(self) -> Seq<(K, V)> {
        self.map@
    }

    /// How many entries have been yielded so far.
    pub closed spec fn position(self) -> int {
        self.pos as int
    }

    pub fn next(&mut self) -> (r: Option<(&'a K, &'a V)>)
        ensures
            final(self).entries() == old(self).entries(),
            old(self).position() >= old(self).entries().len() ==> r is None && final(self).position()
                == old(self).position(),
            old(self).position() < old(self).entries().len() ==> (r matches Some(p) && *p.0
                == old(self).entries()[old(self).position()].0 && *p.1 == old(self).entries()[old(self).position()].1 && final(self).position() == old(self).position() + 1),
    {
        if self.pos < self.map.nodes.len() {
            let n = &self.map.nodes[self.pos];
            self.pos = self.pos + 1;
            Some((&n.key, &n.value))
        } else {
            None
        }
    }
}

} // verus!
