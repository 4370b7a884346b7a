//! A sequential set with the capacity discipline of its concurrent
//! relatives.
//!
//! Elements live in a dense vector with no two comparing equal, and the
//! set keeps a raw capacity from which half is usable, mirroring the
//! load-factor rule of the open-addressing tables in this crate.
//! Contracts are phrased through [`first_index_of`], the index of the
//! first element comparing equal to the one sought.

use vstd::prelude::*;

use vstd::std_specs::cmp::PartialEqSpec;

verus! {

/// Index of the first element of `s` comparing equal to `x` under
/// `T`'s equality, or `-1` when none does.
pub open spec fn first_index_of<T: PartialEq>(s: Seq<T>, x: T) -> int
    decreases s.len(),
{
    if s.len() <= 0 {
        -1
    } else if s[0].eq_spec(&x) {
        0
    } else {
        let rest = first_index_of(s.subrange(1, s.len() as int), x);
        if rest < 0 {
            -1
        } else {
            rest + 1
        }
    }
}

/// `first_index_of` lands on a matching element, nothing before it
/// matches, and `-1` means nothing matches at all.
pub proof fn lemma_first_index_of<T: PartialEq>(s: Seq<T>, x: T)
    ensures
        -1 <= first_index_of(s, x) < s.len(),
        first_index_of(s, x) >= 0 ==> s[first_index_of(s, x)].eq_spec(&x),
        forall|j: int| 0 <= j < first_index_of(s, x) ==> !(#[trigger] s[j].eq_spec(&x)),
        first_index_of(s, x) == -1 ==> forall|j: int|
            0 <= j < s.len() ==> !(#[trigger] s[j].eq_spec(&x)),
    decreases s.len(),
{
    if s.len() > 0 && !s[0].eq_spec(&x) {
        let rest = s.subrange(1, s.len() as int);
        lemma_first_index_of(rest, x);
        let ri = first_index_of(rest, x);
        if ri >= 0 {
            assert(s[ri + 1] == rest[ri]);
        }
        assert forall|j: int| 0 <= j < first_index_of(s, x) implies !(#[trigger] s[j].eq_spec(
            &x,
        )) by {
            if j > 0 {
                assert(s[j] == rest[j - 1]);
                assert(!rest[j - 1].eq_spec(&x));
            }
        }
        if first_index_of(s, x) == -1 {
            assert forall|j: int| 0 <= j < s.len() implies !(#[trigger] s[j].eq_spec(&x)) by {
                if j > 0 {
                    assert(s[j] == rest[j - 1]);
                    assert(!rest[j - 1].eq_spec(&x));
                }
            }
        }
    }
}

/// A set of values, no two comparing equal.
///
/// Half of the raw capacity is usable, as in an open-addressing table
/// held at a load factor of one half; `reserve` grows the raw capacity
/// so that the requested headroom fits.
pub struct ConcurrentHashSet<T> {
    elems: Vec<T>,
    raw_capacity: usize,
}

impl<T> View for ConcurrentHashSet<T> {
    type V = Seq<T>;

    closed spec fn view(&self) -> Seq<T> {
        self.elems@
    }
}

impl<T: Eq> ConcurrentHashSet<T> {
    /// No two elements compare equal, and the load factor holds.
    pub closed spec fn wf(self) -> bool {
        &&& forall|a: int, b: int|
            0 <= a < b < self@.len() ==> !(#[trigger] self@[a].eq_spec(&self@[b]))
        &&& 2 * self@.len() <= self.raw_capacity
    }

    /// How many elements fit before the set must grow.
    pub closed spec fn spec_capacity(self) -> int {
        self.raw_capacity as int / 2
    }

    pub fn new() -> (s: Self)
        ensures
            s.wf(),
            s@ == Seq::<T>::empty(),
            s.spec_capacity() == 0,
    {
        Self::with_capacity(0)
    }

    pub fn with_capacity(capacity: usize) -> (s: Self)
        requires
            2 * capacity <= usize::MAX,
        ensures
            s.wf(),
            s@ == Seq::<T>::empty(),
            s.spec_capacity() == capacity,
    {
        let s = ConcurrentHashSet { elems: Vec::new(), raw_capacity: 2 * capacity };
        proof {
            assert(s@ =~= Seq::<T>::empty());
        }
        s
    }

    pub fn capacity(&self) -> (c: usize)
        ensures
            c == self.spec_capacity(),
    {
        self.raw_capacity / 2
    }

    pub fn len(&self) -> (n: usize)
        ensures
            n == self@.len(),
    {
        self.elems.len()
    }

    pub fn is_empty(&self) -> (b: bool)
        ensures
            b <==> self@.len() == 0,
    {
        self.elems.len() == 0
    }

    pub fn clear(&mut self)
        ensures
            final(self).wf(),
            final(self)@ == Seq::<T>::empty(),
            final(self).spec_capacity() == 0,
    {
        self.elems.clear();
        self.raw_capacity = 0;
        proof {
            assert(self@ =~= Seq::<T>::empty());
        }
    }

    /// Grow the raw capacity until `additional` more elements fit.
    pub fn reserve(&mut self, additional: usize)
        requires
            old(self).wf(),
            2 * (old(self)@.len() + additional) <= usize::MAX,
        ensures
            final(self).wf(),
            final(self)@ == old(self)@,
            final(self).spec_capacity() - final(self)@.len() >= additional,
            final(self).spec_capacity() >= old(self).spec_capacity(),
    {
        if self.capacity() - self.len() < additional {
            let raw = 2 * (self.len() + additional);
            if raw > self.raw_capacity {
                self.raw_capacity = raw;
            }
        }
    }

    /// Index of the first element matching `x`, or the length when absent.
    fn position_of(&self, x: &T) -> (r: usize)
        requires
            T::obeys_eq_spec(),
        ensures
            -1 <= first_index_of(self@, *x) < self@.len(),
            first_index_of(self@, *x) >= 0 ==> r == first_index_of(self@, *x),
            first_index_of(self@, *x) >= 0 ==> self@[first_index_of(self@, *x)].eq_spec(&*x),
            first_index_of(self@, *x) == -1 ==> r == self@.len(),
            first_index_of(self@, *x) == -1 ==> forall|j: int|
                0 <= j < self@.len() ==> !(#[trigger] self@[j].eq_spec(&*x)),
            r <= self@.len(),
    {
        let mut i: usize = 0;
        while i < self.elems.len()
            invariant
                T::obeys_eq_spec(),
                i <= self@.len(),
                forall|j: int| 0 <= j < i ==> !(#[trigger] self@[j].eq_spec(&*x)),
            decreases self.elems@.len() - i,
        {
            if self.elems[i] == *x {
                proof {
                    lemma_first_index_of(self@, *x);
                    assert(first_index_of(self@, *x) == i as int);
                }
                return i;
            }
            i = i + 1;
        }
        proof {
            lemma_first_index_of(self@, *x);
        }
        i
    }

    /// A borrow of the stored element comparing equal to `x`.
    pub fn get(&self, x: &T) -> (r: Option<&T>)
        requires
            T::obeys_eq_spec(),
        ensures
            first_index_of(self@, *x) == -1 ==> r is None,
            first_index_of(self@, *x) >= 0 ==> (r matches Some(e) && *e == self@[first_index_of(
                self@,
                *x,
            )]),
    {
        let i = self.position_of(x);
        if i < self.elems.len() {
            Some(&self.elems[i])
        } else {
            None
        }
    }

    /// Add `value` unless an equal element is already present; reports
    /// whether it was new.  Either way the stored element becomes the
    /// one given.
    pub fn insert(&mut self, value: T) -> (b: bool)
        requires
            old(self).wf(),
            vstd::laws_eq::obeys_eq::<T>(),
            2 * (old(self)@.len() + 1) <= usize::MAX,
        ensures
            final(self).wf(),
            b <==> first_index_of(old(self)@, value) == -1,
            ({
                let i = first_index_of(old(self)@, value);
                if i >= 0 {
                    final(self)@ == old(self)@.update(i, value)
                } else {
                    final(self)@ == old(self)@.push(value)
                }
            }),
    {
        let r = self.replace(value);
        match r {
            None => true,
            Some(_) => false,
        }
    }

    /// Put `value` in, handing back the equal element it displaces.
    pub fn replace(&mut self, value: T) -> (r: Option<T>)
        requires
            old(self).wf(),
            vstd::laws_eq::obeys_eq::<T>(),
            2 * (old(self)@.len() + 1) <= usize::MAX,
        ensures
            final(self).wf(),
            ({
                let i = first_index_of(old(self)@, value);
                if i >= 0 {
                    r == Some(old(self)@[i]) && final(self)@ == old(self)@.update(i, value)
                } else {
                    r is None && final(self)@ == old(self)@.push(value)
                }
            }),
    {
        self.reserve(1);
        let i = self.position_of(&value);
        if i < self.elems.len() {
            let mut tmp = value;
            core::mem::swap(&mut self.elems[i], &mut tmp);
            proof {
                reveal(vstd::laws_eq::obeys_eq_spec_properties);
                assert(self@ =~= old(self)@.update(i as int, value));
                assert forall|a: int, b: int| 0 <= a < b < self@.len() implies !(#[trigger] self@[
                    a
                ].eq_spec(&self@[b])) by {
                    assert(old(self)@[i as int].eq_spec(&value));
                    assert(!old(self)@[a].eq_spec(&old(self)@[b]));
                    if a == i as int {
                        assert(self@[a] == value);
                        assert(self@[b] == old(self)@[b]);
                    } else if b == i as int {
                        assert(self@[a] == old(self)@[a]);
                        assert(self@[b] == value);
                        assert(value.eq_spec(&old(self)@[i as int]));
                    } else {
                        assert(self@[a] == old(self)@[a]);
                        assert(self@[b] == old(self)@[b]);
                    }
                }
            }
            Some(tmp)
        } else {
            self.elems.push(value);
            proof {
                assert(self@ =~= old(self)@.push(value));
                assert forall|a: int, b: int| 0 <= a < b < self@.len() implies !(#[trigger] self@[
                    a
                ].eq_spec(&self@[b])) by {
                    assert(self@[a] == old(self)@[a]);
                    if b == old(self)@.len() {
                        assert(self@[b] == value);
                        assert(!old(self)@[a].eq_spec(&value));
                    } else {
                        assert(self@[b] == old(self)@[b]);
                    }
                }
            }
            None
        }
    }

    /// Drop the element comparing equal to `x`; reports whether one was
    /// there.
    pub fn remove(&mut self, x: &T) -> (b: bool)
        requires
            old(self).wf(),
            T::obeys_eq_spec(),
        ensures
            final(self).wf(),
            b <==> first_index_of(old(self)@, *x) >= 0,
            ({
                let i = first_index_of(old(self)@, *x);
                if i >= 0 {
                    final(self)@ == old(self)@.remove(i)
                } else {
                    final(self)@ == old(self)@
                }
            }),
    {
        let r = self.take(x);
        match r {
            None => false,
            Some(_) => true,
        }
    }

    /// Remove and hand back the element comparing equal to `x`.
    pub fn take(&mut self, x: &T) -> (r: Option<T>)
        requires
            old(self).wf(),
            T::obeys_eq_spec(),
        ensures
            final(self).wf(),
            ({
                let i = first_index_of(old(self)@, *x);
                if i >= 0 {
                    r == Some(old(self)@[i]) && final(self)@ == old(self)@.remove(i)
                } else {
                    r is None && final(self)@ == old(self)@
                }
            }),
    {
        let i = self.position_of(x);
        if i < self.elems.len() {
            let e = self.elems.remove(i);
            proof {
                assert(self@ =~= old(self)@.remove(i as int));
            }
            Some(e)
        } else {
            None
        }
    }
}

} // verus!
