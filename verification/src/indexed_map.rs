//! An insertion-ordered map from a `u32` index to a value.
//!
//! Coverage records pair descriptor maps and hit maps whose keys are small
//! integer indices. The merge engine relies on iteration following insertion
//! order, and on `insert` keeping the position of an existing key while
//! replacing its value. The view of a map is the sequence of its entries in
//! that order.

use vstd::prelude::*;

use crate::deep_clone::DeepClone;

verus! {

/// Does some entry of `s` carry the key `k`?
pub open spec fn has_key<U>(s: Seq<(u32, U)>, k: u32) -> bool {
    exists|i: int| 0 <= i < s.len() && s[i].0 == k
}

/// The position of the first entry of `s` carrying the key `k`.
pub open spec fn first_idx<U>(s: Seq<(u32, U)>, k: u32) -> int
    decreases s.len(),
{
    if s.len() == 0 {
        0
    } else if s[0].0 == k {
        0
    } else {
        1 + first_idx(s.subrange(1, s.len() as int), k)
    }
}

/// The value of the first entry of `s` carrying the key `k`.
pub open spec fn spec_get<U>(s: Seq<(u32, U)>, k: u32) -> U {
    s[first_idx(s, k)].1
}

/// What `insert` does to the entry sequence: replace the value at the first
/// occurrence of the key, keeping its position, or else append a new entry.
pub open spec fn upsert<U>(s: Seq<(u32, U)>, k: u32, u: U) -> Seq<(u32, U)> {
    if has_key(s, k) {
        s.update(first_idx(s, k), (k, u))
    } else {
        s.push((k, u))
    }
}

/// No two entries of `s` carry the same key.
pub open spec fn distinct_keys<U>(s: Seq<(u32, U)>) -> bool {
    forall|i: int, j: int| 0 <= i < j < s.len() ==> s[i].0 != s[j].0
}

pub proof fn lemma_first_idx<U>(s: Seq<(u32, U)>, k: u32)
    requires
        has_key(s, k),
    ensures
        0 <= first_idx(s, k) < s.len(),
        s[first_idx(s, k)].0 == k,
        forall|j: int| 0 <= j < first_idx(s, k) ==> s[j].0 != k,
    decreases s.len(),
{
    if s.len() == 0 {
    } else if s[0].0 == k {
    } else {
        let t = s.subrange(1, s.len() as int);
        assert(has_key(t, k)) by {
            let i = choose|i: int| 0 <= i < s.len() && s[i].0 == k;
            assert(t[i - 1].0 == k);
        }
        lemma_first_idx(t, k);
        assert forall|j: int| 0 <= j < first_idx(s, k) implies s[j].0 != k by {
            if j > 0 {
                assert(t[j - 1].0 != k);
            }
        }
    }
}

/// `upsert` keeps keys distinct.
pub proof fn lemma_upsert_distinct<U>(s: Seq<(u32, U)>, k: u32, u: U)
    requires
        distinct_keys(s),
    ensures
        distinct_keys(upsert(s, k, u)),
        forall|k2: u32| has_key(upsert(s, k, u), k2) <==> (has_key(s, k2) || k2 == k),
{
    if has_key(s, k) {
        lemma_first_idx(s, k);
        let t = s.update(first_idx(s, k), (k, u));
        assert forall|k2: u32| has_key(t, k2) implies (has_key(s, k2) || k2 == k) by {
            let i = choose|i: int| 0 <= i < t.len() && t[i].0 == k2;
            if i != first_idx(s, k) {
                assert(s[i].0 == k2);
            }
        }
        assert forall|k2: u32| has_key(s, k2) || k2 == k implies has_key(t, k2) by {
            if k2 == k {
                assert(t[first_idx(s, k)].0 == k2);
            } else {
                let i = choose|i: int| 0 <= i < s.len() && s[i].0 == k2;
                assert(t[i].0 == k2);
            }
        }
    } else {
        let t = s.push((k, u));
        assert forall|k2: u32| has_key(t, k2) implies (has_key(s, k2) || k2 == k) by {
            let i = choose|i: int| 0 <= i < t.len() && t[i].0 == k2;
            if i < s.len() {
                assert(s[i].0 == k2);
            }
        }
        assert forall|k2: u32| has_key(s, k2) || k2 == k implies has_key(t, k2) by {
            if k2 == k {
                assert(t[s.len() as int].0 == k2);
            } else {
                let i = choose|i: int| 0 <= i < s.len() && s[i].0 == k2;
                assert(t[i].0 == k2);
            }
        }
    }
}

/// The entry sequence built by inserting each pair of `s`, in order, into `acc`.
pub open spec fn fold_upsert<U>(acc: Seq<(u32, U)>, s: Seq<(u32, U)>) -> Seq<(u32, U)>
    decreases s.len(),
{
    if s.len() == 0 {
        acc
    } else {
        fold_upsert(upsert(acc, s[0].0, s[0].1), s.subrange(1, s.len() as int))
    }
}

/// An insertion-ordered map from a `u32` index to a value. Iteration and
/// the view follow insertion order; inserting an existing key replaces its
/// value in place.
#[derive(Clone, Debug, PartialEq)]
pub struct IndexedMap<V> {
    entries: Vec<(u32, V)>,
}

impl<V: View> View for IndexedMap<V> {
    type V = Seq<(u32, V::V)>;

    closed spec fn view(&self) -> Seq<(u32, V::V)> {
        self.entries@.map(|i: int, e: (u32, V)| (e.0, e.1@))
    }
}

impl<V: View> IndexedMap<V> {
    pub fn new() -> (r: IndexedMap<V>)
        ensures
            r@ == Seq::<(u32, V::V)>::empty(),
    {
        IndexedMap { entries: Vec::new() }
    }

    pub fn len(&self) -> (n: usize)
        ensures
            n == self@.len(),
    {
        self.entries.len()
    }

    pub fn key_at(&self, i: usize) -> (k: u32)
        requires
            i < self@.len(),
        ensures
            k == self@[i as int].0,
    {
        self.entries[i].0
    }

    pub fn value_at(&self, i: usize) -> (v: &V)
        requires
            i < self@.len(),
        ensures
            v@ == self@[i as int].1,
    {
        &self.entries[i].1
    }

    pub fn contains_key(&self, k: u32) -> (b: bool)
        ensures
            b == has_key(self@, k),
    {
        let n = self.entries.len();
        let mut i: usize = 0;
        while i < n
            invariant
                0 <= i <= n,
                n == self@.len(),
                forall|j: int| 0 <= j < i ==> self@[j].0 != k,
            decreases n - i,
        {
            if self.entries[i].0 == k {
                assert(self@[i as int].0 == k);
                return true;
            }
            i = i + 1;
        }
        false
    }

    pub fn get(&self, k: u32) -> (r: Option<&V>)
        ensures
            match r {
                Some(v) => has_key(self@, k) && v@ == spec_get(self@, k),
                None => !has_key(self@, k),
            },
    {
        let n = self.entries.len();
        let mut i: usize = 0;
        while i < n
            invariant
                0 <= i <= n,
                n == self@.len(),
                forall|j: int| 0 <= j < i ==> self@[j].0 != k,
            decreases n - i,
        {
            if self.entries[i].0 == k {
                assert(self@[i as int].0 == k);
                proof {
                    lemma_first_idx(self@, k);
                    assert(first_idx(self@, k) == i);
                }
                return Some(&self.entries[i].1);
            }
            i = i + 1;
        }
        None
    }

    pub fn insert(&mut self, k: u32, v: V)
        ensures
            final(self)@ == upsert(old(self)@, k, v@),
    {
        let ghost s0 = self@;
        let n = self.entries.len();
        let mut i: usize = 0;
        while i < n
            invariant
                0 <= i <= n,
                self@ == s0,
                s0 == old(self)@,
                n == s0.len(),
                forall|j: int| 0 <= j < i ==> s0[j].0 != k,
            decreases n - i,
        {
            if self.entries[i].0 == k {
                assert(s0[i as int].0 == k);
                proof {
                    assert(has_key(s0, k));
                    lemma_first_idx(s0, k);
                    assert(first_idx(s0, k) == i);
                }
                let ghost vv = v@;
                self.entries.set(i, (k, v));
                assert(self@ =~= s0.update(i as int, (k, vv)));
                return ;
            }
            i = i + 1;
        }
        assert(!has_key(s0, k));
        self.entries.push((k, v));
        assert(self@ =~= s0.push((k, v@)));
    }

    /// Builds a map by inserting each pair in order; a repeated key keeps
    /// its first position and the last value, as `insert` does.
    pub fn from_pairs(pairs: Vec<(u32, V)>) -> (r: IndexedMap<V>)
        ensures
            r@ == fold_upsert(
                Seq::<(u32, V::V)>::empty(),
                pairs@.map(|i: int, e: (u32, V)| (e.0, e.1@)),
            ),
    {
        let ghost pv = pairs@.map(|i: int, e: (u32, V)| (e.0, e.1@));
        let mut rest = pairs;
        let mut m: IndexedMap<V> = IndexedMap::new();
        let ghost mut done: int = 0;
        while rest.len() > 0
            invariant
                0 <= done <= pv.len(),
                rest@.map(|i: int, e: (u32, V)| (e.0, e.1@)) =~= pv.subrange(
                    done,
                    pv.len() as int,
                ),
                fold_upsert(m@, pv.subrange(done, pv.len() as int)) == fold_upsert(
                    Seq::<(u32, V::V)>::empty(),
                    pv,
                ),
            decreases rest@.len(),
        {
            let ghost todo = pv.subrange(done, pv.len() as int);
            let ghost m_before = m@;
            let ghost rest_before = rest@;
            let (k, v) = rest.remove(0);
            proof {
                assert(rest_before.map(|i: int, e: (u32, V)| (e.0, e.1@))[0] == todo[0]);
                assert(todo[0] == (k, v@));
            }
            m.insert(k, v);
            proof {
                done = done + 1;
                assert(rest@.map(|i: int, e: (u32, V)| (e.0, e.1@)) =~= pv.subrange(
                    done,
                    pv.len() as int,
                )) by {
                    let f = |i: int, e: (u32, V)| (e.0, e.1@);
                    assert(rest@ =~= rest_before.subrange(1, rest_before.len() as int));
                    assert forall|i: int| 0 <= i < rest@.len() implies rest@.map(f)[i] == pv.subrange(
                        done,
                        pv.len() as int,
                    )[i] by {
                        assert(rest@.map(f)[i] == f(i, rest_before[i + 1]));
                        assert(rest_before.map(f)[i + 1] == f(i + 1, rest_before[i + 1]));
                        assert(rest_before.map(f)[i + 1] == todo[i + 1]);
                    }
                }
                assert(m@ == upsert(m_before, todo[0].0, todo[0].1));
                assert(fold_upsert(m_before, todo) == fold_upsert(m@, todo.subrange(
                    1,
                    todo.len() as int,
                )));
                assert(pv.subrange(done, pv.len() as int) =~= todo.subrange(1, todo.len() as int));
            }
        }
        proof {
            assert(rest@.map(|i: int, e: (u32, V)| (e.0, e.1@)).len() == 0);
            assert(done == pv.len());
            assert(pv.subrange(done, pv.len() as int) =~= Seq::<(u32, V::V)>::empty());
        }
        m
    }

    /// Replaces the value of the entry at position `i`, keeping its key.
    pub fn set_value_at(&mut self, i: usize, v: V)
        requires
            i < old(self)@.len(),
        ensures
            final(self)@ == old(self)@.update(i as int, (old(self)@[i as int].0, v@)),
    {
        let k = self.entries[i].0;
        self.entries.set(i, (k, v));
        assert(self@ =~= old(self)@.update(i as int, (old(self)@[i as int].0, v@)));
    }
}

impl<V: DeepClone> DeepClone for IndexedMap<V> {
    fn deep_clone(&self) -> (r: IndexedMap<V>)
        ensures
            r@ == self@,
    {
        let n = self.entries.len();
        let mut entries: Vec<(u32, V)> = Vec::new();
        let mut i: usize = 0;
        while i < n
            invariant
                0 <= i <= n,
                n == self.entries@.len(),
                entries@.len() == i,
                forall|j: int|
                    0 <= j < i ==> #[trigger] entries@[j].0 == self.entries@[j].0
                        && entries@[j].1@ == self.entries@[j].1@,
            decreases n - i,
        {
            let k = self.entries[i].0;
            let v = self.entries[i].1.deep_clone();
            entries.push((k, v));
            i = i + 1;
        }
        let r = IndexedMap { entries };
        assert(r@ =~= self@);
        r
    }
}

} // verus!
