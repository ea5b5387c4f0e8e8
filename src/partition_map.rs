//! A map from keys to values whose entries are divided into disjoint sets.
use std::collections::BTreeMap;
use vstd::prelude::*;

use crate::partition_vec::PartitionVec;

verus! {

broadcast use {vstd::std_specs::btree::group_btree_axioms, vstd::laws_cmp::group_laws_cmp};

/// Relies on `BTreeMap::range`: the entries whose keys lie in `start..end`, in increasing order
/// of keys. `range` panics when `start > end`.
#[verifier::external_body]
fn entries_in_range(map: &BTreeMap<u64, usize>, start: u64, end: u64) -> (r: Vec<(u64, usize)>)
    requires
        start <= end,
    ensures
        forall|i: int|
            0 <= i < r@.len() ==> start <= (#[trigger] r@[i]).0 < end && map@.contains_key(r@[i].0)
                && map@[r@[i].0] == r@[i].1,
        forall|k: u64| #[trigger] map@.contains_key(k) && start <= k < end ==> exists|i: int| 0 <= i < r@.len() && r@[i].0 == k,
        forall|i: int, j: int| 0 <= i < j < r@.len() ==> (#[trigger] r@[i]).0 < (#[trigger] r@[j]).0,
{
    map.range(start..end).map(|(k, i)| (*k, *i)).collect()
}

/// A map from `u64` keys to values, whose entries are divided into disjoint sets.
///
/// The values live in a `PartitionVec`; an ordered map takes each key to the index of its value.
pub struct PartitionBTreeMap<V> {
    map: BTreeMap<u64, usize>,
    vec: PartitionVec<V>,
}

impl<V> PartitionBTreeMap<V> {
    /// Each key leads to its own element of the vector.
    pub closed spec fn wf(&self) -> bool {
        &&& self.vec.wf()
        &&& forall|k: u64| #[trigger] self.map@.contains_key(k) ==> self.map@[k] < self.vec.size()
        &&& forall|k1: u64, k2: u64|
            #[trigger] self.map@.contains_key(k1) && #[trigger] self.map@.contains_key(k2) && self.map@[k1]
                == self.map@[k2] ==> k1 == k2
        &&& forall|i: int| 0 <= i < self.vec.size() ==> #[trigger] self.keyed(i)
    }

    /// Some key leads to the element at `i`.
    spec fn keyed(&self, i: int) -> bool {
        exists|k: u64| #[trigger] self.map@.contains_key(k) && self.map@[k] == i
    }

    /// With the same keys and as many elements, every element still has a key.
    proof fn lemma_keys_kept(&self, other: &Self)
        requires
            other.wf(),
            self.vec.wf(),
            self.map@ == other.map@,
            self.vec.size() == other.vec.size(),
        ensures
            self.wf(),
    {
        assert forall|i: int| 0 <= i < self.vec.size() implies #[trigger] self.keyed(i) by {
            assert(other.keyed(i));
            let k = choose|k: u64| #[trigger] other.map@.contains_key(k) && other.map@[k] == i;
            assert(self.map@.contains_key(k) && self.map@[k] == i);
        }
    }

    /// The value of each key.
    pub closed spec fn view(&self) -> Map<u64, V> {
        Map::new(|k: u64| self.map@.contains_key(k), |k: u64| self.vec.values()[self.map@[k] as int])
    }

    /// The number of values held, one per key.
    pub closed spec fn slots(&self) -> int {
        self.vec.size()
    }

    /// The keys `a` and `b` are in the same set.
    pub closed spec fn same_keys(&self, a: u64, b: u64) -> bool {
        self.vec.same(self.map@[a] as int, self.map@[b] as int)
    }

    /// Constructs a new, empty map.
    pub fn new() -> (r: Self)
        ensures
            r.wf(),
            r@ == Map::<u64, V>::empty(),
    {
        let r = PartitionBTreeMap { map: BTreeMap::new(), vec: PartitionVec::new() };
        proof {
            assert(r@ =~= Map::<u64, V>::empty());
        }
        r
    }

    /// Returns the value of `key`, if it has one.
    pub fn get(&self, key: &u64) -> (r: Option<&V>)
        requires
            self.wf(),
        ensures
            self@.contains_key(*key) ==> r is Some && *r.unwrap() == self@[*key],
            !self@.contains_key(*key) ==> r is None,
    {
        match self.map.get(key) {
            Some(index) => Some(self.vec.get(*index)),
            None => None,
        }
    }

    /// Gives `key` the value `value`, returning its old value. A new key starts in a set of its
    /// own; a key that was there keeps its set.
    pub fn insert(&mut self, key: u64, value: V) -> (r: Option<V>)
        requires
            old(self).wf(),
            old(self).slots() < usize::MAX,
        ensures
            final(self).wf(),
            final(self)@ == old(self)@.insert(key, value),
            old(self)@.contains_key(key) ==> r == Some(old(self)@[key]),
            !old(self)@.contains_key(key) ==> r is None,
            forall|a: u64, b: u64|
                old(self)@.contains_key(a) && old(self)@.contains_key(b) ==> (final(self).same_keys(a, b)
                    <==> old(self).same_keys(a, b)),
            forall|a: u64|
                final(self)@.contains_key(a) && !old(self)@.contains_key(key) ==> (final(self).same_keys(
                    a,
                    key,
                ) <==> a == key),
    {
        match self.map.get(&key) {
            Some(index) => {
                let index = *index;
                let old_value = self.vec.replace(index, value);
                proof {
                    assert(self@ =~= old(self)@.insert(key, value));
                    self.lemma_keys_kept(old(self));
                }
                Some(old_value)
            },
            None => {
                let index = self.vec.len();
                self.vec.push(value);
                self.map.insert(key, index);
                proof {
                    assert(self@ =~= old(self)@.insert(key, value));
                    assert forall|i: int| 0 <= i < self.vec.size() implies #[trigger] self.keyed(i) by {
                        if i < index {
                            assert(old(self).keyed(i));
                            let k = choose|k: u64| #[trigger] old(self).map@.contains_key(k) && old(self).map@[k] == i;
                            assert(self.map@.contains_key(k) && self.map@[k] == i);
                        } else {
                            assert(self.map@.contains_key(key) && self.map@[key] == i);
                        }
                    }
                }
                None
            },
        }
    }

    /// Joins the sets of the keys `first_key` and `second_key`, which must both be in the map.
    pub fn union(&mut self, first_key: &u64, second_key: &u64)
        requires
            old(self).wf(),
            old(self)@.contains_key(*first_key),
            old(self)@.contains_key(*second_key),
        ensures
            final(self).wf(),
            final(self)@ == old(self)@,
            forall|a: u64, b: u64|
                old(self)@.contains_key(a) && old(self)@.contains_key(b) ==> (final(self).same_keys(a, b)
                    <==> (old(self).same_keys(a, b) || (old(self).same_keys(a, *first_key)
                    && old(self).same_keys(b, *second_key)) || (old(self).same_keys(a, *second_key)
                    && old(self).same_keys(b, *first_key)))),
    {
        let i = *self.map.get(first_key).unwrap();
        let j = *self.map.get(second_key).unwrap();
        self.vec.union(i, j);
        proof {
            assert(self@ =~= old(self)@);
            self.lemma_keys_kept(old(self));
        }
    }

    /// Returns `true` if the keys `first_key` and `second_key`, both in the map, share a set.
    pub fn same_set(&mut self, first_key: &u64, second_key: &u64) -> (r: bool)
        requires
            old(self).wf(),
            old(self)@.contains_key(*first_key),
            old(self)@.contains_key(*second_key),
        ensures
            final(self).wf(),
            final(self)@ == old(self)@,
            forall|a: u64, b: u64|
                old(self)@.contains_key(a) && old(self)@.contains_key(b) ==> (final(self).same_keys(a, b)
                    <==> old(self).same_keys(a, b)),
            r == old(self).same_keys(*first_key, *second_key),
    {
        let i = *self.map.get(first_key).unwrap();
        let j = *self.map.get(second_key).unwrap();
        let r = self.vec.same_set(i, j);
        proof {
            assert(self@ =~= old(self)@);
            self.lemma_keys_kept(old(self));
        }
        r
    }

    /// Returns the number of keys.
    pub fn len(&self) -> (r: usize)
        requires
            self.wf(),
        ensures
            r == self@.dom().len(),
    {
        proof {
            assert(self@.dom() =~= self.map@.dom());
        }
        self.map.len()
    }

    /// Returns `true` if there are no keys.
    pub fn is_empty(&self) -> (r: bool)
        requires
            self.wf(),
        ensures
            r == (self@.dom().len() == 0),
    {
        self.len() == 0
    }

    /// Returns `true` if `key` has a value.
    pub fn contains_key(&self, key: &u64) -> (r: bool)
        requires
            self.wf(),
        ensures
            r == self@.contains_key(*key),
    {
        self.map.contains_key(key)
    }

    /// Removes every key.
    pub fn clear(&mut self)
        ensures
            final(self).wf(),
            final(self)@ == Map::<u64, V>::empty(),
    {
        self.map.clear();
        self.vec.clear();
        proof {
            assert(self@ =~= Map::<u64, V>::empty());
        }
    }

    /// Returns `true` if the keys `first_key` and `second_key`, both in the map, are in
    /// different sets.
    pub fn other_sets(&mut self, first_key: &u64, second_key: &u64) -> (r: bool)
        requires
            old(self).wf(),
            old(self)@.contains_key(*first_key),
            old(self)@.contains_key(*second_key),
        ensures
            final(self).wf(),
            final(self)@ == old(self)@,
            forall|a: u64, b: u64|
                old(self)@.contains_key(a) && old(self)@.contains_key(b) ==> (#[trigger] final(self).same_keys(a, b)
                    <==> old(self).same_keys(a, b)),
            r == !old(self).same_keys(*first_key, *second_key),
    {
        !self.same_set(first_key, second_key)
    }

    /// Takes `key`, which must be in the map, out of its set into a set of its own; the other
    /// members stay together.
    pub fn make_singleton(&mut self, key: &u64)
        requires
            old(self).wf(),
            old(self)@.contains_key(*key),
        ensures
            final(self).wf(),
            final(self)@ == old(self)@,
            forall|a: u64, b: u64|
                old(self)@.contains_key(a) && old(self)@.contains_key(b) ==> (#[trigger] final(self).same_keys(a, b)
                    <==> (a == b || (a != *key && b != *key && old(self).same_keys(a, b)))),
    {
        let index = *self.map.get(key).unwrap();
        self.vec.make_singleton(index);
        proof {
            assert(self@ =~= old(self)@);
            self.lemma_keys_kept(old(self));
            assert forall|a: u64, b: u64|
                old(self)@.contains_key(a) && old(self)@.contains_key(b) implies (#[trigger] self.same_keys(a, b)
                    <==> (a == b || (a != *key && b != *key && old(self).same_keys(a, b)))) by {
                let ia = self.map@[a] as int;
                let ib = self.map@[b] as int;
                assert(self.vec.same(ia, ib) <==> (ia == ib || (ia != index && ib != index && old(self).vec.same(ia, ib))));
            }
        }
    }

    /// The keys in the set of `key`.
    pub open spec fn keys_with(&self, key: u64) -> Set<u64> {
        self@.dom().filter(|k: u64| self.same_keys(k, key))
    }

    /// The representative of the set of `key`.
    pub closed spec fn rep_of_key(&self, key: u64) -> int {
        self.vec.rep_of(self.map@[key] as int)
    }

    /// The representatives of the sets, one per set.
    pub open spec fn key_reps(&self) -> Set<int> {
        Set::new(|r: int| exists|k: u64| #[trigger] self@.contains_key(k) && self.rep_of_key(k) == r)
    }

    /// Returns the number of keys in the set of `key`, which must be in the map.
    pub fn len_of_set(&self, key: &u64) -> (r: usize)
        requires
            self.wf(),
            self@.contains_key(*key),
        ensures
            r == self.keys_with(*key).len(),
    {
        let index = *self.map.get(key).unwrap();
        let r = self.vec.len_of_set(index);
        proof {
            let keys = self.keys_with(*key);
            let f = |k: u64| self.map@[k] as int;
            assert(self@.dom() =~= self.map@.dom());
            assert(keys.finite());
            assert forall|a: u64, b: u64| keys.contains(a) && keys.contains(b) && #[trigger] f(a) == #[trigger] f(b) implies a == b by {}
            assert(keys.map(f) =~= self.vec.class_of(index as int)) by {
                assert forall|i: int| #[trigger] self.vec.class_of(index as int).contains(i) implies keys.map(f).contains(i) by {
                    assert(self.keyed(i));
                    let k = choose|k: u64| #[trigger] self.map@.contains_key(k) && self.map@[k] == i;
                    assert(keys.contains(k) && f(k) == i);
                }
            }
            vstd::set_lib::lemma_map_size(keys, self.vec.class_of(index as int), f);
        }
        r
    }

    /// Returns the number of sets.
    pub fn amount_of_sets(&mut self) -> (r: usize)
        requires
            old(self).wf(),
        ensures
            final(self).wf(),
            final(self)@ == old(self)@,
            forall|a: u64, b: u64|
                old(self)@.contains_key(a) && old(self)@.contains_key(b) ==> (#[trigger] final(self).same_keys(a, b)
                    <==> old(self).same_keys(a, b)),
            r == old(self).key_reps().len(),
    {
        let r = self.vec.amount_of_sets();
        proof {
            assert(self@ =~= old(self)@);
            self.lemma_keys_kept(old(self));
            assert(old(self).key_reps() =~= old(self).vec.reps()) by {
                assert forall|x: int| #[trigger] old(self).vec.reps().contains(x) implies old(self).key_reps().contains(x) by {
                    let i = choose|i: int| 0 <= i < old(self).vec.size() && old(self).vec.rep_of(i) == x;
                    assert(old(self).keyed(i));
                    let k = choose|k: u64| #[trigger] old(self).map@.contains_key(k) && old(self).map@[k] == i;
                    assert(old(self)@.contains_key(k) && old(self).rep_of_key(k) == x);
                }
            }
        }
        r
    }

    /// Returns `true` if `key`, which must be in the map, is the only key of its set.
    pub fn is_singleton(&self, key: &u64) -> (r: bool)
        requires
            self.wf(),
            self@.contains_key(*key),
        ensures
            r == (forall|k: u64| #[trigger] self@.contains_key(k) && self.same_keys(k, *key) ==> k == *key),
    {
        let index = *self.map.get(key).unwrap();
        let r = self.vec.is_singleton(index);
        proof {
            if r {
                assert forall|k: u64| #[trigger] self@.contains_key(k) && self.same_keys(k, *key) implies k == *key by {
                    assert(self.vec.same(self.map@[k] as int, index as int));
                }
            } else {
                let idx = choose|idx: int| 0 <= idx < self.vec.size() && self.vec.same(idx, index as int) && idx != index;
                assert(self.keyed(idx));
                let k = choose|k: u64| #[trigger] self.map@.contains_key(k) && self.map@[k] == idx;
                assert(self@.contains_key(k) && self.same_keys(k, *key) && k != *key);
            }
        }
        r
    }

    /// Returns the entries whose keys lie in `start..end`, in increasing order of keys.
    pub fn range(&self, start: u64, end: u64) -> (r: Vec<(u64, &V)>)
        requires
            self.wf(),
            start <= end,
        ensures
            forall|i: int|
                0 <= i < r@.len() ==> start <= (#[trigger] r@[i]).0 < end && self@.contains_key(r@[i].0)
                    && *r@[i].1 == self@[r@[i].0],
            forall|k: u64| #[trigger] self@.contains_key(k) && start <= k < end ==> exists|i: int| 0 <= i < r@.len() && r@[i].0 == k,
            forall|i: int, j: int| 0 <= i < j < r@.len() ==> (#[trigger] r@[i]).0 < (#[trigger] r@[j]).0,
    {
        let entries = entries_in_range(&self.map, start, end);
        let mut r: Vec<(u64, &V)> = Vec::new();
        let mut i: usize = 0;
        while i < entries.len()
            invariant
                self.wf(),
                i <= entries@.len(),
                r@.len() == i,
                forall|m: int|
                    0 <= m < entries@.len() ==> start <= (#[trigger] entries@[m]).0 < end && self.map@.contains_key(entries@[m].0)
                        && self.map@[entries@[m].0] == entries@[m].1,
                forall|m: int| 0 <= m < i ==> (#[trigger] r@[m]).0 == entries@[m].0 && *r@[m].1 == self.vec.values()[entries@[m].1 as int],
            decreases entries@.len() - i,
        {
            let (key, index) = entries[i];
            proof {
                assert(entries@[i as int].0 == key);
            }
            r.push((key, self.vec.get(index)));
            i = i + 1;
        }
        proof {
            assert forall|k: u64| #[trigger] self@.contains_key(k) && start <= k < end implies exists|m: int| 0 <= m < r@.len() && r@[m].0 == k by {
                assert(self.map@.contains_key(k));
                let m = choose|m: int| 0 <= m < entries@.len() && entries@[m].0 == k;
                assert(r@[m].0 == k);
            }
            assert forall|a: int, b: int| 0 <= a < b < r@.len() implies (#[trigger] r@[a]).0 < (#[trigger] r@[b]).0 by {
                assert(entries@[a].0 < entries@[b].0);
            }
        }
        r
    }
}

} // verus!
