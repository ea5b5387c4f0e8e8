//! Walks over the members of one set, and scans that yield every set once.
use vstd::prelude::*;

use crate::bits::{bits_from_elem, bits_get, bits_of, bits_set};
use crate::partition_vec::PartitionVec;
use crate::ring::next_in;

verus! {

/// The members of one set of a `PartitionVec`, walked along the set's list from its root.
///
/// Created by `PartitionVec::set`; each call of `next` yields an index and its value.
pub struct SetIter<'a, T> {
    partition_vec: &'a PartitionVec<T>,
    current: Option<usize>,
    root: usize,
    /// How many members have been yielded.
    pos: Ghost<int>,
}

impl<'a, T> SetIter<'a, T> {
    /// The vector walked.
    pub closed spec fn source(&self) -> PartitionVec<T> {
        *self.partition_vec
    }

    /// The indices still to be yielded, in order.
    pub closed spec fn remaining(&self) -> Seq<int> {
        let list = self.partition_vec.ring@[self.root as int];
        list.subrange(self.pos@, list.len() as int)
    }

    /// The walk is in a consistent state.
    pub closed spec fn inv(&self) -> bool {
        let list = self.partition_vec.ring@[self.root as int];
        &&& self.partition_vec.wf()
        &&& self.root < self.partition_vec.size()
        &&& self.partition_vec.rep@[self.root as int] == self.root
        &&& 0 <= self.pos@ <= list.len()
        &&& self.current == if self.pos@ < list.len() {
            Some(list[self.pos@] as usize)
        } else {
            None
        }
    }

    /// Yields the next member of the set and its value, or `None` once all have been yielded.
    pub fn next(&mut self) -> (r: Option<(usize, &'a T)>)
        requires
            old(self).inv(),
        ensures
            final(self).inv(),
            final(self).source() == old(self).source(),
            old(self).remaining().len() == 0 ==> r is None && final(self).remaining()
                == old(self).remaining(),
            old(self).remaining().len() > 0 ==> r is Some && r.unwrap().0 == old(self).remaining()[0]
                && *r.unwrap().1 == old(self).source().values()[old(self).remaining()[0]]
                && final(self).remaining() == old(self).remaining().drop_first(),
    {
        let ghost list = self.partition_vec.ring@[self.root as int];
        proof {
            self.partition_vec.lemma_node(self.root as int);
        }
        match self.current {
            None => {
                proof {
                    assert(self.remaining().len() == 0);
                }
                None
            },
            Some(current) => {
                let pv: &'a PartitionVec<T> = self.partition_vec;
                proof {
                    assert(list[self.pos@] == current);
                    assert(pv.meta@[list[self.pos@]].link == next_in(list, self.pos@));
                }
                let next = pv.meta[current].link;
                self.current = if next == self.root {
                    None
                } else {
                    Some(next)
                };
                proof {
                    let p = self.pos@;
                    if p + 1 < list.len() {
                        assert(list[p + 1] != list[0]);
                    }
                    self.pos = Ghost(p + 1);
                    assert(old(self).remaining()[0] == current);
                    assert(self.remaining() =~= old(self).remaining().drop_first());
                }
                Some((current, &pv.data[current]))
            },
        }
    }
}

impl<T> PartitionVec<T> {
    /// Returns a walk over the members of the set of `index`, each yielded once with its value.
    ///
    /// The order is that of the set's list, starting at its root.
    pub fn set(&self, index: usize) -> (r: SetIter<'_, T>)
        requires
            self.wf(),
            index < self.size(),
        ensures
            r.inv(),
            r.source() == *self,
            r.remaining().no_duplicates(),
            r.remaining().to_set() == self.class_of(index as int),
            r.remaining().len() == self.class_of(index as int).len(),
    {
        let root = self.find_final(index);
        proof {
            self.lemma_node(index as int);
            self.lemma_class_is_ring(index as int);
            self.lemma_node(root as int);
        }
        let r = SetIter { partition_vec: self, current: Some(root), root, pos: Ghost(0) };
        proof {
            let list = self.ring@[root as int];
            assert(r.remaining() =~= list);
        }
        r
    }
}

} // verus!

verus! {

/// The sets of a `PartitionVec`, each yielded once as a `SetIter`.
///
/// Created by `PartitionVec::all_sets`. Indices are scanned from the front with `next` and from
/// the back with `next_back`; a set is yielded at the first of its members that is scanned.
pub struct AllSets<'a, T> {
    partition_vec: &'a PartitionVec<T>,
    done: bit_vec::BitVec,
    front: usize,
    back: usize,
}

impl<'a, T> AllSets<'a, T> {
    /// The vector scanned.
    pub closed spec fn source(&self) -> PartitionVec<T> {
        *self.partition_vec
    }

    /// The representatives of the sets yielded so far.
    pub closed spec fn yielded(&self) -> Set<int> {
        Set::new(|r: int| 0 <= r < self.partition_vec.size() && bits_of(self.done)[r])
    }

    /// The scan is in a consistent state: a set has been yielded exactly when one of its members
    /// has been scanned.
    pub closed spec fn inv(&self) -> bool {
        let v = self.partition_vec;
        &&& v.wf()
        &&& bits_of(self.done).len() == v.size()
        &&& self.front <= self.back <= v.size()
        &&& forall|r: int|
            0 <= r < v.size() ==> (#[trigger] bits_of(self.done)[r] <==> exists|k: int|
                (0 <= k < self.front || self.back <= k < v.size()) && #[trigger] v.rep@[k] == r)
    }

    /// A walk over the set whose root is `root`.
    fn walk(v: &'a PartitionVec<T>, root: usize) -> (r: SetIter<'a, T>)
        requires
            v.wf(),
            root < v.size(),
            v.rep@[root as int] == root,
        ensures
            r.inv(),
            r.source() == *v,
            r.remaining().no_duplicates(),
            r.remaining().to_set() == v.class_of(root as int),
    {
        proof {
            v.lemma_node(root as int);
            v.lemma_class_is_ring(root as int);
            v.lemma_node(root as int);
        }
        let r = SetIter { partition_vec: v, current: Some(root), root, pos: Ghost(0) };
        proof {
            assert(r.remaining() =~= v.ring@[root as int]);
        }
        r
    }

    /// Yields the set of the next scanned index whose set has not been yielded, or `None` when
    /// every set has been.
    pub fn next(&mut self) -> (r: Option<SetIter<'a, T>>)
        requires
            old(self).inv(),
        ensures
            final(self).inv(),
            final(self).source() == old(self).source(),
            r is None ==> final(self).yielded() == old(self).yielded() && forall|k: int|
                0 <= k < old(self).source().size() ==> #[trigger] final(self).yielded().contains(
                    old(self).source().rep_of(k),
                ),
            r is Some ==> exists|k: int|
                0 <= k < old(self).source().size() && r.unwrap().inv() && r.unwrap().source()
                    == old(self).source() && r.unwrap().remaining().no_duplicates()
                    && r.unwrap().remaining().to_set() == old(self).source().class_of(k)
                    && !old(self).yielded().contains(old(self).source().rep_of(k))
                    && final(self).yielded() == old(self).yielded().insert(
                    old(self).source().rep_of(k),
                ),
    {
        let v: &'a PartitionVec<T> = self.partition_vec;
        let ghost start_bits = bits_of(self.done);
        while self.front < self.back
            invariant
                self.inv(),
                self.partition_vec == v,
                old(self).partition_vec == v,
                bits_of(self.done) == start_bits,
                bits_of(old(self).done) == start_bits,
            decreases self.back - self.front,
        {
            let index = self.front;
            self.front = self.front + 1;
            let root = v.find_final(index);
            proof {
                v.lemma_node(index as int);
                v.lemma_node(root as int);
            }
            match bits_get(&self.done, root) {
                Some(false) => {
                    let ghost before_bits = bits_of(self.done);
                    bits_set(&mut self.done, root, true);
                    proof {
                        let n = v.size();
                        assert forall|r: int| 0 <= r < n implies (#[trigger] bits_of(self.done)[r] <==> exists|k: int|
                            (0 <= k < self.front || self.back <= k < n) && #[trigger] v.rep@[k] == r) by {
                            if r == root {
                                assert(v.rep@[index as int] == r);
                            } else if bits_of(self.done)[r] {
                                let k = choose|k: int| (0 <= k < self.front - 1 || self.back <= k < n) && #[trigger] v.rep@[k] == r;
                            } else if exists|k: int| (0 <= k < self.front || self.back <= k < n) && #[trigger] v.rep@[k] == r {
                                let k = choose|k: int| (0 <= k < self.front || self.back <= k < n) && #[trigger] v.rep@[k] == r;
                                assert(k != index);
                                assert(before_bits[r]);
                            }
                        }
                        assert(self.yielded() =~= old(self).yielded().insert(root as int));
                        assert(v.rep@[root as int] == root);
                        assert(!old(self).yielded().contains(v.rep_of(root as int)));
                    }
                    let walk = Self::walk(v, root);
                    proof {
                        let k = root as int;
                        assert(0 <= k < old(self).source().size() && walk.inv() && walk.source()
                            == old(self).source() && walk.remaining().no_duplicates()
                            && walk.remaining().to_set() == old(self).source().class_of(k)
                            && !old(self).yielded().contains(old(self).source().rep_of(k))
                            && self.yielded() == old(self).yielded().insert(old(self).source().rep_of(k)));
                    }
                    return Some(walk);
                },
                _ => {
                    proof {
                        let n = v.size();
                        assert(bits_of(self.done)[root as int]);
                        assert forall|r: int| 0 <= r < n implies (#[trigger] bits_of(self.done)[r] <==> exists|k: int|
                            (0 <= k < self.front || self.back <= k < n) && #[trigger] v.rep@[k] == r) by {
                            if bits_of(self.done)[r] && r != root {
                                let k = choose|k: int| (0 <= k < self.front - 1 || self.back <= k < n) && #[trigger] v.rep@[k] == r;
                            } else if r == root {
                                let k = choose|k: int| (0 <= k < self.front - 1 || self.back <= k < n) && #[trigger] v.rep@[k] == r;
                            }
                        }
                    }
                },
            }
        }
        proof {
            let n = v.size();
            assert forall|k: int| 0 <= k < n implies #[trigger] self.yielded().contains(v.rep_of(k)) by {
                v.lemma_node(k);
                assert(bits_of(self.done)[v.rep@[k]]);
            }
            assert(self.yielded() =~= old(self).yielded());
        }
        None
    }

    /// Like `next`, scanning from the back.
    pub fn next_back(&mut self) -> (r: Option<SetIter<'a, T>>)
        requires
            old(self).inv(),
        ensures
            final(self).inv(),
            final(self).source() == old(self).source(),
            r is None ==> final(self).yielded() == old(self).yielded() && forall|k: int|
                0 <= k < old(self).source().size() ==> #[trigger] final(self).yielded().contains(
                    old(self).source().rep_of(k),
                ),
            r is Some ==> exists|k: int|
                0 <= k < old(self).source().size() && r.unwrap().inv() && r.unwrap().source()
                    == old(self).source() && r.unwrap().remaining().no_duplicates()
                    && r.unwrap().remaining().to_set() == old(self).source().class_of(k)
                    && !old(self).yielded().contains(old(self).source().rep_of(k))
                    && final(self).yielded() == old(self).yielded().insert(
                    old(self).source().rep_of(k),
                ),
    {
        let v: &'a PartitionVec<T> = self.partition_vec;
        let ghost start_bits = bits_of(self.done);
        while self.front < self.back
            invariant
                self.inv(),
                self.partition_vec == v,
                old(self).partition_vec == v,
                bits_of(self.done) == start_bits,
                bits_of(old(self).done) == start_bits,
            decreases self.back - self.front,
        {
            let index = self.back - 1;
            self.back = self.back - 1;
            let root = v.find_final(index);
            proof {
                v.lemma_node(index as int);
                v.lemma_node(root as int);
            }
            match bits_get(&self.done, root) {
                Some(false) => {
                    let ghost before_bits = bits_of(self.done);
                    bits_set(&mut self.done, root, true);
                    proof {
                        let n = v.size();
                        assert forall|r: int| 0 <= r < n implies (#[trigger] bits_of(self.done)[r] <==> exists|k: int|
                            (0 <= k < self.front || self.back <= k < n) && #[trigger] v.rep@[k] == r) by {
                            if r == root {
                                assert(v.rep@[index as int] == r);
                            } else if bits_of(self.done)[r] {
                                let k = choose|k: int| (0 <= k < self.front || self.back + 1 <= k < n) && #[trigger] v.rep@[k] == r;
                            } else if exists|k: int| (0 <= k < self.front || self.back <= k < n) && #[trigger] v.rep@[k] == r {
                                let k = choose|k: int| (0 <= k < self.front || self.back <= k < n) && #[trigger] v.rep@[k] == r;
                                assert(k != index);
                                assert(before_bits[r]);
                            }
                        }
                        assert(self.yielded() =~= old(self).yielded().insert(root as int));
                        assert(v.rep@[root as int] == root);
                        assert(!old(self).yielded().contains(v.rep_of(root as int)));
                    }
                    let walk = Self::walk(v, root);
                    proof {
                        let k = root as int;
                        assert(0 <= k < old(self).source().size() && walk.inv() && walk.source()
                            == old(self).source() && walk.remaining().no_duplicates()
                            && walk.remaining().to_set() == old(self).source().class_of(k)
                            && !old(self).yielded().contains(old(self).source().rep_of(k))
                            && self.yielded() == old(self).yielded().insert(old(self).source().rep_of(k)));
                    }
                    return Some(walk);
                },
                _ => {
                    proof {
                        let n = v.size();
                        assert(bits_of(self.done)[root as int]);
                        assert forall|r: int| 0 <= r < n implies (#[trigger] bits_of(self.done)[r] <==> exists|k: int|
                            (0 <= k < self.front || self.back <= k < n) && #[trigger] v.rep@[k] == r) by {
                            if bits_of(self.done)[r] && r != root {
                                let k = choose|k: int| (0 <= k < self.front || self.back + 1 <= k < n) && #[trigger] v.rep@[k] == r;
                            } else if r == root {
                                let k = choose|k: int| (0 <= k < self.front || self.back + 1 <= k < n) && #[trigger] v.rep@[k] == r;
                            }
                        }
                    }
                },
            }
        }
        proof {
            let n = v.size();
            assert forall|k: int| 0 <= k < n implies #[trigger] self.yielded().contains(v.rep_of(k)) by {
                v.lemma_node(k);
                assert(bits_of(self.done)[v.rep@[k]]);
            }
            assert(self.yielded() =~= old(self).yielded());
        }
        None
    }
}

impl<T> PartitionVec<T> {
    /// Returns a scan over the sets, which yields each set once.
    pub fn all_sets(&self) -> (r: AllSets<'_, T>)
        requires
            self.wf(),
        ensures
            r.inv(),
            r.source() == *self,
            r.yielded() == Set::<int>::empty(),
    {
        let len = self.len();
        let r = AllSets { partition_vec: self, done: bits_from_elem(len, false), front: 0, back: len };
        proof {
            assert(r.yielded() =~= Set::<int>::empty());
        }
        r
    }
}

/// The sets of a `PartitionVec`, each yielded once as a `SetMut`.
///
/// Created by `PartitionVec::all_sets_mut`. It scans the vector handed to each step, so values
/// may be changed between steps; otherwise it behaves as `AllSets`.
pub struct AllSetsMut {
    done: bit_vec::BitVec,
    front: usize,
    back: usize,
}

impl AllSetsMut {
    /// The representatives of the sets yielded so far.
    pub closed spec fn yielded(&self) -> Set<int> {
        Set::new(|r: int| 0 <= r < bits_of(self.done).len() && bits_of(self.done)[r])
    }

    /// The scan is in a consistent state: a set has been yielded exactly when one of its members
    /// has been scanned.
    pub closed spec fn inv_in<T>(&self, v: &PartitionVec<T>) -> bool {
        &&& v.wf()
        &&& bits_of(self.done).len() == v.size()
        &&& self.front <= self.back <= v.size()
        &&& forall|r: int|
            0 <= r < v.size() ==> (#[trigger] bits_of(self.done)[r] <==> exists|k: int|
                (0 <= k < self.front || self.back <= k < v.size()) && #[trigger] v.rep@[k] == r)
    }

    /// Yields the set of the next scanned index whose set has not been yielded, or `None` when
    /// every set has been.
    pub fn next<T>(&mut self, partition_vec: &PartitionVec<T>) -> (r: Option<SetMut>)
        requires
            old(self).inv_in(partition_vec),
        ensures
            final(self).inv_in(partition_vec),
            r is None ==> final(self).yielded() == old(self).yielded() && forall|k: int|
                0 <= k < partition_vec.size() ==> #[trigger] final(self).yielded().contains(
                    partition_vec.rep_of(k),
                ),
            r is Some ==> exists|k: int|
                0 <= k < partition_vec.size() && r.unwrap().inv_in(partition_vec) && r.unwrap().remaining_in(partition_vec).no_duplicates()
                    && r.unwrap().remaining_in(partition_vec).to_set() == partition_vec.class_of(k)
                    && !old(self).yielded().contains(partition_vec.rep_of(k))
                    && final(self).yielded() == old(self).yielded().insert(
                    partition_vec.rep_of(k),
                ),
    {
        let v = partition_vec;
        let ghost start_bits = bits_of(self.done);
        while self.front < self.back
            invariant
                self.inv_in(v),
                partition_vec == v,
                bits_of(self.done) == start_bits,
                bits_of(old(self).done) == start_bits,
            decreases self.back - self.front,
        {
            let index = self.front;
            self.front = self.front + 1;
            let root = v.find_final(index);
            proof {
                v.lemma_node(index as int);
                v.lemma_node(root as int);
            }
            match bits_get(&self.done, root) {
                Some(false) => {
                    let ghost before_bits = bits_of(self.done);
                    bits_set(&mut self.done, root, true);
                    proof {
                        let n = v.size();
                        assert forall|r: int| 0 <= r < n implies (#[trigger] bits_of(self.done)[r] <==> exists|k: int|
                            (0 <= k < self.front || self.back <= k < n) && #[trigger] v.rep@[k] == r) by {
                            if r == root {
                                assert(v.rep@[index as int] == r);
                            } else if bits_of(self.done)[r] {
                                let k = choose|k: int| (0 <= k < self.front - 1 || self.back <= k < n) && #[trigger] v.rep@[k] == r;
                            } else if exists|k: int| (0 <= k < self.front || self.back <= k < n) && #[trigger] v.rep@[k] == r {
                                let k = choose|k: int| (0 <= k < self.front || self.back <= k < n) && #[trigger] v.rep@[k] == r;
                                assert(k != index);
                                assert(before_bits[r]);
                            }
                        }
                        assert(self.yielded() =~= old(self).yielded().insert(root as int));
                        assert(v.rep@[root as int] == root);
                        assert(!old(self).yielded().contains(v.rep_of(root as int)));
                    }
                    let walk = SetMut::starting_at(v, root);
                    proof {
                        let k = root as int;
                        assert(0 <= k < partition_vec.size() && walk.inv_in(partition_vec)
                            && walk.remaining_in(partition_vec).no_duplicates()
                            && walk.remaining_in(partition_vec).to_set() == partition_vec.class_of(k)
                            && !old(self).yielded().contains(partition_vec.rep_of(k))
                            && self.yielded() == old(self).yielded().insert(partition_vec.rep_of(k)));
                    }
                    return Some(walk);
                },
                _ => {
                    proof {
                        let n = v.size();
                        assert(bits_of(self.done)[root as int]);
                        assert forall|r: int| 0 <= r < n implies (#[trigger] bits_of(self.done)[r] <==> exists|k: int|
                            (0 <= k < self.front || self.back <= k < n) && #[trigger] v.rep@[k] == r) by {
                            if bits_of(self.done)[r] && r != root {
                                let k = choose|k: int| (0 <= k < self.front - 1 || self.back <= k < n) && #[trigger] v.rep@[k] == r;
                            } else if r == root {
                                let k = choose|k: int| (0 <= k < self.front - 1 || self.back <= k < n) && #[trigger] v.rep@[k] == r;
                            }
                        }
                    }
                },
            }
        }
        proof {
            let n = v.size();
            assert forall|k: int| 0 <= k < n implies #[trigger] self.yielded().contains(v.rep_of(k)) by {
                v.lemma_node(k);
                assert(bits_of(self.done)[v.rep@[k]]);
            }
            assert(self.yielded() =~= old(self).yielded());
        }
        None
    }

    /// Like `next`, scanning from the back.
    pub fn next_back<T>(&mut self, partition_vec: &PartitionVec<T>) -> (r: Option<SetMut>)
        requires
            old(self).inv_in(partition_vec),
        ensures
            final(self).inv_in(partition_vec),
            r is None ==> final(self).yielded() == old(self).yielded() && forall|k: int|
                0 <= k < partition_vec.size() ==> #[trigger] final(self).yielded().contains(
                    partition_vec.rep_of(k),
                ),
            r is Some ==> exists|k: int|
                0 <= k < partition_vec.size() && r.unwrap().inv_in(partition_vec) && r.unwrap().remaining_in(partition_vec).no_duplicates()
                    && r.unwrap().remaining_in(partition_vec).to_set() == partition_vec.class_of(k)
                    && !old(self).yielded().contains(partition_vec.rep_of(k))
                    && final(self).yielded() == old(self).yielded().insert(
                    partition_vec.rep_of(k),
                ),
    {
        let v = partition_vec;
        let ghost start_bits = bits_of(self.done);
        while self.front < self.back
            invariant
                self.inv_in(v),
                partition_vec == v,
                bits_of(self.done) == start_bits,
                bits_of(old(self).done) == start_bits,
            decreases self.back - self.front,
        {
            let index = self.back - 1;
            self.back = self.back - 1;
            let root = v.find_final(index);
            proof {
                v.lemma_node(index as int);
                v.lemma_node(root as int);
            }
            match bits_get(&self.done, root) {
                Some(false) => {
                    let ghost before_bits = bits_of(self.done);
                    bits_set(&mut self.done, root, true);
                    proof {
                        let n = v.size();
                        assert forall|r: int| 0 <= r < n implies (#[trigger] bits_of(self.done)[r] <==> exists|k: int|
                            (0 <= k < self.front || self.back <= k < n) && #[trigger] v.rep@[k] == r) by {
                            if r == root {
                                assert(v.rep@[index as int] == r);
                            } else if bits_of(self.done)[r] {
                                let k = choose|k: int| (0 <= k < self.front || self.back + 1 <= k < n) && #[trigger] v.rep@[k] == r;
                            } else if exists|k: int| (0 <= k < self.front || self.back <= k < n) && #[trigger] v.rep@[k] == r {
                                let k = choose|k: int| (0 <= k < self.front || self.back <= k < n) && #[trigger] v.rep@[k] == r;
                                assert(k != index);
                                assert(before_bits[r]);
                            }
                        }
                        assert(self.yielded() =~= old(self).yielded().insert(root as int));
                        assert(v.rep@[root as int] == root);
                        assert(!old(self).yielded().contains(v.rep_of(root as int)));
                    }
                    let walk = SetMut::starting_at(v, root);
                    proof {
                        let k = root as int;
                        assert(0 <= k < partition_vec.size() && walk.inv_in(partition_vec)
                            && walk.remaining_in(partition_vec).no_duplicates()
                            && walk.remaining_in(partition_vec).to_set() == partition_vec.class_of(k)
                            && !old(self).yielded().contains(partition_vec.rep_of(k))
                            && self.yielded() == old(self).yielded().insert(partition_vec.rep_of(k)));
                    }
                    return Some(walk);
                },
                _ => {
                    proof {
                        let n = v.size();
                        assert(bits_of(self.done)[root as int]);
                        assert forall|r: int| 0 <= r < n implies (#[trigger] bits_of(self.done)[r] <==> exists|k: int|
                            (0 <= k < self.front || self.back <= k < n) && #[trigger] v.rep@[k] == r) by {
                            if bits_of(self.done)[r] && r != root {
                                let k = choose|k: int| (0 <= k < self.front || self.back + 1 <= k < n) && #[trigger] v.rep@[k] == r;
                            } else if r == root {
                                let k = choose|k: int| (0 <= k < self.front || self.back + 1 <= k < n) && #[trigger] v.rep@[k] == r;
                            }
                        }
                    }
                },
            }
        }
        proof {
            let n = v.size();
            assert forall|k: int| 0 <= k < n implies #[trigger] self.yielded().contains(v.rep_of(k)) by {
                v.lemma_node(k);
                assert(bits_of(self.done)[v.rep@[k]]);
            }
            assert(self.yielded() =~= old(self).yielded());
        }
        None
    }
}

impl<T> PartitionVec<T> {
    /// Returns a scan over the sets, which yields each set once as a `SetMut`.
    pub fn all_sets_mut(&self) -> (r: AllSetsMut)
        requires
            self.wf(),
        ensures
            r.inv_in(self),
            r.yielded() == Set::<int>::empty(),
    {
        let len = self.len();
        let r = AllSetsMut { done: bits_from_elem(len, false), front: 0, back: len };
        proof {
            assert(r.yielded() =~= Set::<int>::empty());
        }
        r
    }
}

} // verus!

verus! {

/// A walk over the members of one set that leaves the vector free for changing values between
/// steps, for instance through `PartitionVec::get_mut`.
///
/// Created by `PartitionVec::set_mut`. Each step hangs the member it yields directly under the
/// root, so a completed walk leaves the set's tree flat.
pub struct SetMut {
    current: Option<usize>,
    root: usize,
    /// How many members have been yielded.
    pos: Ghost<int>,
}

impl SetMut {
    /// A walk over the set whose root is `root`.
    pub(crate) fn starting_at<T>(v: &PartitionVec<T>, root: usize) -> (r: SetMut)
        requires
            v.wf(),
            root < v.size(),
            v.rep@[root as int] == root,
        ensures
            r.inv_in(v),
            r.remaining_in(v).no_duplicates(),
            r.remaining_in(v).to_set() == v.class_of(root as int),
    {
        proof {
            v.lemma_node(root as int);
            v.lemma_class_is_ring(root as int);
            v.lemma_node(root as int);
        }
        let r = SetMut { current: Some(root), root, pos: Ghost(0) };
        proof {
            assert(r.remaining_in(v) =~= v.ring@[root as int]);
        }
        r
    }

    /// The indices still to be yielded from `v`, in order.
    pub closed spec fn remaining_in<T>(&self, v: &PartitionVec<T>) -> Seq<int> {
        let list = v.ring@[self.root as int];
        list.subrange(self.pos@, list.len() as int)
    }

    /// The walk is in a consistent state for `v`.
    pub closed spec fn inv_in<T>(&self, v: &PartitionVec<T>) -> bool {
        let list = v.ring@[self.root as int];
        &&& v.wf()
        &&& self.root < v.size()
        &&& v.rep@[self.root as int] == self.root
        &&& 0 <= self.pos@ <= list.len()
        &&& self.current == if self.pos@ < list.len() {
            Some(list[self.pos@] as usize)
        } else {
            None
        }
    }

    /// Yields the index of the next member of the set, or `None` once all have been yielded.
    pub fn next<T>(&mut self, partition_vec: &mut PartitionVec<T>) -> (r: Option<usize>)
        requires
            old(self).inv_in(old(partition_vec)),
        ensures
            final(self).inv_in(final(partition_vec)),
            final(partition_vec).unchanged_from(old(partition_vec)),
            final(self).remaining_in(final(partition_vec)) == if old(self).remaining_in(
                old(partition_vec),
            ).len() == 0 {
                old(self).remaining_in(old(partition_vec))
            } else {
                old(self).remaining_in(old(partition_vec)).drop_first()
            },
            old(self).remaining_in(old(partition_vec)).len() == 0 ==> r is None,
            old(self).remaining_in(old(partition_vec)).len() > 0 ==> r == Some(
                old(self).remaining_in(old(partition_vec))[0] as usize,
            ),
    {
        let ghost list = partition_vec.ring@[self.root as int];
        proof {
            partition_vec.lemma_node(self.root as int);
        }
        match self.current {
            None => {
                proof {
                    assert(self.remaining_in(partition_vec).len() == 0);
                }
                None
            },
            Some(current) => {
                proof {
                    assert(list[self.pos@] == current);
                    assert(partition_vec.meta@[list[self.pos@]].link == next_in(list, self.pos@));
                }
                let next = partition_vec.meta[current].link;
                partition_vec.hang_under(current, self.root);
                self.current = if next == self.root {
                    None
                } else {
                    Some(next)
                };
                proof {
                    let p = self.pos@;
                    if p + 1 < list.len() {
                        assert(list[p + 1] != list[0]);
                    }
                    self.pos = Ghost(p + 1);
                    assert(self.remaining_in(partition_vec) =~= old(self).remaining_in(
                        old(partition_vec),
                    ).drop_first());
                }
                Some(current)
            },
        }
    }
}

} // verus!
