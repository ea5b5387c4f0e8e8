//! A vector whose elements are divided into disjoint sets.
use vstd::prelude::*;

use crate::bits::{bits_from_elem, bits_get, bits_of, bits_set};
use crate::metadata::Metadata;
use crate::sets::SetMut;
use crate::ring::{lemma_closed_below, lemma_distinct_below, lemma_map_distinct, lemma_rotate, lemma_splice, next_in, ring_links, rotate, splice, within};

verus! {

/// What holds of the element at index `i`: its representative is a root of the same set,
/// its parent is in its set and lies strictly higher, and it is a member of its set's list.
pub(crate) open spec fn node_ok(
    n: int,
    meta: Seq<Metadata>,
    rep: Seq<int>,
    level: Seq<nat>,
    cap: nat,
    ring: Seq<Seq<int>>,
    i: int,
) -> bool {
    let p = meta[i].parent as int;
    &&& 0 <= rep[i] < n
    &&& rep[rep[i]] == rep[i]
    &&& p < n
    &&& rep[p] == rep[i]
    &&& (p == i <==> rep[i] == i)
    &&& (p != i ==> level[p] > level[i])
    &&& (rep[i] != i ==> level[rep[i]] > level[i])
    &&& level[i] < cap
    &&& meta[i].link < n
    &&& ring[rep[i]].contains(i)
}

/// What holds of a root `r`: its list starts at `r`, has no repeats, holds members of its set
/// only, is threaded by the links, and bounds the root's rank.
pub(crate) open spec fn root_ok(n: int, meta: Seq<Metadata>, rep: Seq<int>, ring: Seq<Seq<int>>, r: int) -> bool {
    let list = ring[r];
    &&& list.len() >= 1
    &&& list[0] == r
    &&& list.no_duplicates()
    &&& within(list, n)
    &&& forall|m: int| 0 <= m < list.len() ==> rep[#[trigger] list[m]] == r
    &&& ring_links(meta, list)
    &&& meta[r].rank <= list.len()
}

/// The members that a regrouping keeps together: all but `excluded`, and only those below `bound`.
spec fn keeps(excluded: int, bound: int, x: int) -> bool {
    x != excluded && x < bound
}

/// Relies on `Vec::capacity`: the number of elements the vector can hold without
/// reallocating, which is at least its length.
#[verifier::external_body]
fn vec_capacity<T>(v: &Vec<T>) -> (r: usize)
    ensures
        r >= v@.len(),
{
    v.capacity()
}

/// Relies on `Vec::shrink_to_fit`: only the capacity changes, not the elements.
#[verifier::external_body]
fn vec_shrink_to_fit<T>(v: &mut Vec<T>)
    ensures
        final(v)@ == old(v)@,
{
    v.shrink_to_fit()
}

/// Where an index lands when an element is inserted at `at`.
pub open spec fn shift_up(at: int, x: int) -> int {
    if x >= at {
        x + 1
    } else {
        x
    }
}

/// Where an index lands when the element at `at` is removed.
pub open spec fn shift_down(at: int, x: int) -> int {
    if x > at {
        x - 1
    } else {
        x
    }
}

/// A record with its parent and link moved by `f`.
spec fn moved(m: Metadata, f: spec_fn(int) -> int) -> Metadata {
    Metadata { parent: f(m.parent as int) as usize, link: f(m.link as int) as usize, rank: m.rank }
}

/// A vector divided into disjoint sets.
///
/// Each element starts in a set of its own; `union` joins sets, `same_set` asks whether two
/// elements share one, and the members of a set can be walked in time linear in its size.
/// Beside each value the vector keeps a `Metadata`: a parent in a union-find forest (with
/// path compression and union by rank) and a link in a circular list of the set's members.
#[derive(Clone)]
pub struct PartitionVec<T> {
    pub(crate) data: Vec<T>,
    pub(crate) meta: Vec<Metadata>,
    /// The root of the set of each element.
    pub(crate) rep: Ghost<Seq<int>>,
    /// Strictly increases from each element to its parent.
    pub(crate) level: Ghost<Seq<nat>>,
    /// Bounds every level.
    pub(crate) cap: Ghost<nat>,
    /// For each root, the members of its set in the order of the links, starting at the root.
    pub(crate) ring: Ghost<Seq<Seq<int>>>,
}

impl<T> PartitionVec<T> {
    /// The vector is well formed: the forest and the lists describe one partition.
    pub closed spec fn wf(&self) -> bool {
        let n = self.data@.len() as int;
        &&& n <= usize::MAX
        &&& self.meta@.len() == n
        &&& self.rep@.len() == n
        &&& self.level@.len() == n
        &&& self.ring@.len() == n
        &&& forall|i: int| 0 <= i < n ==> #[trigger] self.node(i)
        &&& forall|r: int| 0 <= r < n && self.rep@[r] == r ==> #[trigger] self.root(r)
    }

    /// The values, in order.
    pub closed spec fn values(&self) -> Seq<T> {
        self.data@
    }

    /// The representative of the set of the element at `i`.
    pub closed spec fn rep_of(&self, i: int) -> int {
        self.rep@[i]
    }

    /// The number of elements.
    pub open spec fn size(&self) -> int {
        self.values().len() as int
    }

    /// The elements at `a` and `b` are in the same set.
    pub open spec fn same(&self, a: int, b: int) -> bool {
        self.rep_of(a) == self.rep_of(b)
    }

    /// The indices of the members of the set of the element at `i`.
    pub open spec fn class_of(&self, i: int) -> Set<int> {
        Set::new(|k: int| 0 <= k < self.size() && self.same(k, i))
    }

    /// The representatives of the sets; there is one per set.
    pub open spec fn reps(&self) -> Set<int> {
        Set::new(|r: int| exists|k: int| 0 <= k < self.size() && self.rep_of(k) == r)
    }

    /// The partition is `old`'s with `index` taken out of its set into a set of its own.
    pub open spec fn singled_out(&self, old: &Self, index: int) -> bool {
        forall|a: int, b: int|
            0 <= a < old.size() && 0 <= b < old.size() ==> (#[trigger] self.same(a, b) <==> (a == b || (
            a != index && b != index && old.same(a, b))))
    }

    /// The partition is `old`'s with the sets of `i` and `j` joined.
    pub open spec fn joined(&self, old: &Self, i: int, j: int) -> bool {
        forall|a: int, b: int|
            0 <= a < old.size() && 0 <= b < old.size() ==> (#[trigger] self.same(a, b) <==> (old.same(a, b)
                || (old.same(a, i) && old.same(b, j)) || (old.same(a, j) && old.same(b, i))))
    }

    /// The partition is `old`'s with an element of its own inserted at `at`.
    pub open spec fn inserted(&self, old: &Self, at: int) -> bool {
        &&& forall|a: int, b: int|
            0 <= a < old.size() && 0 <= b < old.size() ==> (self.same(
                #[trigger] shift_up(at, a),
                #[trigger] shift_up(at, b),
            ) <==> old.same(a, b))
        &&& forall|a: int| 0 <= a < self.size() ==> (#[trigger] self.same(a, at) <==> a == at)
    }

    /// The partition is `old`'s with the element at `at` removed.
    pub open spec fn removed(&self, old: &Self, at: int) -> bool {
        forall|a: int, b: int|
            0 <= a < self.size() && 0 <= b < self.size() ==> (#[trigger] self.same(a, b) <==> old.same(
                shift_up(at, a),
                shift_up(at, b),
            ))
    }

    /// Two vectors of the same length divide their indices into the same sets.
    pub open spec fn same_partition(&self, other: &Self) -> bool {
        &&& self.size() == other.size()
        &&& forall|a: int, b: int|
            0 <= a < self.size() && 0 <= b < self.size() ==> (#[trigger] self.same(a, b) <==> other.same(a, b))
    }

    /// Every element is alone in its set.
    pub open spec fn all_singletons(&self) -> bool {
        forall|a: int, b: int|
            0 <= a < self.size() && 0 <= b < self.size() ==> (self.same(a, b) <==> a == b)
    }

    /// Same values and same representatives as `other`: the partition is unchanged.
    pub open spec fn unchanged_from(&self, other: &Self) -> bool {
        &&& self.values() == other.values()
        &&& forall|k: int| 0 <= k < self.size() ==> #[trigger] self.rep_of(k) == other.rep_of(k)
    }

    pub(crate) open spec fn node(&self, i: int) -> bool {
        node_ok(
            self.data@.len() as int,
            self.meta@,
            self.rep@,
            self.level@,
            self.cap@,
            self.ring@,
            i,
        )
    }

    pub(crate) open spec fn root(&self, r: int) -> bool {
        root_ok(self.data@.len() as int, self.meta@, self.rep@, self.ring@, r)
    }

    pub(crate) proof fn lemma_node(&self, i: int)
        requires
            self.wf(),
            0 <= i < self.size(),
        ensures
            self.node(i),
            self.root(self.rep@[i]),
            self.meta@.len() == self.size(),
            self.data@ == self.values(),
            self.rep@[i] == self.rep_of(i),
            self.ring@.len() == self.size(),
            self.rep@.len() == self.size(),
            self.size() <= usize::MAX,
    {
        assert(self.node(i));
        assert(self.root(self.rep@[i]));
    }

    /// The position of `i` in the list of its set.
    proof fn lemma_position(&self, i: int) -> (m: int)
        requires
            self.wf(),
            0 <= i < self.size(),
        ensures
            0 <= m < self.ring@[self.rep@[i]].len(),
            self.ring@[self.rep@[i]][m] == i,
    {
        self.lemma_node(i);
        choose|m: int| 0 <= m < self.ring@[self.rep@[i]].len() && self.ring@[self.rep@[i]][m] == i
    }

    /// The members of a set are exactly those of its list.
    pub(crate) proof fn lemma_class_is_ring(&self, i: int)
        requires
            self.wf(),
            0 <= i < self.size(),
        ensures
            self.class_of(i) == self.ring@[self.rep@[i]].to_set(),
            self.class_of(i).len() == self.ring@[self.rep@[i]].len(),
            self.class_of(i).finite(),
    {
        self.lemma_node(i);
        let r = self.rep@[i];
        let list = self.ring@[r];
        assert forall|k: int| self.class_of(i).contains(k) <==> list.to_set().contains(k) by {
            if self.class_of(i).contains(k) {
                self.lemma_node(k);
            }
            if list.to_set().contains(k) {
                let m = choose|m: int| 0 <= m < list.len() && list[m] == k;
                assert(list[m] == k);
            }
        }
        assert(self.class_of(i) =~= list.to_set());
        list.unique_seq_to_set();
    }

    /// Constructs a new, empty `PartitionVec`.
    pub fn new() -> (r: Self)
        ensures
            r.wf(),
            r.values() == Seq::<T>::empty(),
    {
        PartitionVec {
            data: Vec::new(),
            meta: Vec::new(),
            rep: Ghost(Seq::empty()),
            level: Ghost(Seq::empty()),
            cap: Ghost(0),
            ring: Ghost(Seq::empty()),
        }
    }

    /// Constructs a new, empty `PartitionVec` with room for `capacity` elements.
    pub fn with_capacity(capacity: usize) -> (r: Self)
        ensures
            r.wf(),
            r.values() == Seq::<T>::empty(),
    {
        PartitionVec {
            data: Vec::with_capacity(capacity),
            meta: Vec::with_capacity(capacity),
            rep: Ghost(Seq::empty()),
            level: Ghost(Seq::empty()),
            cap: Ghost(0),
            ring: Ghost(Seq::empty()),
        }
    }

    /// Returns the number of elements.
    pub fn len(&self) -> (r: usize)
        ensures
            r == self.size(),
    {
        self.data.len()
    }

    /// Returns a reference to the value at `index`.
    pub fn get(&self, index: usize) -> (r: &T)
        requires
            index < self.size(),
        ensures
            *r == self.values()[index as int],
    {
        &self.data[index]
    }

    /// Every parent and every link is the index of an element.
    #[verifier::opaque]
    pub closed spec fn links_within(&self) -> bool {
        forall|i: int|
            0 <= i < self.size() ==> (#[trigger] self.meta@[i]).parent < self.size() && self.meta@[i].link
                < self.size()
    }

    /// A well-formed vector refers only to its own elements.
    pub proof fn lemma_links_within(&self)
        requires
            self.wf(),
        ensures
            self.links_within(),
    {
        reveal(PartitionVec::links_within);
        assert forall|i: int| 0 <= i < self.size() implies (#[trigger] self.meta@[i]).parent < self.size()
            && self.meta@[i].link < self.size() by {
            self.lemma_node(i);
        }
    }

    /// Everything but the values is as in `other`: the same sets, records and lists.
    pub closed spec fn same_layout(&self, other: &Self) -> bool {
        &&& self.meta@ == other.meta@
        &&& self.rep@ == other.rep@
        &&& self.level@ == other.level@
        &&& self.cap@ == other.cap@
        &&& self.ring@ == other.ring@
    }

    /// Returns a mutable reference to the value at `index`; the sets are unchanged.
    pub fn get_mut(&mut self, index: usize) -> (r: &mut T)
        requires
            index < old(self).size(),
        ensures
            *r == old(self).values()[index as int],
            final(self).values() == old(self).values().update(index as int, *final(r)),
            final(self).same_layout(old(self)),
    {
        &mut self.data[index]
    }

    /// Changing only the values keeps a vector well formed.
    pub proof fn lemma_same_layout(&self, other: &Self)
        requires
            other.wf(),
            self.same_layout(other),
            self.size() == other.size(),
        ensures
            self.wf(),
            forall|a: int, b: int| self.same(a, b) == other.same(a, b),
    {
        assert forall|i: int| 0 <= i < self.size() implies #[trigger] self.node(i) by {
            assert(other.node(i));
        }
        assert forall|r: int| 0 <= r < self.size() && self.rep@[r] == r implies #[trigger] self.root(r) by {
            assert(other.root(r));
        }
    }

    /// Puts `value` at `index` and returns the value that was there; the sets are unchanged.
    pub fn replace(&mut self, index: usize, value: T) -> (r: T)
        requires
            old(self).wf(),
            index < old(self).size(),
        ensures
            final(self).wf(),
            r == old(self).values()[index as int],
            final(self).values() == old(self).values().update(index as int, value),
            forall|a: int, b: int|
                0 <= a < final(self).size() && 0 <= b < final(self).size() ==> (#[trigger] final(self).same(a, b)
                    <==> old(self).same(a, b)),
    {
        let mut value = value;
        let ghost before = *self;
        let mut slot = self.data.remove(index);
        std::mem::swap(&mut slot, &mut value);
        self.data.insert(index, slot);
        proof {
            assert(self.data@ =~= before.data@.update(index as int, self.data@[index as int]));
            assert forall|i: int| 0 <= i < self.size() implies #[trigger] self.node(i) by {
                before.lemma_node(i);
            }
            assert forall|r: int| 0 <= r < self.size() && self.rep@[r] == r implies #[trigger] self.root(r) by {
                assert(before.root(r));
            }
        }
        value
    }

    /// Makes room for at least `additional` more elements.
    pub fn reserve(&mut self, additional: usize)
        requires
            old(self).wf(),
        ensures
            final(self).wf(),
            final(self).values() == old(self).values(),
            final(self).same_layout(old(self)),
    {
        let ghost before = *self;
        self.data.reserve(additional);
        self.meta.reserve(additional);
        proof {
            self.lemma_same_layout(&before);
        }
    }

    /// Lowers the capacity as far as the allocator allows.
    pub fn shrink_to_fit(&mut self)
        requires
            old(self).wf(),
        ensures
            final(self).wf(),
            final(self).values() == old(self).values(),
            final(self).same_layout(old(self)),
    {
        let ghost before = *self;
        vec_shrink_to_fit(&mut self.data);
        vec_shrink_to_fit(&mut self.meta);
        proof {
            self.lemma_same_layout(&before);
        }
    }

    /// Returns the values as a mutable slice; the sets are unchanged.
    pub fn as_mut_slice(&mut self) -> (r: &mut [T])
        ensures
            r@ == old(self).values(),
            final(self).values() == final(r)@,
            final(self).same_layout(old(self)),
    {
        self.data.as_mut_slice()
    }

    /// Returns how many elements the vector can hold without reallocating.
    pub fn capacity(&self) -> (r: usize)
        requires
            self.wf(),
        ensures
            r >= self.size(),
    {
        let data = vec_capacity(&self.data);
        let meta = vec_capacity(&self.meta);
        if data < meta {
            data
        } else {
            meta
        }
    }

    /// Returns the values as a slice.
    pub fn as_slice(&self) -> (r: &[T])
        ensures
            r@ == self.values(),
    {
        self.data.as_slice()
    }

    /// Returns `true` if there are no elements.
    pub fn is_empty(&self) -> (r: bool)
        ensures
            r == (self.size() == 0),
    {
        self.data.len() == 0
    }

    /// The root of the set of `index`, found by following parents without changing them.
    pub(crate) fn find_final(&self, index: usize) -> (r: usize)
        requires
            self.wf(),
            index < self.size(),
        ensures
            r == self.rep@[index as int],
    {
        let mut current = index;
        proof {
            self.lemma_node(index as int);
        }
        while self.meta[current].parent != current
            invariant
                self.wf(),
                current < self.size(),
                self.rep@[current as int] == self.rep@[index as int],
            decreases self.cap@ - self.level@[current as int],
        {
            proof {
                self.lemma_node(current as int);
            }
            current = self.meta[current].parent;
            proof {
                self.lemma_node(current as int);
            }
        }
        proof {
            self.lemma_node(current as int);
        }
        current
    }

    /// The root of the set of `index`; every element on the way gets the root as its parent.
    fn find(&mut self, index: usize) -> (r: usize)
        requires
            old(self).wf(),
            index < old(self).size(),
        ensures
            final(self).wf(),
            r == old(self).rep@[index as int],
            final(self).data@ == old(self).data@,
            final(self).rep@ == old(self).rep@,
            final(self).level@ == old(self).level@,
            final(self).cap@ == old(self).cap@,
            final(self).ring@ == old(self).ring@,
            forall|k: int|
                0 <= k < final(self).size() ==> (#[trigger] final(self).meta@[k]).link
                    == old(self).meta@[k].link && final(self).meta@[k].rank
                    == old(self).meta@[k].rank,
        decreases old(self).cap@ - old(self).level@[index as int],
    {
        proof {
            self.lemma_node(index as int);
        }
        let parent = self.meta[index].parent;
        if parent == index {
            return index;
        }
        proof {
            self.lemma_node(parent as int);
        }
        let root = self.find(parent);
        let ghost before = *self;
        proof {
            before.lemma_node(index as int);
        }
        let mut m = self.meta[index];
        m.set_parent(root);
        self.meta.set(index, m);
        proof {
            let n = self.size();
            assert(self.meta@ == before.meta@.update(index as int, m));
            assert(root != index);
            assert forall|i: int| 0 <= i < n implies #[trigger] self.node(i) by {
                before.lemma_node(i);
            }

            assert forall|r: int| 0 <= r < n && self.rep@[r] == r implies #[trigger] self.root(r) by {
                assert(before.root(r));
                let list = self.ring@[r];
                assert forall|k: int| 0 <= k < list.len() implies #[trigger] self.meta@[list[k]].link
                    == next_in(list, k) by {
                    assert(before.meta@[list[k]].link == next_in(list, k));
                }
                assert(self.meta@[r].rank == before.meta@[r].rank);
            }
            assert(self.wf());
        }
        root
    }

    /// Returns `true` if the elements at `first_index` and `second_index` share a set.
    ///
    /// Takes `&mut self` because the parents met on the way to the roots are compressed.
    pub fn same_set(&mut self, first_index: usize, second_index: usize) -> (r: bool)
        requires
            old(self).wf(),
            first_index < old(self).size(),
            second_index < old(self).size(),
        ensures
            final(self).wf(),
            final(self).unchanged_from(old(self)),
            r == old(self).same(first_index as int, second_index as int),
    {
        let i = self.find(first_index);
        let j = self.find(second_index);
        i == j
    }

    /// Returns `true` if the elements at `first_index` and `second_index` are in different sets.
    pub fn other_sets(&mut self, first_index: usize, second_index: usize) -> (r: bool)
        requires
            old(self).wf(),
            first_index < old(self).size(),
            second_index < old(self).size(),
        ensures
            final(self).wf(),
            final(self).unchanged_from(old(self)),
            r == !old(self).same(first_index as int, second_index as int),
    {
        let i = self.find(first_index);
        let j = self.find(second_index);
        i != j
    }

    /// Returns `true` if `index` is the only member of its set.
    pub fn is_singleton(&self, index: usize) -> (r: bool)
        requires
            self.wf(),
            index < self.size(),
        ensures
            r == (forall|k: int| 0 <= k < self.size() && self.same(k, index as int) ==> k == index),
    {
        proof {
            let list = self.ring@[self.rep@[index as int]];
            let m = self.lemma_position(index as int);
            self.lemma_node(index as int);
            assert(self.meta@[list[m]].link == next_in(list, m));
            if list.len() == 1 {
                assert forall|k: int| 0 <= k < self.size() && self.same(k, index as int) implies k
                    == index by {
                    let mk = self.lemma_position(k);
                }
            } else {
                let other = next_in(list, m);
                let mo = if m + 1 < list.len() { m + 1 } else { 0 };
                assert(list[mo] == other);
                assert(other != index);
                assert(self.root(self.rep@[index as int]));
                assert(0 <= other < self.size());
                assert(self.rep@[other] == self.rep@[index as int]);
                assert(self.same(other, index as int));
                assert(self.meta@[index as int].link != index);
            }
        }
        self.meta[index].link == index
    }

    /// Returns the number of members of the set of `index`, walking its list.
    pub fn len_of_set(&self, index: usize) -> (r: usize)
        requires
            self.wf(),
            index < self.size(),
        ensures
            r == self.class_of(index as int).len(),
    {
        let ghost list = self.ring@[self.rep@[index as int]];
        let ghost p = self.lemma_position(index as int);
        let ghost walk = rotate(list, p);
        proof {
            self.lemma_node(index as int);
            lemma_rotate(self.meta@, list, p);
            lemma_distinct_below(list, self.size());
            self.lemma_class_is_ring(index as int);
            assert forall|m: int| 0 <= m < walk.len() implies 0 <= #[trigger] walk[m] < self.size() by {
                assert(walk.contains(walk[m]));
                assert(list.contains(walk[m]));
                let k = choose|k: int| 0 <= k < list.len() && list[k] == walk[m];
                assert(list[k] == walk[m]);
            }
        }
        let len = self.data.len();
        let mut current = self.meta[index].link;
        let mut count: usize = 1;
        while current != index
            invariant
                self.wf(),
                index < self.size(),
                within(walk, self.size()),
                1 <= count <= walk.len(),
                walk.len() <= self.size() == len,
                walk.no_duplicates(),
                walk[0] == index,
                ring_links(self.meta@, walk),
                current == next_in(walk, count - 1),
            decreases walk.len() - count,
        {
            proof {
                if count == walk.len() {
                    assert(current == walk[0]);
                }
                assert(self.meta@[walk[count as int]].link == next_in(walk, count as int));
                assert(0 <= walk[count as int] < self.size());
            }
            current = self.meta[current].link;
            count = count + 1;
        }
        proof {
            if count < walk.len() {
                assert(walk[count as int] == walk[0]);
            }
        }
        count
    }

    /// The lists of two different roots together hold at most all the elements.
    proof fn lemma_two_rings(&self, i: int, j: int)
        requires
            self.wf(),
            0 <= i < self.size(),
            0 <= j < self.size(),
            self.rep@[i] == i,
            self.rep@[j] == j,
            i != j,
        ensures
            (self.ring@[i] + self.ring@[j]).no_duplicates(),
            self.ring@[i].len() + self.ring@[j].len() <= self.size(),
    {
        let a = self.ring@[i];
        let b = self.ring@[j];
        assert(self.root(i));
        assert(self.root(j));
        let ab = a + b;
        assert forall|k1: int, k2: int|
            0 <= k1 < ab.len() && 0 <= k2 < ab.len() && k1 != k2 implies ab[k1] != ab[k2] by {
            if k1 < a.len() && k2 >= a.len() {
                assert(self.rep@[a[k1]] == i);
                assert(self.rep@[b[k2 - a.len()]] == j);
            } else if k2 < a.len() && k1 >= a.len() {
                assert(self.rep@[a[k2]] == i);
                assert(self.rep@[b[k1 - a.len()]] == j);
            }
        }
        assert forall|m: int| 0 <= m < ab.len() implies 0 <= #[trigger] ab[m] < self.size() by {
            if m < a.len() {
                assert(ab[m] == a[m]);
            } else {
                assert(ab[m] == b[m - a.len()]);
            }
        }
        lemma_distinct_below(ab, self.size());
    }

    /// Hanging the root `child` under the root `top`, with the links of the two exchanged,
    /// gives a well-formed vector in which the two sets are one.
    proof fn lemma_attach(before: &Self, after: &Self, child: int, top: int)
        requires
            before.wf(),
            0 <= child < before.size(),
            0 <= top < before.size(),
            child != top,
            before.rep@[child] == child,
            before.rep@[top] == top,
            after.data@ == before.data@,
            after.meta@.len() == before.meta@.len(),
            forall|x: int|
                0 <= x < before.size() && x != child && x != top ==> #[trigger] after.meta@[x]
                    == before.meta@[x],
            after.meta@[child] == (Metadata {
                parent: top as usize,
                link: before.meta@[top].link,
                rank: before.meta@[child].rank,
            }),
            after.meta@[top].parent == top,
            after.meta@[top].link == before.meta@[child].link,
            after.meta@[top].rank <= before.ring@[child].len() + before.ring@[top].len(),
            after.rep@ == Seq::new(
                before.size() as nat,
                |x: int| if before.rep@[x] == child { top } else { before.rep@[x] },
            ),
            after.ring@ == before.ring@.update(top, splice(before.ring@[child], before.ring@[top])),
            after.level@ == before.level@.update(
                top,
                if before.level@[top] > before.level@[child] {
                    before.level@[top]
                } else {
                    before.level@[child] + 1
                },
            ),
            after.cap@ == if before.cap@ > before.level@[child] + 1 {
                before.cap@
            } else {
                before.level@[child] + 2
            },
        ensures
            after.wf(),
    {
        let n = before.size();
        let a = before.ring@[child];
        let b = before.ring@[top];
        let s = splice(a, b);
        before.lemma_two_rings(child, top);
        assert(before.root(child));
        assert(before.root(top));
        assert forall|m: int| 1 <= m < a.len() implies after.meta@[#[trigger] a[m]].link
            == before.meta@[a[m]].link by {
            assert(a[m] != a[0]);
            assert(before.rep@[a[m]] == child);
        }
        assert forall|m: int| 1 <= m < b.len() implies after.meta@[#[trigger] b[m]].link
            == before.meta@[b[m]].link by {
            assert(b[m] != b[0]);
            assert(before.rep@[b[m]] == top);
        }
        assert((a + b).no_duplicates());
        lemma_splice(before.meta@, after.meta@, a, b);
        assert forall|i: int| 0 <= i < n implies #[trigger] after.node(i) by {
            before.lemma_node(i);
            let p = before.meta@[i].parent as int;
            before.lemma_node(p);
            if i == child {
                assert(a.contains(child));
            } else if i == top {
                assert(b.contains(top));
            } else {
                assert(after.meta@[i] == before.meta@[i]);
                if before.rep@[i] == child {
                    assert(before.ring@[child].contains(i));
                } else if before.rep@[i] == top {
                    assert(before.ring@[top].contains(i));
                }
            }
        }
        assert forall|r: int| 0 <= r < n && after.rep@[r] == r implies #[trigger] after.root(r) by {
            before.lemma_node(r);
            if r != top {
                assert(before.rep@[r] == r);
                assert(r != child);
                assert(before.root(r));
                let list = before.ring@[r];
                assert forall|m: int| 0 <= m < list.len() implies #[trigger] after.meta@[list[m]].link
                    == next_in(list, m) by {
                    assert(before.rep@[list[m]] == r);
                    assert(before.meta@[list[m]].link == next_in(list, m));
                }
                assert forall|m: int| 0 <= m < list.len() implies after.rep@[#[trigger] list[m]]
                    == r by {
                    assert(before.rep@[list[m]] == r);
                }
            } else {
                assert forall|m: int| 0 <= m < s.len() implies after.rep@[#[trigger] s[m]] == top by {
                    assert(s.contains(s[m]));
                    if a.contains(s[m]) {
                        let k = choose|k: int| 0 <= k < a.len() && a[k] == s[m];
                        assert(before.rep@[a[k]] == child);
                    } else {
                        let k = choose|k: int| 0 <= k < b.len() && b[k] == s[m];
                        assert(before.rep@[b[k]] == top);
                    }
                }
                assert forall|m: int| 0 <= m < s.len() implies 0 <= #[trigger] s[m] < n by {
                    assert(s.contains(s[m]));
                    if a.contains(s[m]) {
                        let k = choose|k: int| 0 <= k < a.len() && a[k] == s[m];
                        assert(a[k] == s[m]);
                    } else {
                        let k = choose|k: int| 0 <= k < b.len() && b[k] == s[m];
                        assert(b[k] == s[m]);
                    }
                }
            }
        }
    }

    /// Joins the sets of `first_index` and `second_index`.
    ///
    /// The lists of the two sets are joined by exchanging the links of their roots; the root
    /// of lower rank is hung under the other, and on equal ranks the first goes under the
    /// second, whose rank grows by one.
    #[verifier::rlimit(50)]
    pub fn union(&mut self, first_index: usize, second_index: usize)
        requires
            old(self).wf(),
            first_index < old(self).size(),
            second_index < old(self).size(),
        ensures
            final(self).wf(),
            final(self).values() == old(self).values(),
            final(self).joined(old(self), first_index as int, second_index as int),
    {
        let i = self.find(first_index);
        let j = self.find(second_index);
        if i == j {
            proof {
                assert forall|a: int, b: int| 0 <= a < self.size() && 0 <= b < self.size() implies (#[trigger] self.same(a, b)
                    <==> (old(self).same(a, b) || (old(self).same(a, first_index as int) && old(self).same(b, second_index as int))
                    || (old(self).same(a, second_index as int) && old(self).same(b, first_index as int)))) by {}
            }
            return;
        }
        let len = self.data.len();
        let ghost before = *self;
        proof {
            before.lemma_node(first_index as int);
            before.lemma_node(second_index as int);
            before.lemma_node(i as int);
            before.lemma_node(j as int);
            before.lemma_two_rings(i as int, j as int);
            assert(before.root(i as int));
            assert(before.root(j as int));
        }
        let mut meta_i = self.meta[i];
        let mut meta_j = self.meta[j];
        let link_i = meta_i.link();
        let link_j = meta_j.link();
        meta_i.set_link(link_j);
        meta_j.set_link(link_i);
        let rank_i = meta_i.rank();
        let rank_j = meta_j.rank();
        let ghost child: int;
        let ghost top: int;
        if rank_i < rank_j {
            meta_i.set_parent(j);
            proof {
                child = i as int;
                top = j as int;
            }
        } else if rank_i == rank_j {
            // The first tree goes under the second, which grows.
            assert(rank_j < len);
            meta_i.set_parent(j);
            meta_j.set_rank(rank_j + 1);
            proof {
                child = i as int;
                top = j as int;
            }
        } else {
            meta_j.set_parent(i);
            proof {
                child = j as int;
                top = i as int;
            }
        }
        self.meta.set(i, meta_i);
        self.meta.set(j, meta_j);
        proof {
            let n = before.size();
            self.rep = Ghost(
                Seq::new(n as nat, |x: int| if before.rep@[x] == child { top } else { before.rep@[x] }),
            );
            self.ring = Ghost(
                before.ring@.update(top, splice(before.ring@[child], before.ring@[top])),
            );
            self.level = Ghost(
                before.level@.update(
                    top,
                    if before.level@[top] > before.level@[child] {
                        before.level@[top]
                    } else {
                        before.level@[child] + 1
                    },
                ),
            );
            self.cap = Ghost(
                if before.cap@ > before.level@[child] + 1 {
                    before.cap@
                } else {
                    before.level@[child] + 2
                },
            );
            Self::lemma_attach(&before, self, child, top);
            assert forall|a: int, b: int| 0 <= a < n && 0 <= b < n implies (self.same(a, b) <==> (
            before.same(a, b) || (before.same(a, first_index as int) && before.same(
                b,
                second_index as int,
            )) || (before.same(a, second_index as int) && before.same(b, first_index as int))))
                by {
                before.lemma_node(a);
                before.lemma_node(b);
            }
        }
    }

    /// Splits the set of `start`: the members that `keeps` accepts stay together, hung directly
    /// under `start` and linked in their old order; every other member gets a set of its own.
    #[verifier::rlimit(60)]
    fn regroup(&mut self, start: usize, excluded: usize, bound: usize)
        requires
            old(self).wf(),
            start < bound <= old(self).size(),
            start != excluded,
        ensures
            final(self).wf(),
            final(self).data@ == old(self).data@,
            forall|a: int, b: int|
                0 <= a < old(self).size() && 0 <= b < old(self).size() ==> (#[trigger] final(self).same(a, b)
                    <==> (a == b || (old(self).same(a, b) && (!old(self).same(a, start as int) || (
                    keeps(excluded as int, bound as int, a) && keeps(
                        excluded as int,
                        bound as int,
                        b,
                    )))))),
            forall|x: int|
                0 <= x < old(self).size() && !old(self).same(x, start as int)
                    ==> #[trigger] final(self).meta@[x] == old(self).meta@[x],
            forall|x: int|
                0 <= x < old(self).size() && old(self).same(x, start as int) && keeps(
                    excluded as int,
                    bound as int,
                    x,
                ) ==> keeps(excluded as int, bound as int, #[trigger] final(self).meta@[x].link as int),
    {
        let ghost before = *self;
        let ghost n = before.size();
        let ghost e = excluded as int;
        let ghost bd = bound as int;
        let ghost r = before.rep@[start as int];
        let ghost list = before.ring@[r];
        let ghost p = before.lemma_position(start as int);
        let ghost walk = rotate(list, p);
        proof {
            before.lemma_node(start as int);
            lemma_rotate(before.meta@, list, p);
            assert forall|m: int| 0 <= m < walk.len() implies 0 <= #[trigger] walk[m] < n
                && before.rep@[walk[m]] == r by {
                assert(walk.contains(walk[m]));
                assert(list.contains(walk[m]));
                let k = choose|k: int| 0 <= k < list.len() && list[k] == walk[m];
                assert(list[k] == walk[m]);
            }
        }
        let mut prev = start;
        let mut current = self.meta[start].link;
        let ghost mut k: int = 1;
        let ghost mut together: Seq<int> = seq![start as int];
        proof {
            assert(together[0] == start as int);
            assert(together.contains(walk[0]));
        }
        while current != start
            invariant
                self.data@ == before.data@,
                self.meta@.len() == n,
                before.wf(),
                start < bound <= n,
                start != excluded,
                e == excluded as int,
                bd == bound as int,
                n == before.size(),
                r == before.rep@[start as int],
                list == before.ring@[r],
                forall|x: int| walk.contains(x) <==> list.contains(x),
                walk.len() >= 1,
                walk[0] == start,
                walk.no_duplicates(),
                ring_links(before.meta@, walk),
                forall|m: int| 0 <= m < walk.len() ==> 0 <= #[trigger] walk[m] < n && before.rep@[walk[m]] == r,
                1 <= k <= walk.len(),
                current == next_in(walk, k - 1),
                together.len() >= 1,
                together[0] == start,
                prev == together.last(),
                together.no_duplicates(),
                forall|j: int|
                    0 <= j < together.len() ==> keeps(e, bd, #[trigger] together[j]) && exists|m: int|
                        0 <= m < k && walk[m] == together[j],
                forall|m: int| 0 <= m < k && keeps(e, bd, #[trigger] walk[m]) ==> together.contains(walk[m]),
                forall|j: int|
                    0 <= j < together.len() - 1 ==> self.meta@[#[trigger] together[j]].link == together[j + 1],
                forall|j: int| 1 <= j < together.len() ==> self.meta@[#[trigger] together[j]].parent == start,
                forall|m: int|
                    1 <= m < k && !keeps(e, bd, walk[m]) ==> self.meta@[#[trigger] walk[m]]
                        == Metadata::fresh(walk[m] as usize),
                forall|m: int| k <= m < walk.len() ==> self.meta@[#[trigger] walk[m]] == before.meta@[walk[m]],
                forall|x: int| 0 <= x < n && before.rep@[x] != r ==> #[trigger] self.meta@[x] == before.meta@[x],
            decreases walk.len() - k,
        {
            proof {
                if k == walk.len() {
                    assert(current == walk[0]);
                }
                assert(current == walk[k]);
                assert(before.meta@[walk[k]].link == next_in(walk, k));
                assert forall|j: int| 0 <= j < together.len() implies together[j] != walk[k] by {
                    let m = choose|m: int| 0 <= m < k && walk[m] == together[j];
                }
            }
            let next = self.meta[current].link;
            if current != excluded && current < bound {
                let mut meta_prev = self.meta[prev];
                meta_prev.set_link(current);
                self.meta.set(prev, meta_prev);
                let mut meta_current = self.meta[current];
                meta_current.set_parent(start);
                self.meta.set(current, meta_current);
                let ghost old_prev = prev;
                prev = current;
                proof {
                    let old_together = together;
                    together = together.push(current as int);
                    assert forall|j: int| 0 <= j < together.len() implies keeps(e, bd, #[trigger] together[j])
                        && exists|m: int| 0 <= m < k + 1 && walk[m] == together[j] by {
                        if j < old_together.len() {
                            assert(together[j] == old_together[j]);
                            assert(keeps(e, bd, old_together[j]));
                        } else {
                            assert(together[j] == current as int);
                            assert(keeps(e, bd, current as int));
                            assert(walk[k] == together[j]);
                        }
                    }
                    assert forall|m: int| 0 <= m < k + 1 && keeps(e, bd, #[trigger] walk[m]) implies together.contains(walk[m]) by {
                        if m < k {
                            let j = choose|j: int| 0 <= j < old_together.len() && old_together[j] == walk[m];
                            assert(together[j] == walk[m]);
                        } else {
                            assert(together[together.len() - 1] == walk[m]);
                        }
                    }
                    assert forall|j: int| 0 <= j < together.len() - 1 implies self.meta@[#[trigger] together[j]].link == together[j + 1] by {
                        if j < old_together.len() - 1 {
                            assert(together[j] != current);
                            assert(together[j] != old_prev);
                        }
                    }
                    assert forall|j: int| 1 <= j < together.len() implies self.meta@[#[trigger] together[j]].parent == start by {
                        if j < old_together.len() {
                            assert(together[j] != current);
                        }
                    }
                    assert forall|m: int| 1 <= m < k + 1 && !keeps(e, bd, walk[m]) implies self.meta@[#[trigger] walk[m]]
                        == Metadata::fresh(walk[m] as usize) by {
                        assert(walk[m] != current);
                        assert(!old_together.contains(walk[m]));
                        if walk[m] == old_prev {
                            assert(old_together[old_together.len() - 1] == walk[m]);
                        }
                    }
                    assert forall|m: int| k + 1 <= m < walk.len() implies self.meta@[#[trigger] walk[m]] == before.meta@[walk[m]] by {
                        assert(walk[m] != current);
                        let j = old_together.len() - 1;
                        let mj = choose|mj: int| 0 <= mj < k && walk[mj] == old_together[j];
                        assert(walk[m] != old_prev);
                    }
                }
            } else {
                self.meta.set(current, Metadata::new(current));
                proof {
                    assert forall|j: int| 0 <= j < together.len() - 1 implies self.meta@[#[trigger] together[j]].link == together[j + 1] by {
                        assert(together[j] != current);
                    }
                    assert forall|j: int| 1 <= j < together.len() implies self.meta@[#[trigger] together[j]].parent == start by {
                        assert(together[j] != current);
                    }
                    assert forall|m: int| k + 1 <= m < walk.len() implies self.meta@[#[trigger] walk[m]] == before.meta@[walk[m]] by {
                        assert(walk[m] != current);
                    }
                    assert forall|m: int| 1 <= m < k + 1 && !keeps(e, bd, walk[m]) implies self.meta@[#[trigger] walk[m]]
                        == Metadata::fresh(walk[m] as usize) by {
                        if m < k {
                            assert(walk[m] != current);
                        }
                    }
                    assert(!together.contains(current as int));
                }
            }
            current = next;
            proof {
                k = k + 1;
            }
        }
        proof {
            if k < walk.len() {
                assert(walk[k] == walk[0]);
            }
            assert(k == walk.len());
        }
        let ghost mid = self.meta@;
        let mut meta_prev = self.meta[prev];
        meta_prev.set_link(start);
        self.meta.set(prev, meta_prev);
        let mut meta_start = self.meta[start];
        meta_start.set_parent(start);
        meta_start.set_rank(1);
        self.meta.set(start, meta_start);
        proof {
            let s = start as int;
            let last = together.len() - 1;
            assert(together[last] == prev as int);
            assert forall|j: int| 1 <= j < together.len() implies self.meta@[#[trigger] together[j]].parent == s by {
                assert(together[j] != s);
                assert(mid[together[j]].parent == s);
            }
            assert forall|j: int| 0 <= j < together.len() - 1 implies self.meta@[#[trigger] together[j]].link == together[j + 1] by {
                assert(together[j] != prev);
                assert(mid[together[j]].link == together[j + 1]);
            }
            assert(self.meta@[prev as int].link == s);
            assert forall|x: int| 0 <= x < n && before.rep@[x] != r implies #[trigger] self.meta@[x] == before.meta@[x] by {
                assert(walk.contains(prev as int));
                assert(walk.contains(s));
            }
            assert forall|m: int| 1 <= m < walk.len() && !keeps(e, bd, walk[m]) implies self.meta@[#[trigger] walk[m]]
                == Metadata::fresh(walk[m] as usize) by {
                assert(walk[m] != s);
                assert(mid[walk[m]] == Metadata::fresh(walk[m] as usize));
                assert(walk[m] != prev);
            }
            let in_set = |x: int| before.rep@[x] == r;
            self.rep = Ghost(
                Seq::new(
                    n as nat,
                    |x: int|
                        if before.rep@[x] == r {
                            if keeps(e, bd, x) {
                                s
                            } else {
                                x
                            }
                        } else {
                            before.rep@[x]
                        },
                ),
            );
            self.ring = Ghost(
                Seq::new(
                    n as nat,
                    |x: int|
                        if x == s {
                            together
                        } else if before.rep@[x] == r && !keeps(e, bd, x) {
                            seq![x]
                        } else {
                            before.ring@[x]
                        },
                ),
            );
            self.level = Ghost(
                Seq::new(
                    n as nat,
                    |x: int|
                        if before.rep@[x] == r {
                            if x == s {
                                1nat
                            } else {
                                0nat
                            }
                        } else {
                            before.level@[x]
                        },
                ),
            );
            self.cap = Ghost(if before.cap@ > 2 { before.cap@ } else { 2 });
            // Every member of the set is on the walk.
            assert forall|x: int| 0 <= x < n && before.rep@[x] == r implies walk.contains(x) by {
                before.lemma_node(x);
                assert(list.contains(x));
            }
            assert forall|j: int| 0 <= j < together.len() implies before.rep@[#[trigger] together[j]] == r
                && 0 <= together[j] < n && keeps(e, bd, together[j]) by {
                let m = choose|m: int| 0 <= m < k && walk[m] == together[j];
            }
            assert forall|x: int| 0 <= x < n && before.rep@[x] == r && keeps(e, bd, x) implies together.contains(x) by {
                assert(walk.contains(x));
                let m = choose|m: int| 0 <= m < walk.len() && walk[m] == x;
                assert(keeps(e, bd, walk[m]));
            }
            assert forall|x: int| 0 <= x < n && before.rep@[x] == r && keeps(e, bd, x) implies self.meta@[x].parent == s by {
                assert(together.contains(x));
                let j = choose|j: int| 0 <= j < together.len() && together[j] == x;
                if j == 0 {
                    assert(x == s);
                } else {
                    assert(self.meta@[together[j]].parent == s);
                }
            }
            assert forall|x: int| 0 <= x < n && before.rep@[x] == r && !keeps(e, bd, x) implies self.meta@[x] == Metadata::fresh(x as usize) by {
                assert(walk.contains(x));
                let m = choose|m: int| 0 <= m < walk.len() && walk[m] == x;
                assert(m != 0);
                assert(!together.contains(x));
            }
            assert forall|j: int| 0 <= j < together.len() implies #[trigger] self.meta@[together[j]].link == next_in(together, j) by {
            }
            assert forall|i: int| 0 <= i < n implies #[trigger] self.node(i) by {
                before.lemma_node(i);
                if before.rep@[i] == r {
                    if keeps(e, bd, i) {
                        assert(together.contains(i));
                        let j = choose|j: int| 0 <= j < together.len() && together[j] == i;
                        assert(self.meta@[together[j]].link == next_in(together, j));
                        if j + 1 < together.len() {
                            assert(keeps(e, bd, together[j + 1]));
                        }
                        assert(self.meta@[i].parent == s);
                        assert(self.rep@[i] == s);
                        assert(self.rep@[s] == s);
                        assert(self.ring@[s] == together);
                        if i != s {
                            assert(self.level@[i] == 0);
                            assert(self.level@[s] == 1);
                        }
                    } else {
                        assert(self.meta@[i] == Metadata::fresh(i as usize));
                        assert(self.ring@[i] == seq![i]);
                        assert(seq![i].contains(i)) by {
                            assert(seq![i][0] == i);
                        }
                    }
                } else {
                    let p = before.meta@[i].parent as int;
                    before.lemma_node(p);
                    before.lemma_node(before.rep@[i]);
                }
            }
            assert forall|x: int| 0 <= x < n && self.rep@[x] == x implies #[trigger] self.root(x) by {
                before.lemma_node(x);
                if x == s {
                    assert forall|m: int| 0 <= m < together.len() implies 0 <= #[trigger] together[m] < n by {}
                } else if before.rep@[x] == r {
                    assert(!keeps(e, bd, x));
                    let single = seq![x];
                    assert(single[0] == x);
                    assert(self.meta@[x] == Metadata::fresh(x as usize));
                    assert(ring_links(self.meta@, single));
                } else {
                    assert(before.root(x));
                    let lx = before.ring@[x];
                    assert forall|m: int| 0 <= m < lx.len() implies #[trigger] self.meta@[lx[m]].link
                        == next_in(lx, m) by {
                        assert(before.rep@[lx[m]] == x);
                        assert(before.meta@[lx[m]].link == next_in(lx, m));
                    }
                    assert forall|m: int| 0 <= m < lx.len() implies self.rep@[#[trigger] lx[m]] == x by {
                        assert(before.rep@[lx[m]] == x);
                    }
                }
            }
            assert(self.wf());
            assert forall|a: int, b: int| 0 <= a < n && 0 <= b < n implies (self.same(a, b)
                <==> (a == b || (before.same(a, b) && (!before.same(a, s) || (keeps(e, bd, a) && keeps(e, bd, b)))))) by {
                before.lemma_node(a);
                before.lemma_node(b);
                before.lemma_node(before.rep@[a]);
                before.lemma_node(before.rep@[b]);
            }
            assert forall|x: int| 0 <= x < n && before.same(x, s) && keeps(e, bd, x) implies keeps(e, bd, #[trigger] self.meta@[x].link as int) by {
                assert(together.contains(x));
                let j = choose|j: int| 0 <= j < together.len() && together[j] == x;
                assert(self.meta@[together[j]].link == next_in(together, j));
                if j + 1 < together.len() {
                    assert(keeps(e, bd, together[j + 1]));
                }
            }
        }
    }

    /// Giving an element that is alone in its set a fresh record keeps the vector well formed.
    proof fn lemma_reset_alone(before: &Self, after: &Self, i: int)
        requires
            before.wf(),
            0 <= i < before.size(),
            forall|k: int| 0 <= k < before.size() && before.same(k, i) ==> k == i,
            after.data@ == before.data@,
            after.meta@ == before.meta@.update(i, Metadata::fresh(i as usize)),
            after.rep@ == before.rep@,
            after.level@ == before.level@,
            after.cap@ == before.cap@,
            after.ring@ == before.ring@,
        ensures
            after.wf(),
    {
        let n = before.size();
        before.lemma_node(i);
        let r = before.rep@[i];
        before.lemma_node(r);
        assert(before.same(r, i));
        assert(r == i);
        let list = before.ring@[i];
        assert(before.root(i));
        assert forall|m: int| 0 <= m < list.len() implies list[m] == i by {
            assert(before.rep@[list[m]] == i);
            assert(0 <= list[m] < n);
            assert(before.same(list[m], i));
        }
        if list.len() > 1 {
            assert(list[0] == list[1]);
        }
        assert(list.len() == 1);
        assert forall|x: int| 0 <= x < n implies #[trigger] after.node(x) by {
            before.lemma_node(x);
            let p = before.meta@[x].parent as int;
            before.lemma_node(p);
            if x != i && p == i {
                assert(before.same(x, i));
            }
        }
        assert forall|x: int| 0 <= x < n && after.rep@[x] == x implies #[trigger] after.root(x) by {
            assert(before.root(x));
            let lx = before.ring@[x];
            assert forall|m: int| 0 <= m < lx.len() implies #[trigger] after.meta@[lx[m]].link
                == next_in(lx, m) by {
                assert(before.meta@[lx[m]].link == next_in(lx, m));
                if lx[m] == i {
                    assert(before.rep@[lx[m]] == x);
                    assert(x == i);
                    assert(m == 0);
                }
            }
        }
    }

    /// Takes `index` out of its set, leaving the other members together, and gives it a set of
    /// its own. Nothing changes if it is already alone.
    ///
    /// The member after `index` in the list becomes the root of what is left; every member left
    /// is hung directly under it.
    #[verifier::rlimit(40)]
    pub fn make_singleton(&mut self, index: usize)
        requires
            old(self).wf(),
            index < old(self).size(),
        ensures
            final(self).wf(),
            final(self).values() == old(self).values(),
            final(self).singled_out(old(self), index as int),
    {
        let ghost before = *self;
        let current = self.meta[index].link();
        proof {
            before.lemma_node(index as int);
        }
        if current != index {
            let len = self.data.len();
            proof {
                let list = before.ring@[before.rep@[index as int]];
                let m = before.lemma_position(index as int);
                assert(list[m] == index);
                assert(before.meta@[list[m]].link == next_in(list, m));
                let mn = if m + 1 < list.len() { m + 1 } else { 0 };
                assert(list[mn] == current);
                assert(before.rep@[current as int] == before.rep@[index as int]);
            }
            self.regroup(current, index, len);
            proof {
                let n = before.size();
                assert forall|a: int, b: int| 0 <= a < n && 0 <= b < n implies (self.same(a, b)
                    <==> (a == b || (a != index && b != index && before.same(a, b)))) by {
                    before.lemma_node(a);
                    before.lemma_node(b);
                }
                assert(self.singled_out(&before, index as int));
            }
        } else {
            proof {
                let list = before.ring@[before.rep@[index as int]];
                let m = before.lemma_position(index as int);
                assert(before.root(before.rep@[index as int]));
                assert(before.meta@[list[m]].link == next_in(list, m));
                if list.len() > 1 {
                    let mn = if m + 1 < list.len() { m + 1 } else { 0 };
                    assert(list[mn] != list[m]);
                }
                assert forall|k: int| 0 <= k < before.size() && before.same(k, index as int) implies k == index by {
                    let mk = before.lemma_position(k);
                }
                let n = before.size();
                assert forall|a: int, b: int| 0 <= a < n && 0 <= b < n implies (self.same(a, b)
                    <==> (a == b || (a != index && b != index && before.same(a, b)))) by {
                    if a == index && before.same(a, b) {
                        assert(before.same(b, index as int));
                    }
                }
                assert(self.singled_out(&before, index as int));
            }
        }
        let ghost middle = *self;
        self.meta.set(index, Metadata::new(index));
        proof {
            assert forall|k: int| 0 <= k < middle.size() && middle.same(k, index as int) implies k == index by {
                before.lemma_node(k);
            }
            Self::lemma_reset_alone(&middle, self, index as int);
            assert(middle.singled_out(&before, index as int));
            let n = before.size();
            assert forall|a: int, b: int| 0 <= a < n && 0 <= b < n implies (#[trigger] self.same(a, b)
                <==> (a == b || (a != index && b != index && before.same(a, b)))) by {
                assert(middle.same(a, b) == self.same(a, b));
            }
        }
    }

    /// Keeps the first `new_len` elements and drops the rest; nothing changes if `new_len` is
    /// not below the length.
    ///
    /// A set that straddles `new_len` is rebuilt over its remaining members: the first of them,
    /// in index order, whose link leads past `new_len` becomes the root, every other remaining
    /// member hangs directly under it, and the list skips the members dropped.
    #[verifier::rlimit(50)]
    pub fn truncate(&mut self, new_len: usize)
        requires
            old(self).wf(),
        ensures
            final(self).wf(),
            final(self).links_within(),
            new_len >= old(self).size() ==> *final(self) == *old(self),
            new_len < old(self).size() ==> final(self).values() == old(self).values().subrange(
                0,
                new_len as int,
            ),
            forall|a: int, b: int|
                0 <= a < new_len && 0 <= b < new_len && new_len < old(self).size()
                    ==> (#[trigger] final(self).same(a, b) <==> old(self).same(a, b)),
    {
        let len = self.data.len();
        if new_len >= len {
            proof {
                self.lemma_links_within();
            }
            return;
        }
        let ghost before = *self;
        let mut i: usize = 0;
        while i < new_len
            invariant
                self.wf(),
                self.data@ == before.data@,
                len == self.size() == before.size(),
                before.wf(),
                new_len < len,
                i <= new_len,
                forall|a: int, b: int|
                    0 <= a < new_len && 0 <= b < new_len ==> (self.same(a, b) <==> before.same(a, b)),
                forall|x: int| 0 <= x < i ==> (#[trigger] self.meta@[x]).link < new_len,
            decreases new_len - i,
        {
            if self.meta[i].link() >= new_len {
                let ghost mid = *self;
                self.regroup(i, len, new_len);
                proof {
                    assert forall|x: int| 0 <= x < i + 1 implies (#[trigger] self.meta@[x]).link < new_len by {
                        mid.lemma_node(x);
                        if mid.same(x, i as int) {
                            assert(keeps(len as int, new_len as int, x));
                        } else {
                            assert(self.meta@[x] == mid.meta@[x]);
                        }
                    }
                    assert forall|a: int, b: int| 0 <= a < new_len && 0 <= b < new_len implies (self.same(a, b)
                        <==> before.same(a, b)) by {
                        assert(keeps(len as int, new_len as int, a));
                        assert(keeps(len as int, new_len as int, b));
                        mid.lemma_node(a);
                    }
                }
            }
            i = i + 1;
        }
        let ghost full = *self;
        self.data.truncate(new_len);
        self.meta.truncate(new_len);
        proof {
            let nl = new_len as int;
            // Every set with a member that stays holds only members that stay.
            assert forall|x: int| 0 <= x < nl implies #[trigger] within(full.ring@[full.rep@[x]], nl) by {
                full.lemma_node(x);
                let m = full.lemma_position(x);
                assert(full.root(full.rep@[x]));
                lemma_closed_below(full.meta@, full.ring@[full.rep@[x]], nl, m);
            }
            self.rep = Ghost(full.rep@.subrange(0, nl));
            self.level = Ghost(full.level@.subrange(0, nl));
            self.ring = Ghost(full.ring@.subrange(0, nl));
            assert forall|x: int| 0 <= x < nl implies #[trigger] self.node(x) by {
                full.lemma_node(x);
                let r = full.rep@[x];
                let list = full.ring@[r];
                let m = full.lemma_position(x);
                assert(within(full.ring@[full.rep@[x]], nl));
                assert(0 <= list[0] < nl);
                let p = full.meta@[x].parent as int;
                full.lemma_node(p);
                let pm = full.lemma_position(p);
                assert(0 <= list[pm] < nl);
            }
            assert forall|r: int| 0 <= r < nl && self.rep@[r] == r implies #[trigger] self.root(r) by {
                full.lemma_node(r);
                assert(full.root(r));
                assert(within(full.ring@[full.rep@[r]], nl));
            }
            self.lemma_links_within();
        }
    }

    /// Nothing but an element that is alone in its set refers to it.
    proof fn lemma_unreferenced(&self, gone: int, x: int)
        requires
            self.wf(),
            0 <= x < self.size(),
            x != gone,
            0 <= gone < self.size() ==> forall|k: int| 0 <= k < self.size() && self.same(k, gone) ==> k == gone,
        ensures
            self.rep@[x] != gone,
            self.meta@[x].parent != gone,
            self.meta@[x].link != gone,
    {
        self.lemma_node(x);
        let r = self.rep@[x];
        self.lemma_node(r);
        if r == gone {
            assert(self.same(x, gone));
        }
        if !(0 <= gone < self.size()) {
            return;
        }
        let list = self.ring@[r];
        let m = self.lemma_position(x);
        assert(self.root(r));
        assert(self.meta@[list[m]].link == next_in(list, m));
        let mn = if m + 1 < list.len() { m + 1 } else { 0 };
        if list[mn] == gone {
            assert(self.rep@[list[mn]] == r);
            assert(0 <= list[mn] < self.size());
            assert(self.same(x, gone));
        }
        let p = self.meta@[x].parent as int;
        self.lemma_node(p);
        if p == gone {
            assert(self.same(x, gone));
        }
    }

    /// The vector `after` is `before` with every index but `gone` renumbered by `f` (undone by
    /// `g`), and with fresh sets of their own at the indices in `fresh`.
    #[verifier::opaque]
    spec fn renumbered(
        before: &Self,
        after: &Self,
        f: spec_fn(int) -> int,
        g: spec_fn(int) -> int,
        fresh: Set<int>,
        gone: int,
    ) -> bool {
        &&& before.wf()
        &&& after.data@.len() <= usize::MAX
        &&& forall|x: int| 0 <= x < before.size() && x != gone ==> 0 <= #[trigger] f(x) < after.size()
        &&& forall|x: int| 0 <= x < before.size() && x != gone ==> #[trigger] g(f(x)) == x
        &&& forall|y: int| 0 <= y < after.size() ==> (fresh.contains(y) <==> !(0 <= #[trigger] g(y) < before.size() && g(y) != gone && f(g(y)) == y))
        &&& 0 <= gone < before.size() ==> forall|k: int| 0 <= k < before.size() && before.same(k, gone) ==> k == gone
        &&& after.meta@.len() == after.size()
        &&& after.rep@.len() == after.size()
        &&& after.level@.len() == after.size()
        &&& after.ring@.len() == after.size()
        &&& forall|x: int| 0 <= x < before.size() && x != gone ==> after.meta@[#[trigger] f(x)] == moved(before.meta@[x], f)
        &&& forall|x: int| 0 <= x < before.size() && x != gone ==> after.rep@[#[trigger] f(x)] == f(before.rep@[x])
        &&& forall|x: int| 0 <= x < before.size() && x != gone ==> after.level@[#[trigger] f(x)] == before.level@[x]
        &&& forall|x: int| 0 <= x < before.size() && x != gone ==> after.ring@[#[trigger] f(x)] == before.ring@[x].map_values(f)
        &&& forall|y: int| 0 <= y < after.size() && fresh.contains(y) ==> after.meta@[y] == Metadata::fresh(y as usize) && after.rep@[y] == y && after.level@[y] == 0 && after.ring@[y] == seq![y]
        &&& after.cap@ == before.cap@ + 1
    }

    proof fn lemma_renumber_node(
        before: &Self,
        after: &Self,
        f: spec_fn(int) -> int,
        g: spec_fn(int) -> int,
        fresh: Set<int>,
        gone: int,
        y: int,
    )
        requires
            Self::renumbered(before, after, f, g, fresh, gone),
            0 <= y < after.size(),
        ensures
            after.node(y),
    {
        reveal(PartitionVec::renumbered);
        let n = before.size();
        let na = after.size();
        assert forall|x: int| 0 <= x < n && x != gone implies before.rep@[x] != gone
            && before.meta@[x].parent != gone && before.meta@[x].link != gone by {
            before.lemma_unreferenced(gone, x);
        }
        assert forall|x: int| 0 <= x < n && x != gone implies (#[trigger] after.meta@[f(x)]).parent == f(before.meta@[x].parent as int)
            && after.meta@[f(x)].link == f(before.meta@[x].link as int) by {
            before.lemma_node(x);
            let p = before.meta@[x].parent as int;
            let l = before.meta@[x].link as int;
            assert(0 <= f(p) < na);
            assert(0 <= f(l) < na);
        }
        {
            if fresh.contains(y) {
                assert(seq![y][0] == y);
            } else {
                let x = g(y);
                assert(f(x) == y);
                before.lemma_node(x);
                let r = before.rep@[x];
                let p = before.meta@[x].parent as int;
                assert(r != gone && p != gone);
                before.lemma_node(p);
                before.lemma_node(r);
                assert(g(f(r)) == r);
                assert(g(f(p)) == p);
                if f(p) == y {
                    assert(p == x);
                }
                if f(r) == y {
                    assert(r == x);
                }
                let list = before.ring@[r];
                let m = before.lemma_position(x);
                assert(list.map_values(f)[m] == y);
                assert(after.ring@[f(r)] == list.map_values(f));
            }
        }
    }

    proof fn lemma_renumber_root(
        before: &Self,
        after: &Self,
        f: spec_fn(int) -> int,
        g: spec_fn(int) -> int,
        fresh: Set<int>,
        gone: int,
        y: int,
    )
        requires
            Self::renumbered(before, after, f, g, fresh, gone),
            0 <= y < after.size(),
            after.rep@[y] == y,
        ensures
            after.root(y),
    {
        reveal(PartitionVec::renumbered);
        let n = before.size();
        let na = after.size();
        {
            if fresh.contains(y) {
                assert(seq![y][0] == y);
                assert(ring_links(after.meta@, seq![y]));
                assert(seq![y].no_duplicates());
            } else {
                let x = g(y);
                assert(f(x) == y);
                before.lemma_node(x);
                let r = before.rep@[x];
                before.lemma_unreferenced(gone, x);
                assert(r != gone);
                before.lemma_node(r);
                assert(g(f(r)) == r);
                assert(r == x);
                assert(before.root(x));
                let list = before.ring@[x];
                let ml = list.map_values(f);
                assert forall|m: int| 0 <= m < list.len() implies #[trigger] list[m] != gone && g(f(list[m])) == list[m] by {
                    assert(before.rep@[list[m]] == x);
                    assert(0 <= list[m] < n);
                    before.lemma_node(x);
                    if list[m] == gone {
                        assert(before.same(x, gone));
                    }
                }
                lemma_map_distinct(list, f, g, gone);
                assert forall|m: int| 0 <= m < ml.len() implies 0 <= #[trigger] ml[m] < na && after.rep@[ml[m]] == y by {
                    assert(0 <= list[m] < n);
                    assert(list[m] != gone);
                    assert(before.rep@[list[m]] == x);
                }
                assert forall|m: int| 0 <= m < ml.len() implies #[trigger] after.meta@[ml[m]].link == next_in(ml, m) by {
                    assert(before.meta@[list[m]].link == next_in(list, m));
                    assert(0 <= list[m] < n);
                    assert(list[m] != gone);
                    let l = before.meta@[list[m]].link as int;
                    before.lemma_node(list[m]);
                    assert(after.meta@[f(list[m])] == moved(before.meta@[list[m]], f));
                    assert(0 <= f(l) < na);
                }
                assert(after.meta@[y] == moved(before.meta@[x], f));
            }
        }
    }

    /// Renumbering every index but `gone` by an injective `f`, and placing the records
    /// accordingly, keeps the vector well formed when `gone` (if it is an index at all) is alone
    /// in its set.
    proof fn lemma_renumber(
        before: &Self,
        after: &Self,
        f: spec_fn(int) -> int,
        g: spec_fn(int) -> int,
        fresh: Set<int>,
        gone: int,
    )
        requires
            Self::renumbered(before, after, f, g, fresh, gone),
        ensures
            after.wf(),
    {
        reveal(PartitionVec::renumbered);
        assert forall|y: int| 0 <= y < after.size() implies #[trigger] after.node(y) by {
            Self::lemma_renumber_node(before, after, f, g, fresh, gone, y);
        }
        assert forall|y: int| 0 <= y < after.size() && after.rep@[y] == y implies #[trigger] after.root(y) by {
            Self::lemma_renumber_root(before, after, f, g, fresh, gone, y);
        }
    }

    /// Appends an element to the back, in a set of its own.
    pub fn push(&mut self, elem: T)
        requires
            old(self).wf(),
            old(self).size() < usize::MAX,
        ensures
            final(self).wf(),
            final(self).values() == old(self).values().push(elem),
            forall|a: int, b: int|
                0 <= a < old(self).size() && 0 <= b < old(self).size() ==> (#[trigger] final(self).same(a, b)
                    <==> old(self).same(a, b)),
            forall|a: int|
                0 <= a < final(self).size() ==> (#[trigger] final(self).same(a, old(self).size())
                    <==> a == old(self).size()),
    {
        let ghost before = *self;
        let old_len = self.data.len();
        self.data.push(elem);
        self.meta.push(Metadata::new(old_len));
        proof {
            let n = old_len as int;
            self.rep = Ghost(before.rep@.push(n));
            self.level = Ghost(before.level@.push(0));
            self.ring = Ghost(before.ring@.push(seq![n]));
            self.cap = Ghost(before.cap@ + 1);
            let f = |x: int| x;
            assert forall|x: int| 0 <= x < n && x != -1 implies self.meta@[#[trigger] f(x)] == moved(before.meta@[x], f) by {
                before.lemma_node(x);
            }
            assert forall|x: int| 0 <= x < n && x != -1 implies self.ring@[#[trigger] f(x)] == before.ring@[x].map_values(f) by {
                assert(before.ring@[x].map_values(f) =~= before.ring@[x]);
            }
            reveal(PartitionVec::renumbered);
            Self::lemma_renumber(&before, self, f, f, set![n], -1);
            assert forall|a: int| 0 <= a < self.size() implies (self.same(a, n) <==> a == n) by {
                if a < n {
                    before.lemma_node(a);
                }
            }
        }
    }

    /// Removes the last element and returns it, or `None` if there is none.
    pub fn pop(&mut self) -> (r: Option<T>)
        requires
            old(self).wf(),
        ensures
            final(self).wf(),
            old(self).size() == 0 ==> r is None && final(self).values() == old(self).values(),
            old(self).size() > 0 ==> r == Some(old(self).values().last()) && final(self).values()
                == old(self).values().drop_last(),
            forall|a: int, b: int|
                0 <= a < final(self).size() && 0 <= b < final(self).size() ==> (#[trigger] final(self).same(a, b)
                    <==> old(self).same(a, b)),
    {
        let len = self.data.len();
        if len == 0 {
            return None;
        }
        let last_index = len - 1;
        let ghost before = *self;
        self.make_singleton(last_index);
        let ghost middle = *self;
        self.meta.pop();
        let value = self.data.pop();
        proof {
            let n = last_index as int;
            self.rep = Ghost(middle.rep@.drop_last());
            self.level = Ghost(middle.level@.drop_last());
            self.ring = Ghost(middle.ring@.drop_last());
            self.cap = Ghost(middle.cap@ + 1);
            let f = |x: int| x;
            assert forall|k: int| 0 <= k < middle.size() && middle.same(k, n) implies k == n by {}
            assert forall|x: int| 0 <= x < middle.size() && x != n implies self.meta@[#[trigger] f(x)] == moved(middle.meta@[x], f) by {
                middle.lemma_node(x);
            }
            assert forall|x: int| 0 <= x < middle.size() && x != n implies self.ring@[#[trigger] f(x)] == middle.ring@[x].map_values(f) by {
                assert(middle.ring@[x].map_values(f) =~= middle.ring@[x]);
            }
            assert forall|x: int| 0 <= x < middle.size() && x != n implies 0 <= #[trigger] f(x) < self.size() by {}
            reveal(PartitionVec::renumbered);
            Self::lemma_renumber(&middle, self, f, f, Set::empty(), n);
            assert(middle.singled_out(&before, n));
            assert forall|a: int, b: int| 0 <= a < self.size() && 0 <= b < self.size() implies (self.same(a, b)
                <==> before.same(a, b)) by {
                assert(middle.same(a, b) == self.same(a, b));
            }
        }
        value
    }

    /// Inserts an element at `index`, in a set of its own, shifting the elements after it one
    /// place to the right. The sets of the other elements are kept.
    #[verifier::rlimit(100)]
    pub fn insert(&mut self, index: usize, elem: T)
        requires
            old(self).wf(),
            index <= old(self).size(),
            old(self).size() < usize::MAX,
        ensures
            final(self).wf(),
            final(self).values() == old(self).values().insert(index as int, elem),
            final(self).inserted(old(self), index as int),
    {
        let ghost before = *self;
        let ghost f = |x: int| shift_up(index as int, x);
        let len = self.meta.len();
        let mut i: usize = 0;
        while i < len
            invariant
                before.wf(),
                len == before.size() < usize::MAX,
                index <= len,
                self.data@ == before.data@,
                self.meta@.len() == len,
                f == (|x: int| shift_up(index as int, x)),
                i <= len,
                forall|x: int| 0 <= x < i ==> #[trigger] self.meta@[x] == moved(before.meta@[x], f),
                forall|x: int| i <= x < len ==> #[trigger] self.meta@[x] == before.meta@[x],
            decreases len - i,
        {
            proof {
                before.lemma_node(i as int);
            }
            let mut meta = self.meta[i];
            let parent = meta.parent();
            if parent >= index {
                meta.set_parent(parent + 1);
            }
            let link = meta.link();
            if link >= index {
                meta.set_link(link + 1);
            }
            self.meta.set(i, meta);
            i = i + 1;
        }
        let ghost shifted = self.meta@;
        self.data.insert(index, elem);
        self.meta.insert(index, Metadata::new(index));
        proof {
            let at = index as int;
            let n = len as int;
            let g = |y: int| shift_down(at, y);
            self.rep = Ghost(before.rep@.map_values(f).insert(at, at));
            self.level = Ghost(before.level@.insert(at, 0));
            self.ring = Ghost(before.ring@.map_values(|list: Seq<int>| list.map_values(f)).insert(at, seq![at]));
            self.cap = Ghost(before.cap@ + 1);
            assert forall|x: int| 0 <= x < n && x != -1 implies self.meta@[#[trigger] f(x)] == moved(before.meta@[x], f) by {
                assert(shifted[x] == moved(before.meta@[x], f));
            }
            assert forall|x: int| 0 <= x < n && x != -1 implies self.rep@[#[trigger] f(x)] == f(before.rep@[x]) by {}
            assert forall|x: int| 0 <= x < n && x != -1 implies self.level@[#[trigger] f(x)] == before.level@[x] by {}
            assert forall|x: int| 0 <= x < n && x != -1 implies self.ring@[#[trigger] f(x)] == before.ring@[x].map_values(f) by {}
            reveal(PartitionVec::renumbered);
            Self::lemma_renumber(&before, self, f, g, set![at], -1);
            assert forall|a: int, b: int| 0 <= a < n && 0 <= b < n implies (self.same(f(a), f(b)) <==> before.same(a, b)) by {
                before.lemma_node(a);
                before.lemma_node(b);
            }
            assert forall|a: int| 0 <= a < self.size() implies (self.same(a, at) <==> a == at) by {
                if a != at {
                    before.lemma_node(g(a));
                    assert(f(g(a)) == a);
                }
            }
        }
    }

    /// The vector after `remove` is well formed.
    #[verifier::rlimit(100)]
    proof fn lemma_removed_wf(before: &Self, middle: &Self, after: &Self, at: int, removed: Seq<Metadata>)
        requires
            middle.wf(),
            0 <= at < middle.size(),
            middle.singled_out(before, at),
            before.size() == middle.size(),
            after.data@ == middle.data@.remove(at),
            removed == middle.meta@.remove(at),
            after.meta@.len() == removed.len(),
            forall|y: int| 0 <= y < removed.len() ==> #[trigger] after.meta@[y] == moved(removed[y], |x: int| shift_down(at, x)),
            after.rep@ == middle.rep@.remove(at).map_values(|x: int| shift_down(at, x)),
            after.level@ == middle.level@.remove(at),
            after.ring@ == middle.ring@.remove(at).map_values(|list: Seq<int>| list.map_values(|x: int| shift_down(at, x))),
            after.cap@ == middle.cap@ + 1,
        ensures
            after.wf(),
    {
        let f = |x: int| shift_down(at, x);
        let n = middle.size();
        let g = |y: int| shift_up(at, y);
        assert forall|k: int| 0 <= k < n && middle.same(k, at) implies k == at by {}
        assert forall|x: int| 0 <= x < n && x != at implies after.meta@[#[trigger] f(x)] == moved(middle.meta@[x], f) by {
            assert(removed[f(x)] == middle.meta@[x]);
        }
        assert forall|x: int| 0 <= x < n && x != at implies after.rep@[#[trigger] f(x)] == f(middle.rep@[x]) by {}
        assert forall|x: int| 0 <= x < n && x != at implies after.level@[#[trigger] f(x)] == middle.level@[x] by {}
        assert forall|x: int| 0 <= x < n && x != at implies after.ring@[#[trigger] f(x)] == middle.ring@[x].map_values(f) by {}
        assert forall|x: int| 0 <= x < n && x != at implies 0 <= #[trigger] f(x) < after.size() && g(f(x)) == x by {}
        reveal(PartitionVec::renumbered);
        Self::lemma_renumber(middle, after, f, g, Set::empty(), at);
    }

    /// The vector after `remove` keeps the sets of the remaining elements.
    proof fn lemma_removed_sets(before: &Self, middle: &Self, after: &Self, at: int, removed: Seq<Metadata>)
        requires
            middle.wf(),
            0 <= at < middle.size(),
            middle.singled_out(before, at),
            before.size() == middle.size(),
            after.data@ == middle.data@.remove(at),
            removed == middle.meta@.remove(at),
            after.meta@.len() == removed.len(),
            forall|y: int| 0 <= y < removed.len() ==> #[trigger] after.meta@[y] == moved(removed[y], |x: int| shift_down(at, x)),
            after.rep@ == middle.rep@.remove(at).map_values(|x: int| shift_down(at, x)),
            after.level@ == middle.level@.remove(at),
            after.ring@ == middle.ring@.remove(at).map_values(|list: Seq<int>| list.map_values(|x: int| shift_down(at, x))),
            after.cap@ == middle.cap@ + 1,
        ensures
            after.removed(before, at),
    {
        let f = |x: int| shift_down(at, x);
        let n = middle.size();
        let g = |y: int| shift_up(at, y);
        assert forall|k: int| 0 <= k < n && middle.same(k, at) implies k == at by {}
        assert forall|a: int, b: int| 0 <= a < after.size() && 0 <= b < after.size() implies (after.same(a, b)
            <==> before.same(g(a), g(b))) by {
            assert(f(g(a)) == a && f(g(b)) == b);
            middle.lemma_unreferenced(at, g(a));
            middle.lemma_unreferenced(at, g(b));
            middle.lemma_node(g(a));
            middle.lemma_node(g(b));
            assert(middle.same(g(a), g(b)) == before.same(g(a), g(b)));
        }
    }

    /// The last step of `remove`: once `at` is alone, dropping its record and moving every
    /// index above it down by one keeps the vector well formed and the other sets as they were.
    proof fn lemma_removed(before: &Self, middle: &Self, after: &Self, at: int, removed: Seq<Metadata>)
        requires
            middle.wf(),
            0 <= at < middle.size(),
            middle.singled_out(before, at),
            before.size() == middle.size(),
            after.data@ == middle.data@.remove(at),
            removed == middle.meta@.remove(at),
            after.meta@.len() == removed.len(),
            forall|y: int| 0 <= y < removed.len() ==> #[trigger] after.meta@[y] == moved(removed[y], |x: int| shift_down(at, x)),
            after.rep@ == middle.rep@.remove(at).map_values(|x: int| shift_down(at, x)),
            after.level@ == middle.level@.remove(at),
            after.ring@ == middle.ring@.remove(at).map_values(|list: Seq<int>| list.map_values(|x: int| shift_down(at, x))),
            after.cap@ == middle.cap@ + 1,
        ensures
            after.wf(),
            after.removed(before, at),
    {
        Self::lemma_removed_wf(before, middle, after, at, removed);
        Self::lemma_removed_sets(before, middle, after, at, removed);
    }

    /// Removes and returns the element at `index`, shifting the elements after it one place to
    /// the left. The other members of its set stay together.
    pub fn remove(&mut self, index: usize) -> (r: T)
        requires
            old(self).wf(),
            index < old(self).size(),
        ensures
            final(self).wf(),
            r == old(self).values()[index as int],
            final(self).values() == old(self).values().remove(index as int),
            final(self).removed(old(self), index as int),
    {
        let ghost before = *self;
        self.make_singleton(index);
        let ghost middle = *self;
        self.meta.remove(index);
        let ghost removed = self.meta@;
        let ghost f = |x: int| shift_down(index as int, x);
        let len = self.meta.len();
        let mut i: usize = 0;
        while i < len
            invariant
                middle.wf(),
                len + 1 == middle.size(),
                index <= len,
                self.data@ == middle.data@,
                removed == middle.meta@.remove(index as int),
                self.meta@.len() == len,
                f == (|x: int| shift_down(index as int, x)),
                i <= len,
                forall|y: int| 0 <= y < i ==> #[trigger] self.meta@[y] == moved(removed[y], f),
                forall|y: int| i <= y < len ==> #[trigger] self.meta@[y] == removed[y],
            decreases len - i,
        {
            let mut meta = self.meta[i];
            let parent = meta.parent();
            if parent > index {
                meta.set_parent(parent - 1);
            }
            let link = meta.link();
            if link > index {
                meta.set_link(link - 1);
            }
            self.meta.set(i, meta);
            i = i + 1;
        }
        let value = self.data.remove(index);
        proof {
            let at = index as int;
            self.rep = Ghost(middle.rep@.remove(at).map_values(|x: int| shift_down(at, x)));
            self.level = Ghost(middle.level@.remove(at));
            self.ring = Ghost(
                middle.ring@.remove(at).map_values(
                    |list: Seq<int>| list.map_values(|x: int| shift_down(at, x)),
                ),
            );
            self.cap = Ghost(middle.cap@ + 1);
            Self::lemma_removed(&before, &middle, self, index as int, removed);
        }
        value
    }

    /// Returns the number of sets.
    ///
    /// Takes `&mut self` because finding the root of each element compresses paths.
    #[verifier::rlimit(50)]
    pub fn amount_of_sets(&mut self) -> (r: usize)
        requires
            old(self).wf(),
        ensures
            final(self).wf(),
            final(self).unchanged_from(old(self)),
            r == old(self).reps().len(),
    {
        let ghost before = *self;
        let len = self.data.len();
        let mut done = bits_from_elem(len, false);
        let mut count: usize = 0;
        let mut i: usize = 0;
        proof {
            assert(Set::new(|x: int| exists|k: int| 0 <= k < i && #[trigger] self.rep@[k] == x) =~= Set::empty());
        }
        while i < len
            invariant
                self.wf(),
                self.unchanged_from(&before),
                self.rep@ == before.rep@,
                len == self.size(),
                i <= len,
                bits_of(done).len() == len,
                forall|x: int| 0 <= x < len ==> (bits_of(done)[x] <==> exists|k: int| 0 <= k < i && #[trigger] self.rep@[k] == x),
                count == Set::new(|x: int| exists|k: int| 0 <= k < i && #[trigger] self.rep@[k] == x).len(),
                Set::new(|x: int| exists|k: int| 0 <= k < i && #[trigger] self.rep@[k] == x).finite(),
                count <= i,
            decreases len - i,
        {
            let ghost seen = Set::new(|x: int| exists|k: int| 0 <= k < i && #[trigger] self.rep@[k] == x);
            let ghost seen_next = Set::new(|x: int| exists|k: int| 0 <= k < i + 1 && #[trigger] self.rep@[k] == x);
            let root = self.find(i);
            proof {
                self.lemma_node(i as int);
                assert(seen_next =~= seen.insert(root as int)) by {
                    assert forall|x: int| seen_next.contains(x) implies seen.insert(root as int).contains(x) by {
                        let k = choose|k: int| 0 <= k < i + 1 && #[trigger] self.rep@[k] == x;
                        if k < i {
                            assert(seen.contains(x));
                        }
                    }
                    assert forall|x: int| seen.insert(root as int).contains(x) implies seen_next.contains(x) by {
                        if x == root as int {
                            assert(self.rep@[i as int] == x);
                        } else {
                            let k = choose|k: int| 0 <= k < i && #[trigger] self.rep@[k] == x;
                            assert(self.rep@[k] == x);
                        }
                    }
                }
            }
            match bits_get(&done, root) {
                Some(false) => {
                    bits_set(&mut done, root, true);
                    count = count + 1;
                    proof {
                        assert(!seen.contains(root as int));
                    }
                },
                _ => {
                    proof {
                        assert(seen.contains(root as int));
                    }
                },
            }
            proof {
                assert forall|x: int| 0 <= x < len implies (bits_of(done)[x] <==> exists|k: int| 0 <= k < i + 1 && #[trigger] self.rep@[k] == x) by {
                    assert(seen_next.contains(x) == exists|k: int| 0 <= k < i + 1 && #[trigger] self.rep@[k] == x);
                    assert(seen.contains(x) == exists|k: int| 0 <= k < i && #[trigger] self.rep@[k] == x);
                }
            }
            i = i + 1;
        }
        proof {
            let seen = Set::new(|x: int| exists|k: int| 0 <= k < i && #[trigger] self.rep@[k] == x);
            assert forall|x: int| before.reps().contains(x) <==> seen.contains(x) by {
                if before.reps().contains(x) {
                    let k = choose|k: int| 0 <= k < before.size() && before.rep_of(k) == x;
                    assert(self.rep@[k] == x);
                }
                if seen.contains(x) {
                    let k = choose|k: int| 0 <= k < i && #[trigger] self.rep@[k] == x;
                    assert(before.rep_of(k) == x);
                }
            }
            assert(before.reps() =~= seen);
        }
        count
    }

    /// A vector whose records are all fresh is well formed, with every element alone.
    proof fn lemma_all_alone(v: &Self)
        requires
            v.data@.len() <= usize::MAX,
            v.meta@.len() == v.size(),
            forall|i: int| 0 <= i < v.size() ==> #[trigger] v.meta@[i] == Metadata::fresh(i as usize),
            v.rep@ == Seq::new(v.size() as nat, |i: int| i),
            v.level@ == Seq::new(v.size() as nat, |i: int| 0nat),
            v.ring@ == Seq::new(v.size() as nat, |i: int| seq![i]),
            v.cap@ == 1,
        ensures
            v.wf(),
            v.all_singletons(),
    {
        assert forall|i: int| 0 <= i < v.size() implies #[trigger] v.node(i) by {
            assert(seq![i][0] == i);
        }
        assert forall|r: int| 0 <= r < v.size() && v.rep@[r] == r implies #[trigger] v.root(r) by {
            assert(seq![r][0] == r);
            assert(ring_links(v.meta@, seq![r]));
        }
    }

    /// Fresh records for the indices `0..len`.
    fn fresh_records(len: usize) -> (r: Vec<Metadata>)
        ensures
            r@.len() == len,
            forall|i: int| 0 <= i < len ==> #[trigger] r@[i] == Metadata::fresh(i as usize),
    {
        let mut meta: Vec<Metadata> = Vec::with_capacity(len);
        let mut i: usize = 0;
        while i < len
            invariant
                i <= len,
                meta@.len() == i,
                forall|k: int| 0 <= k < i ==> #[trigger] meta@[k] == Metadata::fresh(k as usize),
            decreases len - i,
        {
            meta.push(Metadata::new(i));
            i = i + 1;
        }
        meta
    }

    /// Makes a vector of the given values, each in a set of its own.
    pub fn from_vec(vec: Vec<T>) -> (r: Self)
        ensures
            r.wf(),
            r.values() == vec@,
            r.all_singletons(),
    {
        let len = vec.len();
        let r = PartitionVec {
            data: vec,
            meta: Self::fresh_records(len),
            rep: Ghost(Seq::new(len as nat, |i: int| i)),
            level: Ghost(Seq::new(len as nat, |i: int| 0nat)),
            cap: Ghost(1),
            ring: Ghost(Seq::new(len as nat, |i: int| seq![i])),
        };
        proof {
            Self::lemma_all_alone(&r);
        }
        r
    }

    /// Makes a vector of `len` clones of `elem`, each in a set of its own.
    pub fn from_elem(elem: T, len: usize) -> (r: Self) where T: Clone
        ensures
            r.wf(),
            r.size() == len,
            forall|i: int| 0 <= i < len ==> cloned(elem, #[trigger] r.values()[i]),
            r.all_singletons(),
    {
        Self::from_vec(vec![elem; len])
    }

    /// Removes every element.
    pub fn clear(&mut self)
        ensures
            final(self).wf(),
            final(self).values() == Seq::<T>::empty(),
    {
        self.data.clear();
        self.meta.clear();
        self.rep = Ghost(Seq::empty());
        self.level = Ghost(Seq::empty());
        self.cap = Ghost(0);
        self.ring = Ghost(Seq::empty());
    }

    /// Makes the length `new_len`: shorter as `truncate` does, or longer with clones of `value`,
    /// each in a set of its own.
    #[verifier::rlimit(50)]
    pub fn resize(&mut self, new_len: usize, value: T) where T: Clone
        requires
            old(self).wf(),
        ensures
            final(self).wf(),
            final(self).size() == new_len,
            new_len <= old(self).size() ==> final(self).values() == old(self).values().subrange(0, new_len as int),
            new_len > old(self).size() ==> final(self).values().subrange(0, old(self).size()) == old(self).values(),
            forall|i: int| old(self).size() <= i < new_len ==> cloned(value, #[trigger] final(self).values()[i]),
            forall|a: int, b: int|
                0 <= a < new_len && 0 <= b < new_len ==> (#[trigger] final(self).same(a, b) <==> (a == b || (
                a < old(self).size() && b < old(self).size() && old(self).same(a, b)))),
    {
        let len = self.data.len();
        if new_len < len {
            self.truncate(new_len);
            return;
        }
        if new_len == len {
            return;
        }
        let ghost before = *self;
        self.data.resize(new_len, value);
        let mut i: usize = len;
        while i < new_len
            invariant
                len <= i <= new_len,
                self.meta@.len() == i,
                self.data@.len() == new_len,
                self.data@.subrange(0, len as int) == before.data@,
                forall|k: int| len <= k < new_len ==> cloned(value, #[trigger] self.data@[k]),
                forall|k: int| 0 <= k < len ==> #[trigger] self.meta@[k] == before.meta@[k],
                forall|k: int| len <= k < i ==> #[trigger] self.meta@[k] == Metadata::fresh(k as usize),
                before.wf(),
                len == before.size(),
            decreases new_len - i,
        {
            self.meta.push(Metadata::new(i));
            i = i + 1;
        }
        proof {
            let n = len as int;
            let m = new_len as int;
            let fresh = Set::new(|y: int| n <= y < m);
            self.rep = Ghost(before.rep@ + Seq::new((m - n) as nat, |k: int| n + k));
            self.level = Ghost(before.level@ + Seq::new((m - n) as nat, |k: int| 0nat));
            self.ring = Ghost(before.ring@ + Seq::new((m - n) as nat, |k: int| seq![n + k]));
            self.cap = Ghost(before.cap@ + 1);
            let f = |x: int| x;
            assert forall|x: int| 0 <= x < n && x != -1 implies self.meta@[#[trigger] f(x)] == moved(before.meta@[x], f) by {
                before.lemma_node(x);
            }
            assert forall|x: int| 0 <= x < n && x != -1 implies self.ring@[#[trigger] f(x)] == before.ring@[x].map_values(f) by {
                assert(before.ring@[x].map_values(f) =~= before.ring@[x]);
            }
            assert forall|y: int| 0 <= y < m && fresh.contains(y) implies self.meta@[y] == Metadata::fresh(y as usize)
                && self.rep@[y] == y && self.level@[y] == 0 && self.ring@[y] == seq![y] by {}
            reveal(PartitionVec::renumbered);
            Self::lemma_renumber(&before, self, f, f, fresh, -1);
            assert forall|a: int, b: int| 0 <= a < m && 0 <= b < m implies (#[trigger] self.same(a, b) <==> (a == b || (
                a < n && b < n && before.same(a, b)))) by {
                if a < n {
                    before.lemma_node(a);
                }
                if b < n {
                    before.lemma_node(b);
                }
            }
        }
    }

    /// Appends the given values to the back, each in a set of its own.
    #[verifier::rlimit(50)]
    pub fn extend(&mut self, values: Vec<T>)
        requires
            old(self).wf(),
            old(self).size() + values@.len() <= usize::MAX,
        ensures
            final(self).wf(),
            final(self).values() == old(self).values() + values@,
            forall|a: int, b: int|
                0 <= a < final(self).size() && 0 <= b < final(self).size() ==> (#[trigger] final(self).same(a, b)
                    <==> (a == b || (a < old(self).size() && b < old(self).size() && old(self).same(a, b)))),
    {
        let len = self.data.len();
        let ghost before = *self;
        let mut values = values;
        let ghost added = values@;
        self.data.append(&mut values);
        let new_len = self.data.len();
        let mut i: usize = len;
        while i < new_len
            invariant
                len <= i <= new_len,
                self.meta@.len() == i,
                self.data@.len() == new_len,
                self.data@ == before.data@ + added,
                forall|k: int| 0 <= k < len ==> #[trigger] self.meta@[k] == before.meta@[k],
                forall|k: int| len <= k < i ==> #[trigger] self.meta@[k] == Metadata::fresh(k as usize),
                before.wf(),
                len == before.size(),
            decreases new_len - i,
        {
            self.meta.push(Metadata::new(i));
            i = i + 1;
        }
        proof {
            let n = len as int;
            let m = new_len as int;
            let fresh = Set::new(|y: int| n <= y < m);
            self.rep = Ghost(before.rep@ + Seq::new((m - n) as nat, |k: int| n + k));
            self.level = Ghost(before.level@ + Seq::new((m - n) as nat, |k: int| 0nat));
            self.ring = Ghost(before.ring@ + Seq::new((m - n) as nat, |k: int| seq![n + k]));
            self.cap = Ghost(before.cap@ + 1);
            let f = |x: int| x;
            assert forall|x: int| 0 <= x < n && x != -1 implies self.meta@[#[trigger] f(x)] == moved(before.meta@[x], f) by {
                before.lemma_node(x);
            }
            assert forall|x: int| 0 <= x < n && x != -1 implies self.ring@[#[trigger] f(x)] == before.ring@[x].map_values(f) by {
                assert(before.ring@[x].map_values(f) =~= before.ring@[x]);
            }
            assert forall|y: int| 0 <= y < m && fresh.contains(y) implies self.meta@[y] == Metadata::fresh(y as usize)
                && self.rep@[y] == y && self.level@[y] == 0 && self.ring@[y] == seq![y] by {}
            reveal(PartitionVec::renumbered);
            Self::lemma_renumber(&before, self, f, f, fresh, -1);
            assert forall|a: int, b: int| 0 <= a < m && 0 <= b < m implies (#[trigger] self.same(a, b) <==> (a == b || (
                a < n && b < n && before.same(a, b)))) by {
                if a < n {
                    before.lemma_node(a);
                }
                if b < n {
                    before.lemma_node(b);
                }
            }
        }
    }

    /// `after` holds the elements of `a` followed by those of `b`, whose indices are moved up by
    /// the length of `a`.
    #[verifier::opaque]
    spec fn concatenated(a: &Self, b: &Self, after: &Self) -> bool {
        let n = a.size();
        let f = |x: int| x + n;
        &&& a.wf()
        &&& b.wf()
        &&& after.data@.len() <= usize::MAX
        &&& after.size() == a.size() + b.size()
        &&& after.meta@ == a.meta@ + b.meta@.map_values(|m: Metadata| moved(m, f))
        &&& after.rep@ == a.rep@ + b.rep@.map_values(f)
        &&& after.level@ == a.level@ + b.level@
        &&& after.ring@ == a.ring@ + b.ring@.map_values(|list: Seq<int>| list.map_values(f))
        &&& after.cap@ == a.cap@ + b.cap@
    }

    proof fn lemma_concatenated_node(a: &Self, b: &Self, after: &Self, y: int)
        requires
            Self::concatenated(a, b, after),
            0 <= y < after.size(),
        ensures
            after.node(y),
    {
        reveal(PartitionVec::concatenated);
        let n = a.size();
        let f = |x: int| x + n;
        if y < n {
            a.lemma_node(y);
            let p = a.meta@[y].parent as int;
            a.lemma_node(p);
            a.lemma_node(a.rep@[y]);
        } else {
            let x = y - n;
            b.lemma_node(x);
            let p = b.meta@[x].parent as int;
            b.lemma_node(p);
            let r = b.rep@[x];
            b.lemma_node(r);
            assert(after.meta@[y] == moved(b.meta@[x], f));
            let m = b.lemma_position(x);
            assert(b.ring@[r].map_values(f)[m] == y);
            assert(after.ring@[r + n] == b.ring@[r].map_values(f));
        }
    }

    proof fn lemma_concatenated_root(a: &Self, b: &Self, after: &Self, y: int)
        requires
            Self::concatenated(a, b, after),
            0 <= y < after.size(),
            after.rep@[y] == y,
        ensures
            after.root(y),
    {
        reveal(PartitionVec::concatenated);
        let n = a.size();
        let na = after.size();
        let f = |x: int| x + n;
        if y < n {
            assert(a.root(y));
            let list = a.ring@[y];
            assert forall|m: int| 0 <= m < list.len() implies #[trigger] after.meta@[list[m]].link
                == next_in(list, m) by {
                assert(0 <= list[m] < n);
                assert(a.meta@[list[m]].link == next_in(list, m));
            }
            assert forall|m: int| 0 <= m < list.len() implies after.rep@[#[trigger] list[m]] == y by {
                assert(0 <= list[m] < n);
            }
        } else {
            let x = y - n;
            assert(b.root(x));
            let list = b.ring@[x];
            let ml = list.map_values(f);
            assert(after.ring@[y] == ml);
            lemma_map_distinct(list, f, |z: int| z - n, -1);
            assert forall|m: int| 0 <= m < ml.len() implies 0 <= #[trigger] ml[m] < na && after.rep@[ml[m]] == y by {
                assert(0 <= list[m] < b.size());
                assert(b.rep@[list[m]] == x);
            }
            assert forall|m: int| 0 <= m < ml.len() implies #[trigger] after.meta@[ml[m]].link == next_in(ml, m) by {
                assert(0 <= list[m] < b.size());
                assert(b.meta@[list[m]].link == next_in(list, m));
                assert(after.meta@[ml[m]] == moved(b.meta@[list[m]], f));
                b.lemma_node(list[m]);
            }
            assert(after.meta@[y] == moved(b.meta@[x], f));
        }
    }

    /// Moves all the elements of `other` to the back of `self`, leaving `other` empty. The sets
    /// of both are kept, and no set holds elements of both.
    #[verifier::rlimit(50)]
    pub fn append(&mut self, other: &mut Self)
        requires
            old(self).wf(),
            old(other).wf(),
            old(self).size() + old(other).size() <= usize::MAX,
        ensures
            final(self).wf(),
            final(other).wf(),
            final(self).values() == old(self).values() + old(other).values(),
            final(other).values() == Seq::<T>::empty(),
            forall|a: int, b: int|
                0 <= a < final(self).size() && 0 <= b < final(self).size() ==> (#[trigger] final(self).same(a, b)
                    <==> ((a < old(self).size() && b < old(self).size() && old(self).same(a, b)) || (
                    a >= old(self).size() && b >= old(self).size() && old(other).same(
                        a - old(self).size(),
                        b - old(self).size(),
                    )))),
    {
        let ghost a = *self;
        let ghost b = *other;
        let old_len = self.data.len();
        self.data.append(&mut other.data);
        let len = other.meta.len();
        let mut i: usize = 0;
        while i < len
            invariant
                a.wf(),
                b.wf(),
                old_len == a.size(),
                len == b.size(),
                old_len + len <= usize::MAX,
                i <= len,
                self.meta@.len() == old_len + i,
                other.meta@ == b.meta@,
                self.data@ == a.data@ + b.data@,
                other.data@ == Seq::<T>::empty(),
                forall|k: int| 0 <= k < old_len ==> #[trigger] self.meta@[k] == a.meta@[k],
                forall|k: int| 0 <= k < i ==> #[trigger] self.meta@[old_len + k] == moved(b.meta@[k], |x: int| x + old_len),
            decreases len - i,
        {
            proof {
                b.lemma_node(i as int);
            }
            let mut meta = other.meta[i];
            let parent = meta.parent();
            meta.set_parent(parent + old_len);
            let link = meta.link();
            meta.set_link(link + old_len);
            self.meta.push(meta);
            i = i + 1;
        }
        other.meta.clear();
        proof {
            let n = old_len as int;
            let f = |x: int| x + n;
            self.rep = Ghost(a.rep@ + b.rep@.map_values(f));
            self.level = Ghost(a.level@ + b.level@);
            self.ring = Ghost(a.ring@ + b.ring@.map_values(|list: Seq<int>| list.map_values(f)));
            self.cap = Ghost(a.cap@ + b.cap@);
            other.rep = Ghost(Seq::empty());
            other.level = Ghost(Seq::empty());
            other.ring = Ghost(Seq::empty());
            other.cap = Ghost(0);
            assert(self.meta@ =~= a.meta@ + b.meta@.map_values(|m: Metadata| moved(m, f))) by {
                assert forall|k: int| n <= k < self.meta@.len() implies self.meta@[k] == moved(b.meta@[k - n], f) by {
                    assert(self.meta@[n + (k - n)] == moved(b.meta@[k - n], f));
                }
            }
            reveal(PartitionVec::concatenated);
            assert(Self::concatenated(&a, &b, self));
            assert forall|y: int| 0 <= y < self.size() implies #[trigger] self.node(y) by {
                Self::lemma_concatenated_node(&a, &b, self, y);
            }
            assert forall|y: int| 0 <= y < self.size() && self.rep@[y] == y implies #[trigger] self.root(y) by {
                Self::lemma_concatenated_root(&a, &b, self, y);
            }
            assert forall|x: int, y: int| 0 <= x < self.size() && 0 <= y < self.size() implies (#[trigger] self.same(x, y)
                <==> ((x < n && y < n && a.same(x, y)) || (x >= n && y >= n && b.same(x - n, y - n)))) by {
                if x < n {
                    a.lemma_node(x);
                } else {
                    b.lemma_node(x - n);
                }
                if y < n {
                    a.lemma_node(y);
                } else {
                    b.lemma_node(y - n);
                }
            }
        }
    }

    /// Returns `true` if `other` has the same length and divides its indices into the same sets:
    /// a bijection takes the roots of one to the roots of the other. The values are not compared.
    #[verifier::rlimit(50)]
    pub fn same_partition_as(&self, other: &Self) -> (r: bool)
        requires
            self.wf(),
            other.wf(),
        ensures
            r == self.same_partition(other),
    {
        let len = self.data.len();
        if len != other.data.len() {
            return false;
        }
        // The root of `other` met for each root of `self`, and the other way round.
        let mut forward: Vec<Option<usize>> = Vec::new();
        let mut backward: Vec<Option<usize>> = Vec::new();
        let mut k: usize = 0;
        while k < len
            invariant
                k <= len,
                forward@.len() == k,
                backward@.len() == k,
                forall|x: int| 0 <= x < k ==> #[trigger] forward@[x] is None,
                forall|x: int| 0 <= x < k ==> #[trigger] backward@[x] is None,
            decreases len - k,
        {
            forward.push(None);
            backward.push(None);
            k = k + 1;
        }
        let mut i: usize = 0;
        while i < len
            invariant
                self.wf(),
                other.wf(),
                len == self.size() == other.size(),
                i <= len,
                forward@.len() == len,
                backward@.len() == len,
                forall|x: int|
                    0 <= x < len ==> (#[trigger] forward@[x] is Some <==> exists|k: int|
                        0 <= k < i && self.rep@[k] == x),
                forall|y: int|
                    0 <= y < len ==> (#[trigger] backward@[y] is Some <==> exists|k: int|
                        0 <= k < i && other.rep@[k] == y),
                forall|k: int|
                    0 <= k < i ==> forward@[self.rep@[k]] == Some(other.rep@[k] as usize)
                        && backward@[other.rep@[k]] == Some(self.rep@[k] as usize),
                forall|a: int, b: int|
                    0 <= a < i && 0 <= b < i ==> (#[trigger] self.same(a, b) <==> other.same(a, b)),
            decreases len - i,
        {
            let mine = self.find_final(i);
            let theirs = other.find_final(i);
            proof {
                self.lemma_node(i as int);
                other.lemma_node(i as int);
            }
            match (forward[mine], backward[theirs]) {
                (None, None) => {
                    forward.set(mine, Some(theirs));
                    backward.set(theirs, Some(mine));
                    proof {
                        assert forall|k: int| 0 <= k < i implies self.rep@[k] != mine && other.rep@[k]
                            != theirs by {
                            self.lemma_node(k);
                            other.lemma_node(k);
                        }
                        assert forall|k: int| 0 <= k < i + 1 implies forward@[self.rep@[k]] == Some(
                            other.rep@[k] as usize,
                        ) && backward@[other.rep@[k]] == Some(self.rep@[k] as usize) by {
                            if k < i {
                                self.lemma_node(k);
                                other.lemma_node(k);
                            }
                        }
                        assert forall|a: int, b: int|
                            0 <= a < i + 1 && 0 <= b < i + 1 implies (#[trigger] self.same(a, b) <==> other.same(a, b)) by {
                            if a < i {
                                self.lemma_node(a);
                                other.lemma_node(a);
                            }
                            if b < i {
                                self.lemma_node(b);
                                other.lemma_node(b);
                            }
                        }
                        assert forall|x: int|
                            0 <= x < len implies (#[trigger] forward@[x] is Some <==> exists|k: int|
                                0 <= k < i + 1 && self.rep@[k] == x) by {
                            if x == mine {
                                assert(self.rep@[i as int] == x);
                            }
                        }
                        assert forall|y: int|
                            0 <= y < len implies (#[trigger] backward@[y] is Some <==> exists|k: int|
                                0 <= k < i + 1 && other.rep@[k] == y) by {
                            if y == theirs {
                                assert(other.rep@[i as int] == y);
                            }
                        }
                    }
                },
                (Some(x), Some(y)) => {
                    if x != theirs || y != mine {
                        proof {
                            let k = choose|k: int| 0 <= k < i && self.rep@[k] == mine;
                            assert(self.same(k, i as int));
                        }
                        return false;
                    }
                    proof {
                        assert forall|k: int| 0 <= k < i + 1 implies forward@[self.rep@[k]] == Some(
                            other.rep@[k] as usize,
                        ) && backward@[other.rep@[k]] == Some(self.rep@[k] as usize) by {}
                        assert forall|a: int, b: int|
                            0 <= a < i + 1 && 0 <= b < i + 1 implies (#[trigger] self.same(a, b) <==> other.same(a, b)) by {
                            if a < i {
                                assert(forward@[self.rep@[a]] == Some(other.rep@[a] as usize));
                                assert(backward@[other.rep@[a]] == Some(self.rep@[a] as usize));
                                self.lemma_node(a);
                                other.lemma_node(a);
                            }
                            if b < i {
                                assert(forward@[self.rep@[b]] == Some(other.rep@[b] as usize));
                                assert(backward@[other.rep@[b]] == Some(self.rep@[b] as usize));
                                self.lemma_node(b);
                                other.lemma_node(b);
                            }
                        }
                        assert forall|x: int|
                            0 <= x < len implies (#[trigger] forward@[x] is Some <==> exists|k: int|
                                0 <= k < i + 1 && self.rep@[k] == x) by {
                            if forward@[x] is Some {
                                let k = choose|k: int| 0 <= k < i && self.rep@[k] == x;
                                assert(self.rep@[k] == x);
                            }
                        }
                        assert forall|y: int|
                            0 <= y < len implies (#[trigger] backward@[y] is Some <==> exists|k: int|
                                0 <= k < i + 1 && other.rep@[k] == y) by {
                            if backward@[y] is Some {
                                let k = choose|k: int| 0 <= k < i && other.rep@[k] == y;
                                assert(other.rep@[k] == y);
                            }
                        }
                    }
                },
                (Some(_), None) => {
                    proof {
                        let k = choose|k: int| 0 <= k < i && self.rep@[k] == mine;
                        assert(forward@[self.rep@[k]] == Some(other.rep@[k] as usize));
                        assert(backward@[other.rep@[k]] is Some);
                        self.lemma_node(k);
                        other.lemma_node(k);
                        assert(self.same(k, i as int));
                        assert(!other.same(k, i as int));
                    }
                    return false;
                },
                (None, Some(_)) => {
                    proof {
                        let k = choose|k: int| 0 <= k < i && other.rep@[k] == theirs;
                        assert(backward@[other.rep@[k]] == Some(self.rep@[k] as usize));
                        assert(forward@[self.rep@[k]] is Some);
                        self.lemma_node(k);
                        other.lemma_node(k);
                        assert(other.same(k, i as int));
                        assert(!self.same(k, i as int));
                    }
                    return false;
                },
            }
            i = i + 1;
        }
        true
    }

    /// Makes the root `root` of the set of `index` its parent.
    pub(crate) fn hang_under(&mut self, index: usize, root: usize)
        requires
            old(self).wf(),
            index < old(self).size(),
            old(self).rep@[index as int] == root,
        ensures
            final(self).wf(),
            final(self).data@ == old(self).data@,
            final(self).rep@ == old(self).rep@,
            final(self).ring@ == old(self).ring@,
            final(self).unchanged_from(old(self)),
    {
        let ghost before = *self;
        proof {
            before.lemma_node(index as int);
        }
        if index == root {
            return;
        }
        let mut m = self.meta[index];
        m.set_parent(root);
        self.meta.set(index, m);
        proof {
            let n = self.size();
            assert forall|i: int| 0 <= i < n implies #[trigger] self.node(i) by {
                before.lemma_node(i);
            }
            assert forall|r: int| 0 <= r < n && self.rep@[r] == r implies #[trigger] self.root(r) by {
                before.lemma_node(r);
                let list = self.ring@[r];
                assert forall|k: int| 0 <= k < list.len() implies #[trigger] self.meta@[list[k]].link
                    == next_in(list, k) by {
                    assert(before.meta@[list[k]].link == next_in(list, k));
                }
                assert(self.meta@[r].rank == before.meta@[r].rank);
            }
        }
    }

    /// Returns a walk over the members of the set of `index` during which values may be changed.
    ///
    /// The root's rank becomes one, the height its tree has once the walk is complete.
    pub fn set_mut(&mut self, index: usize) -> (r: SetMut)
        requires
            old(self).wf(),
            index < old(self).size(),
        ensures
            final(self).wf(),
            final(self).unchanged_from(old(self)),
            r.inv_in(final(self)),
            r.remaining_in(final(self)).no_duplicates(),
            r.remaining_in(final(self)).to_set() == old(self).class_of(index as int),
    {
        let root = self.find_final(index);
        let ghost before = *self;
        proof {
            before.lemma_node(index as int);
            before.lemma_class_is_ring(index as int);
            before.lemma_node(root as int);
            before.lemma_node(root as int);
        }
        let mut m = self.meta[root];
        m.set_rank(1);
        self.meta.set(root, m);
        proof {
            let n = self.size();
            assert forall|i: int| 0 <= i < n implies #[trigger] self.node(i) by {
                before.lemma_node(i);
            }
            assert forall|r: int| 0 <= r < n && self.rep@[r] == r implies #[trigger] self.root(r) by {
                before.lemma_node(r);
                let list = self.ring@[r];
                assert forall|k: int| 0 <= k < list.len() implies #[trigger] self.meta@[list[k]].link
                    == next_in(list, k) by {
                    assert(before.meta@[list[k]].link == next_in(list, k));
                }
            }
        }
        proof {
            self.lemma_node(root as int);
            assert(self.class_of(root as int) =~= old(self).class_of(index as int));
        }
        SetMut::starting_at(self, root)
    }
}

impl<T> Default for PartitionVec<T> {
    fn default() -> (r: Self)
        ensures
            r.wf(),
            r.values() == Seq::<T>::empty(),
    {
        Self::new()
    }
}

} // verus!
