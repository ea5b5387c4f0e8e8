//! Laws that hold of every `PartitionVec`, proved from the contracts of its operations.
use vstd::prelude::*;
use vstd::set_lib::{lemma_int_range, lemma_len_subset, lemma_set_disjoint_lens, set_int_range};

use crate::partition_vec::{shift_up, PartitionVec};

verus! {

/// Sharing a set is an equivalence: reflexive, symmetric and transitive, whatever unions led
/// to the vector.
pub proof fn lemma_same_set_equivalence<T>(v: &PartitionVec<T>, i: int, j: int, k: int)
    requires
        v.wf(),
        0 <= i < v.size(),
        0 <= j < v.size(),
        0 <= k < v.size(),
    ensures
        v.same(i, i),
        v.same(i, j) == v.same(j, i),
        v.same(i, j) && v.same(j, k) ==> v.same(i, k),
{
}

/// Joining the sets of `i` and `j` a second time leaves the partition as the first time did.
pub proof fn lemma_union_idempotent<T>(
    start: &PartitionVec<T>,
    once: &PartitionVec<T>,
    twice: &PartitionVec<T>,
    i: int,
    j: int,
)
    requires
        start.wf(),
        0 <= i < start.size(),
        0 <= j < start.size(),
        once.size() == start.size(),
        twice.size() == start.size(),
        once.joined(start, i, j),
        twice.joined(once, i, j),
    ensures
        twice.same_partition(once),
{
    assert(once.same(i, j)) by {
        assert(start.same(i, i) && start.same(j, j));
    }
    assert forall|a: int, b: int| 0 <= a < once.size() && 0 <= b < once.size() implies (#[trigger] twice.same(a, b)
        <==> once.same(a, b)) by {
        assert(twice.same(a, b) <==> (once.same(a, b) || (once.same(a, i) && once.same(b, j)) || (
        once.same(a, j) && once.same(b, i))));
    }
}

/// After `make_singleton(i)`, `i` is alone in a set of one, and every other member of its
/// old set is still in a set with the rest of them, which has one member fewer than before.
pub proof fn lemma_make_singleton_sizes<T>(before: &PartitionVec<T>, after: &PartitionVec<T>, i: int, j: int)
    requires
        before.wf(),
        after.wf(),
        after.size() == before.size(),
        0 <= i < before.size(),
        0 <= j < before.size(),
        after.singled_out(before, i),
    ensures
        forall|k: int| 0 <= k < after.size() && after.same(k, i) ==> k == i,
        after.class_of(i).len() == 1,
        j != i && before.same(j, i) ==> after.class_of(j) == before.class_of(j).remove(i)
            && after.class_of(j).len() == before.class_of(j).len() - 1,
        forall|a: int, b: int|
            0 <= a < after.size() && 0 <= b < after.size() && a != i && b != i && before.same(a, i)
                && before.same(b, i) ==> after.same(a, b),
{
    let n = before.size();
    assert forall|k: int| 0 <= k < after.size() && after.same(k, i) implies k == i by {
        assert(after.same(k, i) <==> (k == i || (k != i && i != i && before.same(k, i))));
    }
    assert(after.same(i, i) <==> (i == i || (i != i && i != i && before.same(i, i))));
    assert(after.class_of(i) =~= set![i]);
    lemma_int_range(0, n);
    assert(before.class_of(j).subset_of(set_int_range(0, n)));
    lemma_len_subset(before.class_of(j), set_int_range(0, n));
    if j != i && before.same(j, i) {
        assert forall|k: int| #[trigger] after.class_of(j).contains(k) <==> before.class_of(j).remove(i).contains(k) by {
            if 0 <= k < n {
                assert(after.same(k, j) <==> (k == j || (k != i && j != i && before.same(k, j))));
            }
        }
        assert(after.class_of(j) =~= before.class_of(j).remove(i));
        assert(before.class_of(j).contains(i)) by {
            assert(before.same(i, j));
        }
    }
    assert forall|a: int, b: int|
        0 <= a < after.size() && 0 <= b < after.size() && a != i && b != i && before.same(a, i)
            && before.same(b, i) implies after.same(a, b) by {
        assert(after.same(a, b) <==> (a == b || (a != i && b != i && before.same(a, b))));
    }
}

/// Inserting an element at `at` and then removing the element at `at` gives back the
/// partition that was there before.
pub proof fn lemma_insert_remove<T>(
    start: &PartitionVec<T>,
    grown: &PartitionVec<T>,
    back: &PartitionVec<T>,
    at: int,
)
    requires
        0 <= at <= start.size(),
        grown.size() == start.size() + 1,
        back.size() == start.size(),
        grown.inserted(start, at),
        back.removed(grown, at),
    ensures
        back.same_partition(start),
{
    assert forall|a: int, b: int| 0 <= a < back.size() && 0 <= b < back.size() implies (#[trigger] back.same(a, b)
        <==> start.same(a, b)) by {
        assert(back.same(a, b) <==> grown.same(shift_up(at, a), shift_up(at, b)));
        assert(grown.same(shift_up(at, a), shift_up(at, b)) <==> start.same(a, b));
    }
}

/// No element before `x` shares its set: `x` is the first member of its set.
pub open spec fn is_first<T>(v: &PartitionVec<T>, x: int) -> bool {
    forall|y: int| 0 <= y < x ==> !#[trigger] v.same(y, x)
}

/// The sizes of the sets whose first member lies before `k`, added up.
pub open spec fn sizes_of_sets_before<T>(v: &PartitionVec<T>, k: int) -> int
    decreases k,
{
    if k <= 0 {
        0
    } else {
        sizes_of_sets_before(v, k - 1) + if is_first(v, k - 1) {
            v.class_of(k - 1).len() as int
        } else {
            0
        }
    }
}

/// The elements whose set has its first member before `k`.
spec fn covered<T>(v: &PartitionVec<T>, k: int) -> Set<int> {
    Set::new(|y: int| 0 <= y < v.size() && exists|x: int| 0 <= x < k && is_first(v, x) && #[trigger] v.same(x, y))
}

/// Every set has a first member.
proof fn lemma_first_member<T>(v: &PartitionVec<T>, y: int) -> (x: int)
    requires
        v.wf(),
        0 <= y < v.size(),
    ensures
        0 <= x <= y,
        is_first(v, x),
        v.same(x, y),
    decreases y,
{
    if is_first(v, y) {
        y
    } else {
        let z = choose|z: int| 0 <= z < y && #[trigger] v.same(z, y);
        lemma_first_member(v, z)
    }
}

proof fn lemma_covered<T>(v: &PartitionVec<T>, k: int)
    requires
        v.wf(),
        0 <= k <= v.size(),
    ensures
        covered(v, k).finite(),
        covered(v, k).len() == sizes_of_sets_before(v, k),
    decreases k,
{
    let n = v.size();
    lemma_int_range(0, n);
    assert(covered(v, k).subset_of(set_int_range(0, n)));
    lemma_len_subset(covered(v, k), set_int_range(0, n));
    if k == 0 {
        assert(covered(v, k) =~= Set::empty());
    } else {
        lemma_covered(v, k - 1);
        let x = k - 1;
        if is_first(v, x) {
            let class = v.class_of(x);
            assert(class.subset_of(set_int_range(0, n)));
            lemma_len_subset(class, set_int_range(0, n));
            assert(covered(v, k - 1).disjoint(class)) by {
                assert forall|y: int| covered(v, k - 1).contains(y) implies !class.contains(y) by {
                    let w = choose|w: int| 0 <= w < k - 1 && is_first(v, w) && #[trigger] v.same(w, y);
                    if class.contains(y) {
                        assert(v.same(w, x));
                    }
                }
            }
            assert(covered(v, k) =~= covered(v, k - 1) + class) by {
                assert forall|y: int| covered(v, k).contains(y) implies (covered(v, k - 1) + class).contains(y) by {
                    let w = choose|w: int| 0 <= w < k && is_first(v, w) && #[trigger] v.same(w, y);
                    if w < k - 1 {
                        assert(covered(v, k - 1).contains(y));
                    }
                }
                assert forall|y: int| (covered(v, k - 1) + class).contains(y) implies covered(v, k).contains(y) by {
                    if class.contains(y) {
                        assert(v.same(x, y));
                    } else {
                        let w = choose|w: int| 0 <= w < k - 1 && is_first(v, w) && #[trigger] v.same(w, y);
                        assert(v.same(w, y));
                    }
                }
            }
            lemma_set_disjoint_lens(covered(v, k - 1), class);
        } else {
            assert(covered(v, k) =~= covered(v, k - 1)) by {
                assert forall|y: int| covered(v, k).contains(y) implies covered(v, k - 1).contains(y) by {
                    let w = choose|w: int| 0 <= w < k && is_first(v, w) && #[trigger] v.same(w, y);
                    assert(w != x);
                    assert(v.same(w, y));
                }
                assert forall|y: int| covered(v, k - 1).contains(y) implies covered(v, k).contains(y) by {
                    let w = choose|w: int| 0 <= w < k - 1 && is_first(v, w) && #[trigger] v.same(w, y);
                    assert(v.same(w, y));
                }
            }
        }
    }
}

/// The sizes of all the sets, each counted once (at its first member), add up to the number of
/// elements.
pub proof fn lemma_set_sizes_sum<T>(v: &PartitionVec<T>)
    requires
        v.wf(),
    ensures
        sizes_of_sets_before(v, v.size()) == v.size(),
{
    let n = v.size();
    lemma_covered(v, n);
    lemma_int_range(0, n);
    assert(covered(v, n) =~= set_int_range(0, n)) by {
        assert forall|y: int| set_int_range(0, n).contains(y) implies covered(v, n).contains(y) by {
            let x = lemma_first_member(v, y);
            assert(v.same(x, y));
        }
    }
}

} // verus!
