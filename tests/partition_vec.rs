use partitions::PartitionVec;

/// Builds a vector whose elements sharing a label share a set.
fn grouped<T>(items: Vec<(T, u32)>) -> PartitionVec<T> {
    let mut labels: Vec<(u32, usize)> = Vec::new();
    let mut result = PartitionVec::with_capacity(items.len());
    for (value, label) in items {
        let index = result.len();
        result.push(value);
        match labels.iter().find(|(l, _)| *l == label) {
            Some(&(_, first)) => result.union(first, index),
            None => labels.push((label, index)),
        }
    }
    result
}

fn members<T>(v: &PartitionVec<T>, index: usize) -> Vec<usize> {
    let mut walk = v.set(index);
    let mut out = Vec::new();
    while let Some((i, _)) = walk.next() {
        out.push(i);
    }
    out.sort();
    out
}

#[test]
fn union_chain_example() {
    let mut v = PartitionVec::new();
    for c in ['a', 'b', 'c', 'd'] {
        v.push(c);
    }
    v.union(1, 2);
    v.union(2, 3);
    assert_eq!(v.amount_of_sets(), 2);
    assert_eq!(v.len_of_set(1), 3);
    assert!(v.same_set(1, 3));
    assert!(!v.same_set(0, 1));
    v.make_singleton(2);
    assert_eq!(v.len_of_set(1), 2);
    assert_eq!(v.len_of_set(2), 1);
    assert_eq!(v.len_of_set(3), 2);
    assert!(v.same_set(1, 3));
}

#[test]
fn union_grows_sets() {
    let mut v = PartitionVec::new();
    for _ in 0..4 {
        v.push(());
    }
    for i in 0..4 {
        assert_eq!(v.len_of_set(i), 1);
    }
    v.union(1, 2);
    assert_eq!(v.len_of_set(0), 1);
    assert_eq!(v.len_of_set(1), 2);
    assert_eq!(v.len_of_set(2), 2);
    assert_eq!(v.len_of_set(3), 1);
    v.union(2, 3);
    assert_eq!(v.len_of_set(0), 1);
    assert_eq!(v.len_of_set(1), 3);
    assert_eq!(v.len_of_set(2), 3);
    assert_eq!(v.len_of_set(3), 3);
}

#[test]
fn same_set_and_other_sets() {
    let mut v = PartitionVec::new();
    for _ in 0..4 {
        v.push(());
    }
    v.union(1, 3);
    v.union(0, 1);
    assert!(v.same_set(0, 1));
    assert!(!v.same_set(0, 2));
    assert!(v.same_set(0, 3));
    assert!(!v.same_set(1, 2));
    assert!(v.same_set(1, 3));
    assert!(!v.same_set(2, 3));
    assert!(!v.other_sets(0, 1));
    assert!(v.other_sets(0, 2));
    assert!(!v.other_sets(0, 3));
    assert!(v.other_sets(1, 2));
    assert!(!v.other_sets(1, 3));
    assert!(v.other_sets(2, 3));
}

#[test]
fn same_set_is_an_equivalence() {
    let mut v = PartitionVec::new();
    for i in 0..6 {
        v.push(i);
    }
    v.union(0, 4);
    v.union(4, 2);
    v.union(1, 5);
    for i in 0..6 {
        assert!(v.same_set(i, i));
        for j in 0..6 {
            assert_eq!(v.same_set(i, j), v.same_set(j, i));
            for k in 0..6 {
                if v.same_set(i, j) && v.same_set(j, k) {
                    assert!(v.same_set(i, k));
                }
            }
        }
    }
}

#[test]
fn union_twice_changes_nothing() {
    let mut once = grouped(vec![(0, 0), (1, 1), (2, 0), (3, 2), (4, 1)]);
    once.union(1, 3);
    let mut twice = grouped(vec![(0, 0), (1, 1), (2, 0), (3, 2), (4, 1)]);
    twice.union(1, 3);
    twice.union(1, 3);
    for i in 0..5 {
        for j in 0..5 {
            assert_eq!(once.same_set(i, j), twice.same_set(i, j));
        }
    }
    assert_eq!(twice.amount_of_sets(), 2);
}

#[test]
fn set_sizes_add_up() {
    let mut v = grouped(vec![(8, 0), (3, 1), (4, 0), (3, 1), (7, 2), (1, 0)]);
    let mut total = 0;
    let mut first_members = 0;
    for i in 0..v.len() {
        let first = (0..i).all(|j| !v.same_set(j, i));
        if first {
            total += v.len_of_set(i);
            first_members += 1;
        }
    }
    assert_eq!(total, v.len());
    assert_eq!(first_members, v.amount_of_sets());
}

#[test]
fn make_singleton_splits_off_one() {
    let mut v = grouped(vec![((), 'a' as u32), ((), 'a' as u32), ((), 'a' as u32), ((), 'b' as u32)]);
    assert_eq!(v.len_of_set(0), 3);
    assert_eq!(v.len_of_set(1), 3);
    assert_eq!(v.len_of_set(2), 3);
    assert_eq!(v.len_of_set(3), 1);
    v.make_singleton(2);
    assert_eq!(v.len_of_set(0), 2);
    assert_eq!(v.len_of_set(1), 2);
    assert_eq!(v.len_of_set(2), 1);
    assert_eq!(v.len_of_set(3), 1);
    assert!(v.is_singleton(2));
    assert!(v.same_set(0, 1));
}

#[test]
fn make_singleton_of_alone_element() {
    let mut v = grouped(vec![(1, 0), (2, 1), (3, 0)]);
    v.make_singleton(1);
    assert!(v.is_singleton(1));
    assert!(v.same_set(0, 2));
    assert_eq!(v.amount_of_sets(), 2);
}

#[test]
fn is_singleton_after_union() {
    let mut v = PartitionVec::new();
    for _ in 0..4 {
        v.push(());
    }
    v.union(1, 3);
    assert!(v.is_singleton(0));
    assert!(!v.is_singleton(1));
    assert!(v.is_singleton(2));
    assert!(!v.is_singleton(3));
}

#[test]
fn len_of_set_after_union() {
    let mut v = PartitionVec::new();
    for _ in 0..3 {
        v.push(true);
    }
    v.union(0, 2);
    assert_eq!(v.len_of_set(0), 2);
    assert_eq!(v.len_of_set(1), 1);
    assert_eq!(v.len_of_set(2), 2);
}

#[test]
fn amount_of_sets_counts_groups() {
    let mut v = grouped(vec![(8, 0), (3, 1), (4, 0), (3, 1), (7, 2)]);
    assert_eq!(v.amount_of_sets(), 3);
    let mut empty: PartitionVec<u8> = PartitionVec::new();
    assert_eq!(empty.amount_of_sets(), 0);
}

#[test]
fn push_adds_a_set() {
    let mut v = grouped(vec![('a', 0), ('b', 0), ('c', 1), ('d', 2)]);
    v.push('e');
    assert_eq!(v.amount_of_sets(), 4);
    assert_eq!(*v.get(4), 'e');
    assert!(v.is_singleton(4));
}

#[test]
fn pop_takes_the_last() {
    let mut v = grouped(vec![('a', 0), ('b', 0), ('c', 1), ('d', 0)]);
    assert_eq!(v.pop(), Some('d'));
    assert_eq!(v.amount_of_sets(), 2);
    assert_eq!(v.len(), 3);
    assert!(v.same_set(0, 1));
    let mut empty: PartitionVec<char> = PartitionVec::new();
    assert_eq!(empty.pop(), None);
}

#[test]
fn insert_shifts_and_keeps_sets() {
    let mut v = grouped(vec![(0, 0), (1, 1), (2, 0), (3, 2)]);
    v.insert(2, -1);
    assert_eq!(*v.get(2), -1);
    assert_eq!(v.amount_of_sets(), 4);
    assert!(v.same_set(0, 3));
    assert!(v.is_singleton(2));
    assert_eq!(v.as_slice(), &[0, 1, -1, 2, 3]);
}

#[test]
fn remove_shifts_and_keeps_sets() {
    let mut v = grouped(vec![(0, 0), (1, 1), (2, 0), (3, 2)]);
    assert_eq!(v.remove(2), 2);
    assert_eq!(*v.get(2), 3);
    assert_eq!(v.amount_of_sets(), 3);
    let mut w = grouped(vec![(0, 0), (1, 1), (2, 0), (3, 1), (4, 0)]);
    assert_eq!(w.remove(1), 1);
    assert!(w.same_set(0, 1));
    assert!(w.same_set(1, 3));
    assert!(w.is_singleton(2));
}

#[test]
fn insert_then_remove_restores() {
    let mut v = grouped(vec![(0, 0), (1, 1), (2, 0), (3, 1), (4, 2)]);
    let mut before = Vec::new();
    for i in 0..5 {
        for j in 0..5 {
            before.push(v.same_set(i, j));
        }
    }
    v.insert(3, 9);
    assert_eq!(v.remove(3), 9);
    let mut after = Vec::new();
    for i in 0..5 {
        for j in 0..5 {
            after.push(v.same_set(i, j));
        }
    }
    assert_eq!(before, after);
    assert_eq!(v.as_slice(), &[0, 1, 2, 3, 4]);
}

#[test]
fn truncate_rebuilds_split_sets() {
    let mut v = grouped(vec![('a', 0), ('b', 1), ('c', 0), ('d', 1), ('e', 2)]);
    v.truncate(3);
    assert_eq!(v.len(), 3);
    assert_eq!(v.len_of_set(0), 2);
    assert_eq!(v.len_of_set(1), 1);
    assert_eq!(v.len_of_set(2), 2);
}

#[test]
fn truncate_across_the_boundary() {
    let mut v = PartitionVec::new();
    for i in 0..8 {
        v.push(i);
    }
    v.union(6, 1);
    v.union(7, 3);
    v.union(1, 3);
    v.union(0, 5);
    v.union(2, 4);
    v.truncate(4);
    assert_eq!(v.len(), 4);
    assert!(v.same_set(1, 3));
    assert!(!v.same_set(0, 1));
    assert!(v.same_set(0, 0));
    assert!(v.is_singleton(0));
    assert!(v.is_singleton(2));
    assert_eq!(v.len_of_set(1), 2);
    assert_eq!(members(&v, 3), vec![1, 3]);
    assert_eq!(v.amount_of_sets(), 3);
    v.truncate(10);
    assert_eq!(v.len(), 4);
}

#[test]
fn set_walks_every_member_once() {
    let v = grouped(vec![('a', 0), ('b', 0), ('c', 1), ('d', 1)]);
    let mut done = [0, 0, 0, 0];
    for start in [0, 1, 2] {
        let mut walk = v.set(start);
        while let Some((index, value)) = walk.next() {
            if start < 2 {
                assert!(*value == 'a' || *value == 'b');
            } else {
                assert!(*value == 'c' || *value == 'd');
            }
            done[index] += 1;
        }
    }
    assert_eq!(done, [2, 2, 1, 1]);
}

#[test]
fn set_yields_len_of_set_members() {
    let mut v = grouped(vec![(0, 0), (1, 1), (2, 0), (3, 0), (4, 1), (5, 2)]);
    for i in 0..6 {
        let found = members(&v, i);
        assert_eq!(found.len(), v.len_of_set(i));
        for &k in &found {
            assert!(v.same_set(k, i));
        }
    }
    assert_eq!(members(&v, 3), vec![0, 2, 3]);
}

#[test]
fn replace_keeps_sets() {
    let mut v = grouped(vec![(0, 0), (1, 1), (2, 0)]);
    assert_eq!(v.replace(1, 7), 1);
    assert_eq!(v.as_slice(), &[0, 7, 2]);
    assert!(v.same_set(0, 2));
    assert!(v.is_singleton(1));
}

#[test]
fn empty_vector() {
    let v: PartitionVec<u8> = PartitionVec::new();
    assert!(v.is_empty());
    assert_eq!(v.len(), 0);
}

#[test]
fn append_moves_everything() {
    let mut first = grouped(vec![('a', 0), ('b', 1), ('c', 1)]);
    let mut second = grouped(vec![('a', 0), ('b', 0), ('c', 1)]);
    first.append(&mut second);
    assert_eq!(first.len(), 6);
    assert_eq!(second.len(), 0);
    assert_eq!(first.amount_of_sets(), 4);
    assert_eq!(second.amount_of_sets(), 0);
    assert!(first.same_set(1, 2));
    assert!(first.same_set(3, 4));
    assert!(!first.same_set(0, 3));
    assert!(first.is_singleton(5));
    assert_eq!(first.as_slice(), &['a', 'b', 'c', 'a', 'b', 'c']);
}

#[test]
fn resize_grows_and_shrinks() {
    let mut v = PartitionVec::from_vec(vec![4, 9]);
    v.resize(4, 0);
    assert_eq!(v.as_slice(), &[4, 9, 0, 0]);
    assert_eq!(v.amount_of_sets(), 4);
    let mut w = grouped(vec![(4, 0), (1, 1), (3, 5), (1, 1), (1, 3)]);
    w.resize(2, 0);
    assert_eq!(w.as_slice(), &[4, 1]);
    assert!(w.is_singleton(1));
    let mut u = grouped(vec![(1, 0), (2, 0)]);
    u.resize(2, 7);
    assert!(u.same_set(0, 1));
}

#[test]
fn clear_empties() {
    let mut v = PartitionVec::from_vec(vec![2, 3, 4]);
    assert!(!v.is_empty());
    v.clear();
    assert!(v.is_empty());
    assert_eq!(v.amount_of_sets(), 0);
}

#[test]
fn from_elem_gives_singletons() {
    let v = PartitionVec::from_elem('a', 3);
    assert_eq!(v.as_slice(), &['a', 'a', 'a']);
    assert!(v.is_singleton(0));
    assert!(v.is_singleton(1));
    assert!(v.is_singleton(2));
}

#[test]
fn all_sets_yields_each_set_once() {
    let v = grouped(vec![(0, 0), (0, 0), (2, 2), (2, 2), (4, 4), (4, 4)]);
    let mut sets = v.all_sets();
    let mut seen = 0;
    while let Some(mut set) = sets.next() {
        let mut count = 0;
        while let Some((index, value)) = set.next() {
            assert!(index == *value || index == *value + 1);
            count += 1;
        }
        assert_eq!(count, 2);
        seen += 1;
    }
    assert_eq!(seen, 3);
    assert!(sets.next().is_none());
}

#[test]
fn all_sets_from_both_ends() {
    let v = grouped(vec![('a', 0), ('b', 1), ('c', 0), ('d', 2)]);
    let mut sets = v.all_sets();
    let mut back = sets.next_back().unwrap();
    assert_eq!(back.next().map(|(i, _)| i), Some(3));
    assert!(back.next().is_none());
    let mut front = sets.next().unwrap();
    let mut found = Vec::new();
    while let Some((i, _)) = front.next() {
        found.push(i);
    }
    found.sort();
    assert_eq!(found, vec![0, 2]);
    let mut middle = sets.next_back().unwrap();
    assert_eq!(middle.next().map(|(i, _)| i), Some(1));
    assert!(sets.next().is_none());
    assert!(sets.next_back().is_none());
}

#[test]
fn set_mut_changes_one_set() {
    let mut v = grouped(vec![(0, 'a' as u32), (0, 'b' as u32), (0, 'b' as u32), (0, 'c' as u32)]);
    let mut walk = v.set_mut(2);
    while let Some(index) = walk.next(&mut v) {
        assert!(index == 1 || index == 2);
        *v.get_mut(index) += 1;
    }
    assert_eq!(v.as_slice(), &[0, 1, 1, 0]);
    assert!(v.same_set(1, 2));
}

#[test]
fn all_sets_mut_numbers_sets() {
    let mut v = grouped(vec![(0, 'a' as u32), (0, 'b' as u32), (0, 'a' as u32), (0, 'b' as u32), (0, 'c' as u32), (0, 'c' as u32)]);
    let mut sets = v.all_sets_mut();
    let mut number = 0;
    while let Some(mut walk) = sets.next(&v) {
        while let Some(index) = walk.next(&mut v) {
            assert!(index < 6);
            *v.get_mut(index) = number;
        }
        number += 1;
    }
    assert_eq!(v.as_slice(), &[0, 1, 0, 1, 2, 2]);
}

#[test]
fn capacity_reserve_and_shrink() {
    let mut v = PartitionVec::with_capacity(10);
    assert_eq!(v.len(), 0);
    assert!(v.capacity() >= 10);
    for i in 0..10 {
        v.push(i);
    }
    v.push(11);
    assert!(v.capacity() >= 11);
    v.union(0, 10);
    v.reserve(20);
    assert!(v.capacity() >= 31);
    v.shrink_to_fit();
    assert!(v.capacity() >= 11);
    assert_eq!(v.as_slice(), &[0, 1, 2, 3, 4, 5, 6, 7, 8, 9, 11]);
    assert!(v.same_set(0, 10));
}

#[test]
fn as_mut_slice_changes_values_only() {
    let mut v = grouped(vec![(0, 0), (0, 1), (0, 0)]);
    v.as_mut_slice()[1] = 5;
    assert_eq!(v.as_slice(), &[0, 5, 0]);
    assert!(v.same_set(0, 2));
    assert!(v.is_singleton(1));
}

#[test]
fn default_is_empty() {
    let v: PartitionVec<u32> = PartitionVec::default();
    assert!(v.is_empty());
}

#[test]
fn same_partition_needs_a_bijection() {
    let mut two = PartitionVec::from_vec(vec![1, 2]);
    let mut one = PartitionVec::from_vec(vec![1, 2]);
    one.union(0, 1);
    assert!(!two.same_partition_as(&one));
    assert!(!one.same_partition_as(&two));
    two.union(1, 0);
    assert!(two.same_partition_as(&one));
    let a = grouped(vec![(0, 0), (0, 1), (0, 0), (0, 1)]);
    let b = grouped(vec![(5, 7), (6, 3), (7, 7), (8, 3)]);
    assert!(a.same_partition_as(&b));
    let c = grouped(vec![(5, 7), (6, 3), (7, 3), (8, 7)]);
    assert!(!a.same_partition_as(&c));
    let shorter = grouped(vec![(0, 0), (0, 1), (0, 0)]);
    assert!(!a.same_partition_as(&shorter));
}

#[test]
fn extend_adds_singletons() {
    let mut v = grouped(vec![(1, 0), (2, 0)]);
    v.extend(vec![3, 4]);
    assert_eq!(v.as_slice(), &[1, 2, 3, 4]);
    assert!(v.same_set(0, 1));
    assert!(v.is_singleton(2));
    assert!(v.is_singleton(3));
    assert_eq!(v.amount_of_sets(), 3);
}

#[test]
fn clone_keeps_sets() {
    let v = grouped(vec![('a', 0), ('b', 1), ('c', 0)]);
    let mut w = v.clone();
    assert!(w.same_set(0, 2));
    assert!(w.is_singleton(1));
    assert!(v.same_partition_as(&w));
}

#[test]
fn eq_compares_values_and_sets() {
    let a = grouped(vec![('a', 0), ('b', 1), ('c', 0)]);
    let b = grouped(vec![('a', 5), ('b', 6), ('c', 5)]);
    assert!(a.eq(&b));
    let c = grouped(vec![('a', 0), ('b', 1), ('c', 1)]);
    assert!(!a.eq(&c));
    let d = grouped(vec![('a', 0), ('x', 1), ('c', 0)]);
    assert!(!a.eq(&d));
}
