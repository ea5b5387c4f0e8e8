use partitions::{PartitionBTreeMap, PartitionHashMap};

#[test]
fn range_yields_keys_in_order() {
    let mut map = PartitionBTreeMap::new();
    for (key, value) in [(5u64, 'e'), (1, 'a'), (3, 'c'), (9, 'i'), (7, 'g')] {
        assert_eq!(map.insert(key, value), None);
    }
    let found: Vec<(u64, char)> = map.range(2, 8).into_iter().map(|(k, v)| (k, *v)).collect();
    assert_eq!(found, vec![(3, 'c'), (5, 'e'), (7, 'g')]);
    assert!(map.range(4, 4).is_empty());
    assert_eq!(map.range(0, 100).len(), 5);
}

#[test]
fn map_sets_follow_keys() {
    let mut map = PartitionBTreeMap::new();
    map.insert(10, "ten");
    map.insert(20, "twenty");
    map.insert(30, "thirty");
    map.union(&10, &30);
    assert!(map.same_set(&10, &30));
    assert!(!map.same_set(&10, &20));
    assert_eq!(map.insert(30, "thirty again"), Some("thirty"));
    assert!(map.same_set(&30, &10));
    assert_eq!(map.get(&30), Some(&"thirty again"));
    assert_eq!(map.get(&40), None);
}

#[test]
fn btree_map_set_queries() {
    let mut map = PartitionBTreeMap::new();
    for key in [4u64, 8, 15, 16, 23, 42] {
        map.insert(key, key * 2);
    }
    assert_eq!(map.len(), 6);
    assert!(!map.is_empty());
    assert!(map.contains_key(&15));
    assert!(!map.contains_key(&7));
    map.union(&4, &15);
    map.union(&15, &42);
    assert_eq!(map.len_of_set(&42), 3);
    assert_eq!(map.len_of_set(&8), 1);
    assert_eq!(map.amount_of_sets(), 4);
    assert!(map.other_sets(&4, &8));
    assert!(!map.is_singleton(&4));
    assert!(map.is_singleton(&23));
    map.make_singleton(&15);
    assert!(map.is_singleton(&15));
    assert!(map.same_set(&4, &42));
    assert_eq!(map.len_of_set(&4), 2);
    map.clear();
    assert!(map.is_empty());
}

#[test]
fn hash_map_set_queries() {
    let mut map = PartitionHashMap::with_capacity(4);
    assert!(map.is_empty());
    assert_eq!(map.insert(1, 'a'), None);
    assert_eq!(map.insert(2, 'b'), None);
    assert_eq!(map.insert(3, 'c'), None);
    assert_eq!(map.insert(2, 'B'), Some('b'));
    assert_eq!(map.len(), 3);
    assert_eq!(map.get(&2), Some(&'B'));
    assert_eq!(map.get(&9), None);
    map.union(&1, &3);
    assert!(map.same_set(&3, &1));
    assert!(map.other_sets(&1, &2));
    assert_eq!(map.len_of_set(&1), 2);
    assert_eq!(map.amount_of_sets(), 2);
    map.make_singleton(&1);
    assert!(map.is_singleton(&1));
    assert!(map.is_singleton(&3));
    assert_eq!(map.amount_of_sets(), 3);
    let mut empty: PartitionHashMap<u8> = PartitionHashMap::new();
    assert_eq!(empty.amount_of_sets(), 0);
    map.clear();
    assert_eq!(map.len(), 0);
}
