use std::collections::{HashMap, HashSet};

use setcover::bitset::greedy_set_cover_1;
use setcover::collection::SetCollection;
use setcover::indexer::{
    map_elements_to_integers, map_elements_to_integers_owned, revert_integer_mapping,
};

fn coll(entries: &[(u64, Vec<u64>)]) -> SetCollection {
    let mut c = SetCollection::new();
    for (id, elems) in entries {
        c.insert(*id, elems.clone());
    }
    c
}

#[test]
fn bitset_test_basic_case() {
    // Set identifiers stand for the names "A", "B" and "C".
    let sets = coll(&[(1, vec![1, 2, 3]), (2, vec![1, 2]), (3, vec![2])]);

    let set_cover = greedy_set_cover_1(&sets).unwrap();

    let universe: HashSet<u64> = sets.all_elements().into_iter().collect();
    let mut covered_universe: HashSet<u64> = HashSet::new();
    for id in &set_cover {
        for e in sets.get(*id).unwrap() {
            covered_universe.insert(*e);
        }
    }
    assert_eq!(universe, covered_universe);
}

#[test]
fn test_mapping() {
    // Three distinct values with one repeat, standing in for the words
    // "apple", "banana", "cherry", "apple".
    let data: Vec<u64> = vec![10, 20, 30, 10];

    let forward_map = map_elements_to_integers(&data);
    assert_eq!(forward_map.len(), 3);
    assert!(forward_map.contains_key(&10));
    assert!(forward_map.contains_key(&20));
    assert!(forward_map.contains_key(&30));

    let values: HashSet<usize> = forward_map.values().cloned().collect();
    assert_eq!(values, HashSet::from([0, 1, 2]));
}

#[test]
fn test_mapping_first_seen_order() {
    let data: Vec<u64> = vec![5, 7, 5, 9];
    let forward_map = map_elements_to_integers(&data);
    assert_eq!(forward_map.len(), 3);
    assert_eq!(forward_map[&5], 0);
    assert_eq!(forward_map[&7], 1);
    assert_eq!(forward_map[&9], 2);

    let owned = map_elements_to_integers_owned(data);
    assert_eq!(owned, forward_map);
}

#[test]
fn test_revert_mapping() {
    let data: Vec<u64> = vec![7, 8, 9];
    let forward = map_elements_to_integers(&data);
    let backward = revert_integer_mapping(&forward);
    let expected: HashMap<usize, u64> = HashMap::from([(0, 7), (1, 8), (2, 9)]);
    assert_eq!(backward, expected);
}
