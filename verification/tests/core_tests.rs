use std::collections::HashSet;

use setcover::bitset::greedy_set_cover_1;
use setcover::collection::SetCollection;
use setcover::greedy_set_cover::greedy_set_cover_0;
use setcover::greedy_set_cover;

fn coll(entries: &[(u64, Vec<u64>)]) -> SetCollection {
    let mut c = SetCollection::new();
    for (id, elems) in entries {
        c.insert(*id, elems.clone());
    }
    c
}

fn universe_of(c: &SetCollection) -> HashSet<u64> {
    c.all_elements().into_iter().collect()
}

/// Asserts that the sets the cover names together hold exactly the universe
/// of the input.
fn check_coverage(cover_ids: &[u64], sets: &SetCollection) {
    let mut covered: HashSet<u64> = HashSet::new();
    for id in cover_ids {
        for e in sets.get(*id).unwrap() {
            covered.insert(*e);
        }
    }
    assert_eq!(universe_of(sets), covered);
}

#[test]
fn test_greedy_set_cover() {
    // Set identifiers stand for the names "A", "B" and "C".
    let sets = coll(&[(1, vec![1, 2, 3]), (2, vec![1, 2]), (3, vec![2])]);

    let result_0 = greedy_set_cover(&sets, 0).unwrap();
    let result_1 = greedy_set_cover(&sets, 1).unwrap();
    let direct_0 = greedy_set_cover_0(&sets).unwrap().ids();
    let direct_1 = greedy_set_cover_1(&sets).unwrap();

    assert_eq!(result_0, direct_0);
    assert_eq!(result_1, direct_1);
}

#[test]
fn lib_test_basic_case() {
    let sets = coll(&[(1, vec![1, 2, 3]), (2, vec![1, 2]), (3, vec![2])]);

    let set_cover_0 = greedy_set_cover_0(&sets).unwrap().ids();
    let set_cover_1 = greedy_set_cover_1(&sets).unwrap();

    check_coverage(&set_cover_0, &sets);
    check_coverage(&set_cover_1, &sets);
}

#[test]
fn lib_test_with_empty_set() {
    let sets = coll(&[(1, vec![1, 2, 3]), (2, vec![]), (3, vec![3, 4, 5])]);

    let set_cover_0 = greedy_set_cover_0(&sets).unwrap().ids();
    let set_cover_1 = greedy_set_cover_1(&sets).unwrap();

    check_coverage(&set_cover_0, &sets);
    check_coverage(&set_cover_1, &sets);
}

#[test]
fn lib_test_all_sets_needed() {
    let sets = coll(&[(1, vec![1]), (2, vec![2]), (3, vec![3])]);

    let set_cover_0 = greedy_set_cover_0(&sets).unwrap().ids();
    let set_cover_1 = greedy_set_cover_1(&sets).unwrap();

    assert_eq!(sets.len(), set_cover_0.len());
    assert_eq!(sets.len(), set_cover_1.len());

    check_coverage(&set_cover_0, &sets);
    check_coverage(&set_cover_1, &sets);
}

#[test]
fn lib_test_one_set_covers_all() {
    let sets = coll(&[(1, vec![1, 2, 3, 4, 5]), (2, vec![1, 2]), (3, vec![3, 4])]);

    let set_cover_0 = greedy_set_cover_0(&sets).unwrap().ids();
    let set_cover_1 = greedy_set_cover_1(&sets).unwrap();

    assert_eq!(set_cover_0.len(), 1);
    assert_eq!(set_cover_1.len(), 1);

    check_coverage(&set_cover_0, &sets);
    check_coverage(&set_cover_1, &sets);
}

#[test]
fn lib_test_overlapping_sets() {
    let sets = coll(&[(1, vec![1, 2, 3]), (2, vec![3, 4, 5]), (3, vec![5, 6, 7])]);

    let set_cover_0 = greedy_set_cover_0(&sets).unwrap().ids();
    let set_cover_1 = greedy_set_cover_1(&sets).unwrap();

    // The greedy algorithm might pick 2 or 3 sets, but the universe must be covered.
    assert!(set_cover_0.len() >= 2 && set_cover_0.len() <= 3);
    assert!(set_cover_1.len() >= 2 && set_cover_1.len() <= 3);

    check_coverage(&set_cover_0, &sets);
    check_coverage(&set_cover_1, &sets);
}

#[test]
fn lib_test_large_numbers() {
    let sets = coll(&[
        (1, vec![1_000_000, 2_000_000, 3_000_000]),
        (2, vec![4_000_000, 5_000_000]),
    ]);

    let set_cover_0 = greedy_set_cover_0(&sets).unwrap().ids();
    let set_cover_1 = greedy_set_cover_1(&sets).unwrap();

    check_coverage(&set_cover_0, &sets);
    check_coverage(&set_cover_1, &sets);
}

#[test]
fn lib_test_duplicate_sets() {
    let sets = coll(&[(1, vec![1, 2, 3]), (2, vec![1, 2, 3]), (3, vec![4, 5, 6])]);

    let set_cover_0 = greedy_set_cover_0(&sets).unwrap().ids();
    let set_cover_1 = greedy_set_cover_1(&sets).unwrap();

    assert!(set_cover_0.len() < sets.len());
    assert!(set_cover_1.len() < sets.len());

    check_coverage(&set_cover_0, &sets);
    check_coverage(&set_cover_1, &sets);
}

#[test]
fn lib_test_one_element_per_set() {
    let sets = coll(&[(1, vec![1]), (2, vec![2]), (3, vec![3]), (4, vec![4])]);

    let set_cover_0 = greedy_set_cover_0(&sets).unwrap().ids();
    let set_cover_1 = greedy_set_cover_1(&sets).unwrap();

    assert_eq!(sets.len(), set_cover_0.len());
    assert_eq!(sets.len(), set_cover_1.len());

    check_coverage(&set_cover_0, &sets);
    check_coverage(&set_cover_1, &sets);
}

#[test]
fn lib_test_nested_sets() {
    let sets = coll(&[(1, vec![1, 2, 3, 4, 5]), (2, vec![1, 2, 3]), (3, vec![1, 2])]);

    let set_cover_0 = greedy_set_cover_0(&sets).unwrap().ids();
    let set_cover_1 = greedy_set_cover_1(&sets).unwrap();

    assert_eq!(set_cover_0.len(), 1);
    assert_eq!(set_cover_1.len(), 1);

    check_coverage(&set_cover_0, &sets);
    check_coverage(&set_cover_1, &sets);
}

#[test]
fn lib_test_large_number_of_small_sets() {
    let mut entries = Vec::new();
    for i in 0..50u64 {
        entries.push((i, vec![i, i + 1]));
    }
    let sets = coll(&entries);

    let set_cover_0 = greedy_set_cover_0(&sets).unwrap().ids();
    let set_cover_1 = greedy_set_cover_1(&sets).unwrap();

    assert!(set_cover_0.len() < sets.len());
    assert!(set_cover_1.len() < sets.len());

    check_coverage(&set_cover_0, &sets);
    check_coverage(&set_cover_1, &sets);
}

#[test]
fn lib_test_complex_deterministic_cases() {
    // A clear greedy choice path.
    let sets = coll(&[
        (1, vec![1, 2, 3, 4, 5, 6]), // best initial choice
        (2, vec![1, 2, 7]),
        (3, vec![3, 4, 8]),
        (4, vec![5, 6, 9]),
        (5, vec![7, 8, 9, 10]), // best second choice
    ]);

    let set_cover_0 = greedy_set_cover_0(&sets).unwrap().ids();
    let set_cover_1 = greedy_set_cover_1(&sets).unwrap();

    // The optimal greedy cover is 2 sets: {1,2,3,4,5,6} and {7,8,9,10}.
    assert_eq!(set_cover_0.len(), 2);
    assert_eq!(set_cover_1.len(), 2);

    check_coverage(&set_cover_0, &sets);
    check_coverage(&set_cover_1, &sets);
}
