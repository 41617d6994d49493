use std::collections::HashSet;

use setcover::collection::SetCollection;
use setcover::greedy_set_cover::greedy_set_cover_0;

/// Builds a collection from `(id, elements)` pairs.
fn coll(entries: &[(u64, Vec<u64>)]) -> SetCollection {
    let mut c = SetCollection::new();
    for (id, elems) in entries {
        c.insert(*id, elems.clone());
    }
    c
}

/// Builds the cover-problem input the way the nested fixtures do: every
/// non-empty set gets a sequential id.
fn transform_input(groups: &[Vec<Vec<u64>>]) -> SetCollection {
    let mut c = SetCollection::new();
    let mut next_id: u64 = 0;
    for group in groups {
        for set in group {
            if !set.is_empty() {
                c.insert(next_id, set.clone());
                next_id += 1;
            }
        }
    }
    c
}

fn universe_of_groups(groups: &[Vec<Vec<u64>>]) -> HashSet<u64> {
    groups.iter().flatten().flatten().copied().collect()
}

fn universe_of_cover(cover: &SetCollection) -> HashSet<u64> {
    let mut u = HashSet::new();
    for id in cover.ids() {
        for e in cover.get(id).unwrap() {
            u.insert(*e);
        }
    }
    u
}

#[test]
fn greedy_set_cover_test_basic_case() {
    let groups = vec![
        vec![vec![1, 2, 3], vec![100]],
        vec![vec![15], vec![1, 2]],
    ];
    let function_input = transform_input(&groups);
    let set_cover = greedy_set_cover_0(&function_input).unwrap();
    assert_eq!(universe_of_groups(&groups), universe_of_cover(&set_cover));
}

#[test]
fn greedy_set_cover_test_with_empty_set() {
    let groups = vec![
        vec![vec![1, 2, 3], vec![]],
        vec![vec![3, 4, 5]],
    ];
    let function_input = transform_input(&groups);
    let set_cover = greedy_set_cover_0(&function_input).unwrap();
    assert_eq!(universe_of_groups(&groups), universe_of_cover(&set_cover));
}

#[test]
fn greedy_set_cover_test_all_sets_needed() {
    let groups = vec![vec![vec![1], vec![2]], vec![vec![3]]];
    let function_input = transform_input(&groups);
    let set_cover = greedy_set_cover_0(&function_input).unwrap();
    assert_eq!(function_input.len(), set_cover.len());
    assert_eq!(universe_of_groups(&groups), universe_of_cover(&set_cover));
}

#[test]
fn greedy_set_cover_test_one_set_covers_all() {
    let groups = vec![
        vec![vec![1, 2, 3, 4, 5]],
        vec![vec![1, 2], vec![3, 4]],
    ];
    let function_input = transform_input(&groups);
    let set_cover = greedy_set_cover_0(&function_input).unwrap();
    assert_eq!(set_cover.len(), 1);
    assert_eq!(universe_of_groups(&groups), universe_of_cover(&set_cover));
}

#[test]
fn greedy_set_cover_test_overlapping_sets() {
    let groups = vec![
        vec![vec![1, 2, 3], vec![3, 4, 5]],
        vec![vec![5, 6, 7]],
    ];
    let function_input = transform_input(&groups);
    let set_cover = greedy_set_cover_0(&function_input).unwrap();
    // The greedy algorithm might pick 2 or 3 sets, but the universe must be covered.
    assert!(set_cover.len() >= 2 && set_cover.len() <= 3);
    assert_eq!(universe_of_groups(&groups), universe_of_cover(&set_cover));
}

#[test]
fn greedy_set_cover_test_large_numbers() {
    let groups = vec![
        vec![vec![1_000_000, 2_000_000, 3_000_000]],
        vec![vec![4_000_000, 5_000_000]],
    ];
    let function_input = transform_input(&groups);
    let set_cover = greedy_set_cover_0(&function_input).unwrap();
    assert_eq!(universe_of_groups(&groups), universe_of_cover(&set_cover));
}

#[test]
fn greedy_set_cover_test_duplicate_sets() {
    let groups = vec![
        vec![vec![1, 2, 3], vec![1, 2, 3]],
        vec![vec![4, 5, 6]],
    ];
    let function_input = transform_input(&groups);
    let set_cover = greedy_set_cover_0(&function_input).unwrap();
    assert!(set_cover.len() < function_input.len());
    assert_eq!(universe_of_groups(&groups), universe_of_cover(&set_cover));
}

#[test]
fn greedy_set_cover_test_one_element_per_set() {
    let groups = vec![
        vec![vec![1], vec![2]],
        vec![vec![3], vec![4]],
    ];
    let function_input = transform_input(&groups);
    let set_cover = greedy_set_cover_0(&function_input).unwrap();
    assert_eq!(function_input.len(), set_cover.len());
    assert_eq!(universe_of_groups(&groups), universe_of_cover(&set_cover));
}

#[test]
fn greedy_set_cover_test_nested_sets() {
    let groups = vec![
        vec![vec![1, 2, 3, 4, 5], vec![1, 2, 3]],
        vec![vec![1, 2]],
    ];
    let function_input = transform_input(&groups);
    let set_cover = greedy_set_cover_0(&function_input).unwrap();
    assert_eq!(set_cover.len(), 1);
    assert_eq!(universe_of_groups(&groups), universe_of_cover(&set_cover));
}

#[test]
fn greedy_set_cover_test_large_number_of_small_sets() {
    let mut category1_sets = Vec::new();
    let mut category2_sets = Vec::new();
    for i in 0..50u64 {
        category1_sets.push(vec![i, i + 1]);
        category2_sets.push(vec![i + 50, i + 51]);
    }
    let groups = vec![category1_sets, category2_sets];
    let function_input = transform_input(&groups);
    let set_cover = greedy_set_cover_0(&function_input).unwrap();
    assert!(set_cover.len() < function_input.len());
    assert_eq!(universe_of_groups(&groups), universe_of_cover(&set_cover));
}

#[test]
fn greedy_set_cover_test_complex_deterministic_cases() {
    // Case 1: A clear greedy choice path.
    let groups1 = vec![vec![
        vec![1, 2, 3, 4, 5, 6], // best initial choice
        vec![1, 2, 7],
        vec![3, 4, 8],
        vec![5, 6, 9],
        vec![7, 8, 9, 10], // best second choice
    ]];
    let function_input1 = transform_input(&groups1);
    let set_cover1 = greedy_set_cover_0(&function_input1).unwrap();
    // The optimal greedy cover is 2 sets: {1,2,3,4,5,6} and {7,8,9,10}.
    assert_eq!(set_cover1.len(), 2);
    assert_eq!(universe_of_groups(&groups1), universe_of_cover(&set_cover1));

    // Case 2: A less obvious greedy path.
    let groups2 = vec![vec![
        vec![1, 2, 3],
        vec![4, 5, 6],
        vec![7, 8, 9],
        vec![1, 4, 7],
        vec![2, 5, 8],
        vec![3, 6, 9, 10], // covers one unique element '10'
    ]];
    let function_input2 = transform_input(&groups2);
    let set_cover2 = greedy_set_cover_0(&function_input2).unwrap();
    // An optimal solution is 3 sets, but a greedy one might take more.
    // The only guarantee is coverage.
    assert_eq!(universe_of_groups(&groups2), universe_of_cover(&set_cover2));
}

#[test]
fn test_insert_replaces_entry() {
    let mut c = coll(&[(7, vec![1, 2])]);
    c.insert(7, vec![3]);
    assert_eq!(c.len(), 1);
    assert_eq!(c.get(7).unwrap(), &vec![3]);
    assert!(c.get(8).is_none());
}
