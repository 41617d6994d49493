use setcover::bitset::greedy_set_cover_1;
use setcover::collection::SetCollection;
use setcover::greedy_set_cover::greedy_set_cover_0;
use setcover::{greedy_set_cover, CoverError};

fn coll(entries: &[(u64, Vec<u64>)]) -> SetCollection {
    let mut c = SetCollection::new();
    for (id, elems) in entries {
        c.insert(*id, elems.clone());
    }
    c
}

#[test]
fn test_dominant_set_is_the_whole_cover() {
    // One set's intersection size strictly dominates any other single set,
    // so the cover is exactly that set, in both modes.
    let sets = coll(&[(1, vec![1, 2, 3]), (2, vec![1, 2]), (3, vec![2])]);
    assert_eq!(greedy_set_cover_0(&sets).unwrap().ids(), vec![1]);
    assert_eq!(greedy_set_cover_1(&sets).unwrap(), vec![1]);
    assert_eq!(greedy_set_cover(&sets, 0).unwrap(), vec![1]);
    assert_eq!(greedy_set_cover(&sets, 1).unwrap(), vec![1]);
}

#[test]
fn test_two_round_selection_order() {
    // The first round covers 6 of 10 elements with set 1, the second the
    // remaining 4 with set 5; both modes select them in that order.
    let sets = coll(&[
        (1, vec![1, 2, 3, 4, 5, 6]),
        (2, vec![1, 2, 7]),
        (3, vec![3, 4, 8]),
        (4, vec![5, 6, 9]),
        (5, vec![7, 8, 9, 10]),
    ]);
    assert_eq!(greedy_set_cover_0(&sets).unwrap().ids(), vec![1, 5]);
    assert_eq!(greedy_set_cover_1(&sets).unwrap(), vec![1, 5]);
}

#[test]
fn test_unknown_algorithm_is_refused() {
    let sets = coll(&[(1, vec![1])]);
    assert_eq!(greedy_set_cover(&sets, 2), Err(CoverError::ConfigurationError));
    assert_eq!(greedy_set_cover(&sets, -1), Err(CoverError::ConfigurationError));
}

#[test]
fn test_empty_collection() {
    let sets = SetCollection::new();
    assert_eq!(greedy_set_cover_0(&sets).unwrap().len(), 0);
    assert_eq!(greedy_set_cover_1(&sets).unwrap(), Vec::<u64>::new());
}

#[test]
fn test_only_empty_sets() {
    // An empty universe needs no sets at all.
    let sets = coll(&[(1, vec![]), (2, vec![])]);
    assert_eq!(greedy_set_cover_0(&sets).unwrap().len(), 0);
    assert_eq!(greedy_set_cover_1(&sets).unwrap(), Vec::<u64>::new());
}

#[test]
fn test_empty_sets_never_selected() {
    // Adding an empty set anywhere changes nothing about the cover.
    let without = coll(&[(1, vec![1, 2]), (2, vec![2, 3])]);
    let with = coll(&[(1, vec![1, 2]), (9, vec![]), (2, vec![2, 3])]);
    assert_eq!(
        greedy_set_cover_0(&without).unwrap().ids(),
        greedy_set_cover_0(&with).unwrap().ids(),
    );
    assert_eq!(
        greedy_set_cover_1(&without).unwrap(),
        greedy_set_cover_1(&with).unwrap(),
    );
}

#[test]
fn test_cover_never_larger_than_input() {
    let sets = coll(&[
        (10, vec![1, 2]),
        (11, vec![2, 3]),
        (12, vec![3, 4]),
        (13, vec![1, 4]),
    ]);
    let cover = greedy_set_cover_0(&sets).unwrap();
    assert!(cover.len() <= sets.len());
    let cover_1 = greedy_set_cover_1(&sets).unwrap();
    assert!(cover_1.len() <= sets.len());
}

#[test]
fn test_modes_agree_on_ties() {
    // Ties everywhere: both modes walk the entries in the same order, so
    // they return identical covers, not merely equal coverage.
    let sets = coll(&[(4, vec![1, 2]), (2, vec![2, 1]), (3, vec![3])]);
    assert_eq!(
        greedy_set_cover_0(&sets).unwrap().ids(),
        greedy_set_cover_1(&sets).unwrap(),
    );
}

#[test]
fn test_cover_entries_carry_their_elements() {
    let sets = coll(&[(5, vec![8, 9]), (6, vec![9])]);
    let cover = greedy_set_cover_0(&sets).unwrap();
    assert_eq!(cover.ids(), vec![5]);
    assert_eq!(cover.get(5).unwrap(), &vec![8, 9]);
}
