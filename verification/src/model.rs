//! The mathematical model of a set collection and of the greedy selection.
//!
//! A collection is modelled as a sequence of pairs `(id, elements)`.  The
//! functions here define the universe of a collection, the gain of a candidate
//! set against a pool of uncovered elements, and the full greedy selection
//! `spec_greedy`, which both executable selectors are proved to compute.

use vstd::prelude::*;
use vstd::set_lib::lemma_len_subset;

verus! {

/// The identifiers of a collection, in entry order.
pub open spec fn set_ids(sets: Seq<(u64, Seq<u64>)>) -> Seq<u64> {
    sets.map_values(|e: (u64, Seq<u64>)| e.0)
}

/// Every entry carries a distinct identifier.
pub open spec fn uniq_ids(sets: Seq<(u64, Seq<u64>)>) -> bool {
    forall|i: int, j: int| 0 <= i < j < sets.len() ==> sets[i].0 != sets[j].0
}

/// Some entry carries the identifier `id`.
pub open spec fn has_id(sets: Seq<(u64, Seq<u64>)>, id: u64) -> bool {
    exists|i: int| 0 <= i < sets.len() && sets[i].0 == id
}

/// The position of the entry carrying `id` (meaningful when `has_id` holds
/// and identifiers are unique).
pub open spec fn index_of_id(sets: Seq<(u64, Seq<u64>)>, id: u64) -> int {
    choose|i: int| 0 <= i < sets.len() && sets[i].0 == id
}

/// The set of all distinct elements appearing across every entry.
pub open spec fn universe(sets: Seq<(u64, Seq<u64>)>) -> Set<u64>
    decreases sets.len(),
{
    if sets.len() == 0 {
        Set::empty()
    } else {
        universe(sets.drop_last()).union(sets.last().1.to_set())
    }
}

pub proof fn lemma_universe_finite(sets: Seq<(u64, Seq<u64>)>)
    ensures
        universe(sets).finite(),
    decreases sets.len(),
{
    broadcast use vstd::seq_lib::seq_to_set_is_finite;

    if sets.len() != 0 {
        lemma_universe_finite(sets.drop_last());
    }
}

/// An element lies in the universe exactly when some entry holds it.
pub proof fn lemma_universe_membership(sets: Seq<(u64, Seq<u64>)>, e: u64)
    ensures
        universe(sets).contains(e) <==> exists|i: int|
            0 <= i < sets.len() && #[trigger] sets[i].1.to_set().contains(e),
    decreases sets.len(),
{
    if sets.len() != 0 {
        lemma_universe_membership(sets.drop_last(), e);
        if universe(sets).contains(e) {
            if sets.last().1.to_set().contains(e) {
                assert(sets[sets.len() - 1].1.to_set().contains(e));
            } else {
                let i = choose|i: int|
                    0 <= i < sets.drop_last().len() && #[trigger] sets.drop_last()[i].1.to_set().contains(e);
                assert(sets[i].1.to_set().contains(e));
            }
        } else {
            assert forall|i: int|
                0 <= i < sets.len() implies !#[trigger] sets[i].1.to_set().contains(e) by {
                if i < sets.len() - 1 {
                    assert(sets.drop_last()[i] == sets[i]);
                }
            }
        }
    }
}

/// A universe only grows as entries are appended.
pub proof fn lemma_universe_take_step(sets: Seq<(u64, Seq<u64>)>, i: int)
    requires
        0 <= i < sets.len(),
    ensures
        universe(sets.take(i + 1)) == universe(sets.take(i)).union(sets[i].1.to_set()),
{
    assert(sets.take(i + 1).drop_last() =~= sets.take(i));
    assert(sets.take(i + 1).last() == sets[i]);
}

pub proof fn lemma_universe_take_all(sets: Seq<(u64, Seq<u64>)>)
    ensures
        universe(sets.take(sets.len() as int)) == universe(sets),
{
    assert(sets.take(sets.len() as int) =~= sets);
}

/// How many currently uncovered elements the entry at position `i` holds.
pub open spec fn gain(sets: Seq<(u64, Seq<u64>)>, uncovered: Set<u64>, i: int) -> nat {
    uncovered.intersect(sets[i].1.to_set()).len()
}

/// `w` is the entry a greedy round selects: it has positive gain, no entry
/// beats it, and every entry before it does strictly worse (the first seen
/// among equals wins).
pub open spec fn is_best(sets: Seq<(u64, Seq<u64>)>, uncovered: Set<u64>, w: int) -> bool {
    &&& 0 <= w < sets.len()
    &&& gain(sets, uncovered, w) > 0
    &&& forall|i: int| 0 <= i < sets.len() ==> gain(sets, uncovered, i) <= gain(sets, uncovered, w)
    &&& forall|i: int| 0 <= i < w ==> gain(sets, uncovered, i) < gain(sets, uncovered, w)
}

/// Some entry still makes progress against `uncovered`.
pub open spec fn has_candidate(sets: Seq<(u64, Seq<u64>)>, uncovered: Set<u64>) -> bool {
    exists|w: int| is_best(sets, uncovered, w)
}

/// The entry a greedy round selects (meaningful when `has_candidate` holds).
pub open spec fn best_index(sets: Seq<(u64, Seq<u64>)>, uncovered: Set<u64>) -> int {
    choose|w: int| is_best(sets, uncovered, w)
}

/// The sequence of identifiers the greedy loop selects, starting from the
/// pool `uncovered`: while some entry has positive gain, the first entry of
/// maximal gain is selected and its elements leave the pool.
pub open spec fn spec_greedy(sets: Seq<(u64, Seq<u64>)>, uncovered: Set<u64>) -> Seq<u64>
    decreases uncovered.len() when uncovered.finite() via spec_greedy_decreases
{
    if has_candidate(sets, uncovered) {
        let w = best_index(sets, uncovered);
        seq![sets[w].0] + spec_greedy(sets, uncovered.difference(sets[w].1.to_set()))
    } else {
        Seq::empty()
    }
}

#[via_fn]
proof fn spec_greedy_decreases(sets: Seq<(u64, Seq<u64>)>, uncovered: Set<u64>) {
    if has_candidate(sets, uncovered) {
        let w = best_index(sets, uncovered);
        assert(is_best(sets, uncovered, w));
        lemma_removing_gain_shrinks(uncovered, sets[w].1.to_set());
    }
}

/// Taking away a set that meets the pool leaves a strictly smaller pool.
pub proof fn lemma_removing_gain_shrinks(u: Set<u64>, s: Set<u64>)
    requires
        u.finite(),
        u.intersect(s).len() > 0,
    ensures
        u.difference(s).finite(),
        u.difference(s).len() < u.len(),
{
    broadcast use vstd::set_lib::lemma_set_subset_finite;

    assert(u.intersect(s).subset_of(u));
    if u.intersect(s).len() != 0 && u.intersect(s).finite() {
        assert(!u.intersect(s).is_empty());
    }
    let x = u.intersect(s).choose();
    assert(u.contains(x) && s.contains(x));
    assert(u.difference(s).subset_of(u.remove(x)));
    assert(u.remove(x).finite());
    lemma_len_subset(u.difference(s), u.remove(x));
    assert(u.remove(x).len() == u.len() - 1);
}

/// Only one entry can be the round's selection.
pub proof fn lemma_best_unique(sets: Seq<(u64, Seq<u64>)>, uncovered: Set<u64>, w1: int, w2: int)
    requires
        is_best(sets, uncovered, w1),
        is_best(sets, uncovered, w2),
    ensures
        w1 == w2,
{
    if w1 < w2 {
        assert(gain(sets, uncovered, w1) < gain(sets, uncovered, w2));
    }
    if w2 < w1 {
        assert(gain(sets, uncovered, w2) < gain(sets, uncovered, w1));
    }
}

/// One unfolding of `spec_greedy` at a known selection.
pub proof fn lemma_greedy_step(sets: Seq<(u64, Seq<u64>)>, uncovered: Set<u64>, w: int)
    requires
        uncovered.finite(),
        is_best(sets, uncovered, w),
    ensures
        spec_greedy(sets, uncovered) == seq![sets[w].0] + spec_greedy(
            sets,
            uncovered.difference(sets[w].1.to_set()),
        ),
{
    assert(has_candidate(sets, uncovered));
    lemma_best_unique(sets, uncovered, best_index(sets, uncovered), w);
}

/// When no entry makes progress, the selection is over.
pub proof fn lemma_greedy_stuck(sets: Seq<(u64, Seq<u64>)>, uncovered: Set<u64>)
    requires
        uncovered.finite(),
        forall|i: int| 0 <= i < sets.len() ==> gain(sets, uncovered, i) == 0,
    ensures
        spec_greedy(sets, uncovered) == Seq::<u64>::empty(),
{
    if has_candidate(sets, uncovered) {
        let w = best_index(sets, uncovered);
        assert(is_best(sets, uncovered, w));
    }
}

/// `w` would be the selection of a scan over the first `n` entries alone.
pub open spec fn is_best_upto(
    sets: Seq<(u64, Seq<u64>)>,
    uncovered: Set<u64>,
    n: int,
    w: int,
) -> bool {
    &&& 0 <= w < n
    &&& gain(sets, uncovered, w) > 0
    &&& forall|i: int| 0 <= i < n ==> gain(sets, uncovered, i) <= gain(sets, uncovered, w)
    &&& forall|i: int| 0 <= i < w ==> gain(sets, uncovered, i) < gain(sets, uncovered, w)
}

proof fn lemma_best_upto(sets: Seq<(u64, Seq<u64>)>, uncovered: Set<u64>, n: int)
    requires
        0 < n <= sets.len(),
        exists|i: int| 0 <= i < n && #[trigger] gain(sets, uncovered, i) > 0,
    ensures
        exists|w: int| #[trigger] is_best_upto(sets, uncovered, n, w),
    decreases n,
{
    if n == 1 {
        assert(is_best_upto(sets, uncovered, 1, 0));
    } else if exists|i: int| 0 <= i < n - 1 && #[trigger] gain(sets, uncovered, i) > 0 {
        lemma_best_upto(sets, uncovered, n - 1);
        let w = choose|w: int| #[trigger] is_best_upto(sets, uncovered, n - 1, w);
        if gain(sets, uncovered, n - 1) > gain(sets, uncovered, w) {
            assert(is_best_upto(sets, uncovered, n, n - 1));
        } else {
            assert(is_best_upto(sets, uncovered, n, w));
        }
    } else {
        let i = choose|i: int| 0 <= i < n && #[trigger] gain(sets, uncovered, i) > 0;
        assert(i == n - 1);
        assert(is_best_upto(sets, uncovered, n, n - 1));
    }
}

/// Any entry of positive gain means a greedy round can select something.
pub proof fn lemma_candidate_exists(sets: Seq<(u64, Seq<u64>)>, uncovered: Set<u64>)
    requires
        exists|i: int| 0 <= i < sets.len() && #[trigger] gain(sets, uncovered, i) > 0,
    ensures
        has_candidate(sets, uncovered),
{
    lemma_best_upto(sets, uncovered, sets.len() as int);
    let w = choose|w: int| #[trigger] is_best_upto(sets, uncovered, sets.len() as int, w);
    assert(is_best(sets, uncovered, w));
}

/// When no round can select anything, every entry's gain is zero.
pub proof fn lemma_no_candidate_gains(sets: Seq<(u64, Seq<u64>)>, uncovered: Set<u64>)
    requires
        !has_candidate(sets, uncovered),
    ensures
        forall|i: int| 0 <= i < sets.len() ==> gain(sets, uncovered, i) == 0,
{
    assert forall|i: int| 0 <= i < sets.len() implies gain(sets, uncovered, i) == 0 by {
        if gain(sets, uncovered, i) > 0 {
            lemma_candidate_exists(sets, uncovered);
        }
    }
}

/// `e` is one of the collection's entries.
pub open spec fn is_entry_of(sets: Seq<(u64, Seq<u64>)>, e: (u64, Seq<u64>)) -> bool {
    exists|i: int| 0 <= i < sets.len() && sets[i] == e
}

/// When no entry has positive gain, a pool drawn from the sets' own
/// elements must already be exhausted.
pub proof fn lemma_no_candidate_empty(sets: Seq<(u64, Seq<u64>)>, uncovered: Set<u64>)
    requires
        uncovered.finite(),
        uncovered.subset_of(universe(sets)),
        forall|i: int| 0 <= i < sets.len() ==> gain(sets, uncovered, i) == 0,
    ensures
        uncovered.is_empty(),
{
    broadcast use vstd::set_lib::lemma_set_subset_finite;

    if !uncovered.is_empty() {
        let e = uncovered.choose();
        assert(uncovered.contains(e));
        lemma_universe_membership(sets, e);
        let i = choose|i: int|
            0 <= i < sets.len() && #[trigger] sets[i].1.to_set().contains(e);
        let inter = uncovered.intersect(sets[i].1.to_set());
        assert(inter.contains(e));
        assert(inter.subset_of(uncovered));
        if inter.len() == 0 {
            inter.lemma_len0_is_empty();
        }
        assert(gain(sets, uncovered, i) > 0);
    }
}

/// Distinct identifiers make the identifier sequence duplicate-free, so it
/// has as many distinct values as the collection has entries.
pub proof fn lemma_ids_no_dup(sets: Seq<(u64, Seq<u64>)>)
    requires
        uniq_ids(sets),
    ensures
        set_ids(sets).no_duplicates(),
        set_ids(sets).to_set().len() == sets.len(),
        set_ids(sets).to_set().finite(),
{
    broadcast use vstd::seq_lib::seq_to_set_is_finite;

    assert(set_ids(sets).no_duplicates());
    set_ids(sets).unique_seq_to_set();
}

/// A cover that has drawn as many distinct entries as the collection holds
/// has drawn them all, and so covers everything the pool could ask for.
pub proof fn lemma_all_chosen_empty(
    sets: Seq<(u64, Seq<u64>)>,
    cover: Seq<(u64, Seq<u64>)>,
    uncovered: Set<u64>,
)
    requires
        uniq_ids(sets),
        uniq_ids(cover),
        forall|j: int| 0 <= j < cover.len() ==> #[trigger] is_entry_of(sets, cover[j]),
        cover.len() == sets.len(),
        uncovered.finite(),
        uncovered.subset_of(universe(sets)),
        universe(cover) == universe(sets).difference(uncovered),
    ensures
        uncovered.is_empty(),
{
    let si = set_ids(sets).to_set();
    let ci = set_ids(cover).to_set();
    lemma_ids_no_dup(sets);
    lemma_ids_no_dup(cover);
    assert forall|id: u64| ci.contains(id) implies si.contains(id) by {
        let j = choose|j: int| 0 <= j < set_ids(cover).len() && set_ids(cover)[j] == id;
        assert(is_entry_of(sets, cover[j]));
        let i = choose|i: int| 0 <= i < sets.len() && sets[i] == cover[j];
        assert(set_ids(sets)[i] == id);
        assert(set_ids(sets).contains(id));
    }
    vstd::set_lib::lemma_subset_equality(ci, si);
    if !uncovered.is_empty() {
        let e = uncovered.choose();
        assert(uncovered.contains(e));
        assert(universe(sets).contains(e));
        lemma_universe_membership(sets, e);
        let i = choose|i: int|
            0 <= i < sets.len() && #[trigger] sets[i].1.to_set().contains(e);
        assert(set_ids(sets)[i] == sets[i].0);
        assert(set_ids(sets).contains(sets[i].0));
        assert(ci.contains(sets[i].0));
        let j = choose|j: int|
            0 <= j < set_ids(cover).len() && set_ids(cover)[j] == sets[i].0;
        assert(cover[j].0 == sets[i].0);
        assert(is_entry_of(sets, cover[j]));
        let k = choose|k: int| 0 <= k < sets.len() && sets[k] == cover[j];
        assert(sets[k].0 == sets[i].0);
        assert(k == i) by {
            if k != i {
                assert(sets[k].0 != sets[i].0);
            }
        }
        assert(cover[j] == sets[i]);
        lemma_universe_membership(cover, e);
        assert(cover[j].1.to_set().contains(e));
        assert(universe(cover).contains(e));
        assert(!uncovered.contains(e));
    }
}

/// A winning entry cannot already stand in the cover: everything a chosen
/// entry holds has left the pool, while a winner still meets it.
pub proof fn lemma_winner_new(
    sets: Seq<(u64, Seq<u64>)>,
    cover: Seq<(u64, Seq<u64>)>,
    uncovered: Set<u64>,
    b: int,
)
    requires
        uniq_ids(sets),
        forall|j: int| 0 <= j < cover.len() ==> #[trigger] is_entry_of(sets, cover[j]),
        universe(cover) == universe(sets).difference(uncovered),
        uncovered.finite(),
        0 <= b < sets.len(),
        gain(sets, uncovered, b) > 0,
    ensures
        !has_id(cover, sets[b].0),
{
    broadcast use vstd::set_lib::lemma_set_subset_finite;

    if has_id(cover, sets[b].0) {
        let j = choose|j: int| 0 <= j < cover.len() && cover[j].0 == sets[b].0;
        assert(is_entry_of(sets, cover[j]));
        let k = choose|k: int| 0 <= k < sets.len() && sets[k] == cover[j];
        assert(sets[k].0 == sets[b].0);
        assert(k == b) by {
            if k != b {
                assert(sets[k].0 != sets[b].0);
            }
        }
        let inter = uncovered.intersect(sets[b].1.to_set());
        assert(inter.subset_of(uncovered));
        if inter.len() != 0 {
            let e = inter.choose();
            assert(inter.contains(e)) by {
                if inter.is_empty() {
                    assert(inter.len() == 0);
                }
            }
            assert(cover[j].1.to_set().contains(e));
            lemma_universe_membership(cover, e);
            assert(universe(cover).contains(e));
            assert(!uncovered.contains(e));
        }
    }
}

} // verus!
