//! Random test-data generation: draws a collection of sets with random
//! elements, for exercising the cover selectors.

use std::collections::HashSet;

use rand::Rng;
use vstd::prelude::*;

verus! {

broadcast use vstd::std_specs::hash::group_hash_axioms;

/// How many elements the drawn sets hold altogether.
pub open spec fn total_drawn(sets: Seq<HashSet<u32>>) -> nat
    decreases sets.len(),
{
    if sets.len() == 0 {
        0
    } else {
        total_drawn(sets.drop_last()) + sets.last()@.len()
    }
}

proof fn lemma_total_drawn_at_least(sets: Seq<HashSet<u32>>, i: int)
    requires
        0 <= i < sets.len(),
    ensures
        total_drawn(sets) >= sets[i]@.len(),
    decreases sets.len(),
{
    if i < sets.len() - 1 {
        lemma_total_drawn_at_least(sets.drop_last(), i);
    }
}

proof fn lemma_total_drawn_update(sets: Seq<HashSet<u32>>, i: int, x: HashSet<u32>)
    requires
        0 <= i < sets.len(),
    ensures
        total_drawn(sets.update(i, x)) + sets[i]@.len() == total_drawn(sets) + x@.len(),
    decreases sets.len(),
{
    if i == sets.len() - 1 {
        assert(sets.update(i, x).drop_last() =~= sets.drop_last());
    } else {
        assert(sets.update(i, x).drop_last() =~= sets.drop_last().update(i, x));
        lemma_total_drawn_update(sets.drop_last(), i, x);
    }
}

/// Relies on rand's `thread_rng` and `Rng::gen_range` over `0..=max`: a value
/// between 0 and `max` inclusive.  Which one comes back depends on the
/// generator's state, so nothing more is promised of it.
#[verifier::external_body]
fn draw_single_int(max: u32) -> (r: u32)
    ensures
        r <= max,
{
    let mut rng = rand::thread_rng();
    rng.gen_range(0..=max)
}

/// Generates `n_sets` sets and distributes `n_elements` random draws of
/// elements up to `max_elements` across them.
///
/// Some sets may receive more elements than others, and some may stay empty;
/// duplicates within one set collapse, so the total count of stored elements
/// is at most `n_elements` — and at least one element is stored whenever at
/// least one is drawn.
pub fn draw_set_collection(n_sets: u32, n_elements: usize, max_elements: u32) -> (r: Vec<
    HashSet<u32>,
>)
    requires
        n_sets >= 1,
    ensures
        r@.len() == n_sets as nat,
        forall|i: int, e: u32|
            0 <= i < r@.len() && #[trigger] r@[i]@.contains(e) ==> e <= max_elements,
        total_drawn(r@) <= n_elements,
        n_elements >= 1 ==> total_drawn(r@) >= 1,
{
    let mut sets: Vec<HashSet<u32>> = Vec::new();
    for i in 0..n_sets
        invariant
            sets@.len() == i as nat,
            forall|k: int| 0 <= k < sets@.len() ==> #[trigger] sets@[k]@ == Set::<u32>::empty(),
            total_drawn(sets@) == 0,
    {
        let ghost before = sets@;
        sets.push(HashSet::new());
        proof {
            assert(sets@.drop_last() =~= before);
        }
    }
    for k in 0..n_elements
        invariant
            n_sets >= 1,
            sets@.len() == n_sets as nat,
            forall|i: int| 0 <= i < sets@.len() ==> (#[trigger] sets@[i]@).finite(),
            forall|i: int, e: u32|
                0 <= i < sets@.len() && #[trigger] sets@[i]@.contains(e) ==> e <= max_elements,
            total_drawn(sets@) <= k,
            k >= 1 ==> total_drawn(sets@) >= 1,
    {
        let element = draw_single_int(max_elements);
        let i_set = draw_single_int(n_sets - 1) as usize;
        let ghost before = sets@;
        let mut chosen_set = sets.remove(i_set);
        let ghost old_view = chosen_set@;
        chosen_set.insert(element);
        sets.insert(i_set, chosen_set);
        proof {
            assert(sets@ =~= before.update(i_set as int, chosen_set));
            lemma_total_drawn_update(before, i_set as int, chosen_set);
            assert(chosen_set@ == old_view.insert(element));
            if old_view.contains(element) {
                assert(old_view.insert(element) =~= old_view);
            }
            assert(old_view.len() <= chosen_set@.len() <= old_view.len() + 1);
            if chosen_set@.len() == 0 {
                chosen_set@.lemma_len0_is_empty();
                assert(!chosen_set@.contains(element));
            }
            lemma_total_drawn_at_least(sets@, i_set as int);
        }
    }
    sets
}

} // verus!
