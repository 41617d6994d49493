//! The direct greedy selector: each round materializes, for every set, its
//! intersection with the still-uncovered elements, and picks the first set
//! with the strictly largest intersection.

use std::collections::HashSet;

use vstd::prelude::*;

use crate::collection::SetCollection;
use crate::model::{
    gain, is_best, is_entry_of, lemma_all_chosen_empty, lemma_greedy_step, lemma_greedy_stuck,
    lemma_no_candidate_empty, lemma_universe_finite, lemma_universe_membership,
    lemma_universe_take_all, lemma_universe_take_step, lemma_winner_new, set_ids, spec_greedy,
    universe,
};
use crate::CoverError;

verus! {

broadcast use vstd::std_specs::hash::group_hash_axioms;

/// Finds an approximate solution to the set cover problem with the greedy
/// heuristic, working directly on hash sets of elements.
///
/// The returned subcollection selects, in order, the sets `spec_greedy`
/// describes; its entries are entries of the input, and their elements
/// together cover exactly the union of all input elements.  The uncoverable
/// case cannot arise — the pool starts as the union of the searched sets —
/// so the result is always `Ok`.
pub fn greedy_set_cover_0(sets: &SetCollection) -> (r: Result<SetCollection, CoverError>)
    requires
        sets.wf(),
    ensures
        r is Ok,
        ({
            let c = r->Ok_0;
            &&& c.wf()
            &&& set_ids(c@) == spec_greedy(sets@, universe(sets@))
            &&& forall|j: int| 0 <= j < c@.len() ==> #[trigger] is_entry_of(sets@, c@[j])
            &&& universe(c@) == universe(sets@)
            &&& c@.len() <= sets@.len()
        }),
{
    let n = sets.len();

    // The pool of not-yet-covered elements starts as the union of every set.
    let mut uncovered: HashSet<u64> = HashSet::new();
    proof {
        assert(uncovered@ =~= universe(sets@.take(0)));
    }
    for i in 0..n
        invariant
            n == sets@.len(),
            uncovered@ == universe(sets@.take(i as int)),
    {
        let elems = sets.elems_at(i);
        let m = elems.len();
        for j in 0..m
            invariant
                n == sets@.len(),
                i < n,
                m == sets@[i as int].1.len(),
                elems@ == sets@[i as int].1,
                uncovered@ == universe(sets@.take(i as int)).union(
                    sets@[i as int].1.take(j as int).to_set(),
                ),
        {
            uncovered.insert(elems[j]);
            proof {
                assert(sets@[i as int].1.take(j as int).push(sets@[i as int].1[j as int])
                    =~= sets@[i as int].1.take(j + 1));
                broadcast use vstd::prelude::Seq::lemma_push_to_set_commute;

                assert(uncovered@ =~= universe(sets@.take(i as int)).union(
                    sets@[i as int].1.take(j + 1).to_set(),
                ));
            }
        }
        proof {
            lemma_universe_take_step(sets@, i as int);
            assert(sets@[i as int].1.take(sets@[i as int].1.len() as int) =~= sets@[i as int].1);
            assert(uncovered@ =~= universe(sets@.take(i + 1)));
        }
    }
    proof {
        lemma_universe_take_all(sets@);
        lemma_universe_finite(sets@);
    }

    let ghost g = spec_greedy(sets@, universe(sets@));
    let mut cover = SetCollection::new();

    let mut round: usize = 0;
    while round < n
        invariant_except_break
            round <= n,
            cover@.len() == round,
        invariant
            n == sets@.len(),
            sets.wf(),
            cover.wf(),
            uncovered@.finite(),
            uncovered@.subset_of(universe(sets@)),
            universe(cover@) == universe(sets@).difference(uncovered@),
            forall|j: int| 0 <= j < cover@.len() ==> #[trigger] is_entry_of(sets@, cover@[j]),
            set_ids(cover@) + spec_greedy(sets@, uncovered@) == g,
            cover@.len() <= n,
        ensures
            uncovered@.is_empty() || cover@.len() == n,
        decreases n - round,
    {
        if uncovered.is_empty() {
            proof {
                uncovered@.lemma_len0_is_empty();
            }
            break ;
        }

        // Scan every set for the one covering the most uncovered elements.
        let mut best: Option<usize> = None;
        let mut best_count: usize = 0;
        let mut best_covered: HashSet<u64> = HashSet::new();
        for i in 0..n
            invariant
                n == sets@.len(),
                sets.wf(),
                uncovered@.finite(),
                best is None ==> best_count == 0,
                best matches Some(b) ==> 0 <= b < i && best_count > 0 && gain(
                    sets@,
                    uncovered@,
                    b as int,
                ) == best_count && best_covered@ == uncovered@.intersect(
                    sets@[b as int].1.to_set(),
                ),
                forall|k: int| 0 <= k < i ==> gain(sets@, uncovered@, k) <= best_count,
                best matches Some(b) ==> forall|k: int|
                    0 <= k < b ==> gain(sets@, uncovered@, k) < best_count,
        {
            let elems = sets.elems_at(i);
            let m = elems.len();
            let mut covered: HashSet<u64> = HashSet::new();
            proof {
                assert(covered@ =~= uncovered@.intersect(sets@[i as int].1.take(0).to_set()));
            }
            for j in 0..m
                invariant
                    n == sets@.len(),
                    i < n,
                    m == sets@[i as int].1.len(),
                    elems@ == sets@[i as int].1,
                    uncovered@.finite(),
                    covered@ == uncovered@.intersect(sets@[i as int].1.take(j as int).to_set()),
            {
                let e = elems[j];
                if uncovered.contains(&e) {
                    covered.insert(e);
                }
                proof {
                    assert(sets@[i as int].1.take(j as int).push(sets@[i as int].1[j as int])
                        =~= sets@[i as int].1.take(j + 1));
                    broadcast use vstd::prelude::Seq::lemma_push_to_set_commute;

                    assert(covered@ =~= uncovered@.intersect(
                        sets@[i as int].1.take(j + 1).to_set(),
                    ));
                }
            }
            proof {
                assert(sets@[i as int].1.take(sets@[i as int].1.len() as int)
                    =~= sets@[i as int].1);
                assert(covered@ == uncovered@.intersect(sets@[i as int].1.to_set()));
                broadcast use vstd::set_lib::lemma_set_subset_finite;

                assert(covered@.subset_of(uncovered@));
            }
            let count = covered.len();
            if count > best_count {
                best = Some(i);
                best_count = count;
                best_covered = covered;
            }
        }

        match best {
            Some(b) => {
                proof {
                    assert(is_best(sets@, uncovered@, b as int));
                    lemma_greedy_step(sets@, uncovered@, b as int);
                    lemma_winner_new(sets@, cover@, uncovered@, b as int);
                }
                let ghost u0 = uncovered@;
                let id = sets.id_at(b);
                let elems = sets.elems_at(b);
                let m = elems.len();
                // Remove the selected set's elements from the pool, keeping a
                // copy of the set for the cover.
                let mut chosen_elems: Vec<u64> = Vec::new();
                proof {
                    assert(uncovered@ =~= u0.difference(sets@[b as int].1.take(0).to_set()));
                }
                for j in 0..m
                    invariant
                        n == sets@.len(),
                        b < n,
                        m == sets@[b as int].1.len(),
                        elems@ == sets@[b as int].1,
                        u0.finite(),
                        chosen_elems@ == sets@[b as int].1.take(j as int),
                        uncovered@ == u0.difference(sets@[b as int].1.take(j as int).to_set()),
                {
                    let e = elems[j];
                    chosen_elems.push(e);
                    uncovered.remove(&e);
                    proof {
                        assert(sets@[b as int].1.take(j as int).push(sets@[b as int].1[j as int])
                            =~= sets@[b as int].1.take(j + 1));
                        broadcast use vstd::prelude::Seq::lemma_push_to_set_commute;

                        assert(uncovered@ =~= u0.difference(
                            sets@[b as int].1.take(j + 1).to_set(),
                        ));
                    }
                }
                proof {
                    assert(sets@[b as int].1.take(sets@[b as int].1.len() as int)
                        =~= sets@[b as int].1);
                    assert(uncovered@ == u0.difference(sets@[b as int].1.to_set()));
                }
                let ghost cover0 = cover@;
                cover.push_entry(id, chosen_elems);
                proof {
                    let entry = (sets@[b as int].0, sets@[b as int].1);
                    assert(cover@ == cover0.push(entry));
                    assert(cover@[cover@.len() - 1] == sets@[b as int]);
                    assert(is_entry_of(sets@, cover@[cover@.len() - 1]));
                    assert forall|j: int|
                        0 <= j < cover@.len() implies #[trigger] is_entry_of(sets@, cover@[j]) by {
                        if j < cover0.len() {
                            assert(cover@[j] == cover0[j]);
                        }
                    }
                    // The new cover's universe absorbs the selected set.
                    assert(cover@.drop_last() =~= cover0);
                    assert(universe(cover@) == universe(cover0).union(
                        sets@[b as int].1.to_set(),
                    ));
                    assert forall|e: u64| universe(cover@).contains(e)
                        <==> universe(sets@).difference(uncovered@).contains(e) by {
                        if sets@[b as int].1.to_set().contains(e) {
                            lemma_universe_membership(sets@, e);
                            assert(universe(sets@).contains(e));
                        }
                    }
                    assert(universe(cover@) =~= universe(sets@).difference(uncovered@));
                    // The trace of selections made so far extends by the winner.
                    assert(set_ids(cover@) =~= set_ids(cover0).push(sets@[b as int].0));
                    assert(set_ids(cover@) + spec_greedy(sets@, uncovered@) =~= set_ids(cover0)
                        + (seq![sets@[b as int].0] + spec_greedy(sets@, uncovered@)));
                }
            },
            None => {
                // Nothing gains, yet elements remain: impossible when the
                // pool is the union of the searched sets themselves.
                proof {
                    lemma_no_candidate_empty(sets@, uncovered@);
                    assert(false);
                }
                return Err(CoverError::UncoverableInput);
            },
        }
        round = round + 1;
    }

    if !uncovered.is_empty() {
        // The round budget is exhausted with elements left over: impossible,
        // since by then every set has been drawn into the cover.
        proof {
            lemma_all_chosen_empty(sets@, cover@, uncovered@);
            assert(false);
        }
        return Err(CoverError::UncoverableInput);
    }
    proof {
        uncovered@.lemma_len0_is_empty();
        assert forall|i: int|
            0 <= i < sets@.len() implies gain(sets@, uncovered@, i) == 0 by {
            assert(uncovered@.intersect(sets@[i].1.to_set()) =~= Set::empty());
        }
        lemma_greedy_stuck(sets@, uncovered@);
        assert(set_ids(cover@) + Seq::<u64>::empty() =~= set_ids(cover@));
        assert(universe(cover@) =~= universe(sets@));
    }
    Ok(cover)
}

} // verus!
