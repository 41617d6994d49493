//! Laws of the greedy selection, stated and proved over the model that both
//! selectors' contracts use.

use vstd::prelude::*;
use vstd::set_lib::{lemma_len_intersect, lemma_len_subset, lemma_subset_equality};

use crate::model::{
    gain, has_candidate, index_of_id, is_best, lemma_candidate_exists,
    lemma_greedy_step, lemma_greedy_stuck, lemma_ids_no_dup, lemma_no_candidate_empty,
    lemma_no_candidate_gains, lemma_removing_gain_shrinks, lemma_universe_finite,
    lemma_universe_membership, set_ids, spec_greedy, uniq_ids, universe,
};

verus! {

broadcast use vstd::set_lib::lemma_set_subset_finite;

/// The elements of the set named `id` (meaningful when identifiers are unique
/// and some entry carries `id`).
pub open spec fn elems_of_id(sets: Seq<(u64, Seq<u64>)>, id: u64) -> Seq<u64> {
    sets[index_of_id(sets, id)].1
}

/// The union of the elements of the sets a cover names, in selection order.
pub open spec fn covered_by_ids(sets: Seq<(u64, Seq<u64>)>, ids: Seq<u64>) -> Set<u64>
    decreases ids.len(),
{
    if ids.len() == 0 {
        Set::empty()
    } else {
        elems_of_id(sets, ids[0]).to_set().union(covered_by_ids(sets, ids.drop_first()))
    }
}

/// With unique identifiers, the entry named by an entry's own identifier is
/// that entry.
pub proof fn lemma_index_of_own_id(sets: Seq<(u64, Seq<u64>)>, w: int)
    requires
        uniq_ids(sets),
        0 <= w < sets.len(),
    ensures
        index_of_id(sets, sets[w].0) == w,
{
    let i = index_of_id(sets, sets[w].0);
    assert(0 <= i < sets.len() && sets[i].0 == sets[w].0);
    if i != w {
        assert(sets[i].0 != sets[w].0);
    }
}

/// Every identifier the greedy selection returns names an entry that still
/// met the pool when the selection started, and no identifier is returned
/// twice.
pub proof fn lemma_greedy_ids(sets: Seq<(u64, Seq<u64>)>, u: Set<u64>)
    requires
        u.finite(),
        uniq_ids(sets),
    ensures
        spec_greedy(sets, u).no_duplicates(),
        forall|j: int| 0 <= j < spec_greedy(sets, u).len() ==> exists|i: int|
            0 <= i < sets.len() && sets[i].0 == #[trigger] spec_greedy(sets, u)[j] && gain(
                sets,
                u,
                i,
            ) > 0,
    decreases u.len(),
{
    if has_candidate(sets, u) {
        let w = best_index_of(sets, u);
        let su = sets[w].1.to_set();
        let u2 = u.difference(su);
        lemma_removing_gain_shrinks(u, su);
        lemma_greedy_step(sets, u, w);
        lemma_greedy_ids(sets, u2);
        let g = spec_greedy(sets, u);
        let g2 = spec_greedy(sets, u2);
        assert(g =~= seq![sets[w].0] + g2);
        assert forall|j: int| 0 <= j < g.len() implies exists|i: int|
            0 <= i < sets.len() && sets[i].0 == #[trigger] g[j] && gain(sets, u, i) > 0 by {
            if j == 0 {
                assert(sets[w].0 == g[0] && gain(sets, u, w) > 0);
            } else {
                assert(g[j] == g2[j - 1]);
                let i = choose|i: int|
                    0 <= i < sets.len() && sets[i].0 == g2[j - 1] && #[trigger] gain(
                        sets,
                        u2,
                        i,
                    ) > 0;
                lemma_gain_monotone(sets, u2, u, i);
            }
        }
        assert forall|j1: int, j2: int| 0 <= j1 < j2 < g.len() implies g[j1] != g[j2] by {
            if j1 == 0 {
                if g[j2] == sets[w].0 {
                    let i = choose|i: int|
                        0 <= i < sets.len() && sets[i].0 == g2[j2 - 1] && #[trigger] gain(
                            sets,
                            u2,
                            i,
                        ) > 0;
                    if i != w {
                        assert(sets[i].0 != sets[w].0);
                    }
                    assert(u2.intersect(su) =~= Set::<u64>::empty());
                }
            } else {
                assert(g2[j1 - 1] != g2[j2 - 1]);
            }
        }
    } else {
        assert(spec_greedy(sets, u) =~= Seq::<u64>::empty());
    }
}

/// A selection found against a smaller pool still has gain against a larger
/// one.
proof fn lemma_gain_monotone(sets: Seq<(u64, Seq<u64>)>, u_small: Set<u64>, u_big: Set<u64>, i: int)
    requires
        u_big.finite(),
        u_small.subset_of(u_big),
        0 <= i < sets.len(),
        gain(sets, u_small, i) > 0,
    ensures
        gain(sets, u_big, i) > 0,
{
    let su = sets[i].1.to_set();
    let e = u_small.intersect(su).choose();
    assert(u_small.intersect(su).contains(e)) by {
        if u_small.intersect(su).is_empty() {
            assert(u_small.intersect(su).len() == 0);
        }
    }
    assert(u_big.intersect(su).contains(e));
    if u_big.intersect(su).len() == 0 {
        u_big.intersect(su).lemma_len0_is_empty();
    }
}

/// The entry a round selects, together with the step it contributes.
proof fn best_index_of(sets: Seq<(u64, Seq<u64>)>, u: Set<u64>) -> (w: int)
    requires
        u.finite(),
        has_candidate(sets, u),
    ensures
        is_best(sets, u, w),
        spec_greedy(sets, u) == seq![sets[w].0] + spec_greedy(
            sets,
            u.difference(sets[w].1.to_set()),
        ),
{
    let w = crate::model::best_index(sets, u);
    assert(is_best(sets, u, w));
    lemma_greedy_step(sets, u, w);
    w
}

/// The cover never holds more sets than the input collection.
pub proof fn lemma_cover_size(sets: Seq<(u64, Seq<u64>)>, u: Set<u64>)
    requires
        u.finite(),
        uniq_ids(sets),
    ensures
        spec_greedy(sets, u).len() <= sets.len(),
{
    broadcast use vstd::seq_lib::seq_to_set_is_finite;

    lemma_greedy_ids(sets, u);
    let g = spec_greedy(sets, u);
    g.unique_seq_to_set();
    lemma_ids_no_dup(sets);
    assert forall|id: u64| g.to_set().contains(id) implies set_ids(sets).to_set().contains(
        id,
    ) by {
        let j = choose|j: int| 0 <= j < g.len() && g[j] == id;
        let i = choose|i: int|
            0 <= i < sets.len() && sets[i].0 == #[trigger] g[j] && gain(sets, u, i) > 0;
        assert(set_ids(sets)[i] == id);
        assert(set_ids(sets).contains(id));
    }
    lemma_len_subset(g.to_set(), set_ids(sets).to_set());
}

/// The selection covers the whole pool it was started with, and never
/// reaches outside the universe.
pub proof fn lemma_greedy_covers(sets: Seq<(u64, Seq<u64>)>, u: Set<u64>)
    requires
        u.finite(),
        uniq_ids(sets),
        u.subset_of(universe(sets)),
    ensures
        u.subset_of(covered_by_ids(sets, spec_greedy(sets, u))),
        covered_by_ids(sets, spec_greedy(sets, u)).subset_of(universe(sets)),
    decreases u.len(),
{
    let g = spec_greedy(sets, u);
    if has_candidate(sets, u) {
        let w = best_index_of(sets, u);
        let su = sets[w].1.to_set();
        let u2 = u.difference(su);
        lemma_removing_gain_shrinks(u, su);
        lemma_greedy_covers(sets, u2);
        let g2 = spec_greedy(sets, u2);
        lemma_index_of_own_id(sets, w);
        assert(g.drop_first() =~= g2);
        assert(g[0] == sets[w].0);
        assert(covered_by_ids(sets, g) == su.union(covered_by_ids(sets, g2)));
        assert forall|e: u64| u.contains(e) implies covered_by_ids(sets, g).contains(e) by {
            if su.contains(e) {
            } else {
                assert(u2.contains(e));
            }
        }
        assert forall|e: u64| su.contains(e) implies universe(sets).contains(e) by {
            assert(sets[w].1.to_set().contains(e));
            lemma_universe_membership(sets, e);
        }
    } else {
        lemma_no_candidate_gains(sets, u);
        lemma_no_candidate_empty(sets, u);
        assert(g =~= Seq::<u64>::empty());
    }
}

/// For every input, the union of the elements of the returned cover equals
/// the union of the elements of all input sets — with either selector, since
/// both return exactly `spec_greedy`.
pub proof fn lemma_greedy_coverage(sets: Seq<(u64, Seq<u64>)>)
    requires
        uniq_ids(sets),
    ensures
        covered_by_ids(sets, spec_greedy(sets, universe(sets))) == universe(sets),
{
    lemma_universe_finite(sets);
    lemma_greedy_covers(sets, universe(sets));
    assert(covered_by_ids(sets, spec_greedy(sets, universe(sets))) =~= universe(sets));
}

/// If one input set's elements equal the full universe, and elements exist at
/// all, the cover has exactly one member, and that member's elements are the
/// full universe.
pub proof fn lemma_full_set_single(sets: Seq<(u64, Seq<u64>)>, k: int)
    requires
        uniq_ids(sets),
        0 <= k < sets.len(),
        sets[k].1.to_set() == universe(sets),
        universe(sets) != Set::<u64>::empty(),
    ensures
        spec_greedy(sets, universe(sets)).len() == 1,
        elems_of_id(sets, spec_greedy(sets, universe(sets))[0]).to_set() == universe(sets),
{
    let uni = universe(sets);
    lemma_universe_finite(sets);
    assert(uni.intersect(sets[k].1.to_set()) =~= uni);
    if uni.len() == 0 {
        uni.lemma_len0_is_empty();
    }
    assert(gain(sets, uni, k) > 0);
    lemma_candidate_exists(sets, uni);
    let w = best_index_of(sets, uni);
    let sw = sets[w].1.to_set();
    // The winner's gain matches the full set's, so it covers everything.
    assert(gain(sets, uni, k) <= gain(sets, uni, w));
    lemma_len_intersect(uni, sw);
    assert(gain(sets, uni, w) == uni.len());
    assert(uni.intersect(sw).subset_of(uni));
    lemma_subset_equality(uni.intersect(sw), uni);
    assert forall|e: u64| uni.contains(e) implies sw.contains(e) by {
        assert(uni.intersect(sw).contains(e));
    }
    let u2 = uni.difference(sw);
    assert(u2 =~= Set::<u64>::empty());
    assert forall|i: int| 0 <= i < sets.len() implies gain(sets, u2, i) == 0 by {
        assert(u2.intersect(sets[i].1.to_set()) =~= Set::<u64>::empty());
    }
    lemma_greedy_stuck(sets, u2);
    let g = spec_greedy(sets, uni);
    assert(g =~= seq![sets[w].0]);
    lemma_index_of_own_id(sets, w);
    assert(sw.subset_of(uni)) by {
        assert forall|e: u64| sw.contains(e) implies uni.contains(e) by {
            assert(sets[w].1.to_set().contains(e));
            lemma_universe_membership(sets, e);
        }
    }
    assert(elems_of_id(sets, g[0]).to_set() =~= uni);
}

/// No two entries share an element.
pub open spec fn pairwise_disjoint(sets: Seq<(u64, Seq<u64>)>) -> bool {
    forall|i: int, j: int|
        0 <= i < sets.len() && 0 <= j < sets.len() && i != j ==> #[trigger] sets[i].1.to_set()
            .intersect(sets[j].1.to_set()) == Set::<u64>::empty()
}

/// The identifiers of the entries that still meet the pool.
pub open spec fn ids_with_gain(sets: Seq<(u64, Seq<u64>)>, u: Set<u64>) -> Set<u64> {
    Set::new(
        |id: u64|
            exists|i: int|
                0 <= i < sets.len() && sets[i].0 == id && #[trigger] gain(sets, u, i) > 0,
    )
}

/// Over pairwise-disjoint entries, the selection drains every entry that
/// meets the pool: taking one entry never lowers another's gain.
proof fn lemma_disjoint_greedy(sets: Seq<(u64, Seq<u64>)>, u: Set<u64>)
    requires
        uniq_ids(sets),
        pairwise_disjoint(sets),
        u.finite(),
    ensures
        spec_greedy(sets, u).to_set() == ids_with_gain(sets, u),
    decreases u.len(),
{
    let g = spec_greedy(sets, u);
    if has_candidate(sets, u) {
        let w = best_index_of(sets, u);
        let su = sets[w].1.to_set();
        let u2 = u.difference(su);
        lemma_removing_gain_shrinks(u, su);
        lemma_disjoint_greedy(sets, u2);
        let g2 = spec_greedy(sets, u2);
        assert(g =~= seq![sets[w].0] + g2);
        assert forall|id: u64| #[trigger] g.to_set().contains(id) <==> ids_with_gain(
            sets,
            u,
        ).contains(id) by {
            if g.to_set().contains(id) {
                let idx = choose|idx: int| 0 <= idx < g.len() && g[idx] == id;
                if idx == 0 {
                    assert(sets[w].0 == id && gain(sets, u, w) > 0);
                } else {
                    assert(g2[idx - 1] == id);
                    assert(g2.contains(id));
                    assert(g2.to_set().contains(id));
                    assert(ids_with_gain(sets, u2).contains(id));
                    let i = choose|i: int|
                        0 <= i < sets.len() && sets[i].0 == id && #[trigger] gain(sets, u2, i) > 0;
                    lemma_gain_monotone(sets, u2, u, i);
                }
                assert(ids_with_gain(sets, u).contains(id));
            }
            if ids_with_gain(sets, u).contains(id) {
                let i = choose|i: int|
                    0 <= i < sets.len() && sets[i].0 == id && #[trigger] gain(sets, u, i) > 0;
                if i == w {
                    assert(g[0] == id);
                    assert(g.contains(id));
                } else {
                    // A disjoint entry keeps its whole gain after the round.
                    let si = sets[i].1.to_set();
                    assert(u2.intersect(si) =~= u.intersect(si)) by {
                        assert forall|e: u64|
                            u.intersect(si).contains(e) implies u2.intersect(si).contains(e) by {
                            if su.contains(e) {
                                assert(si.intersect(su).contains(e));
                                assert(si.intersect(su) == Set::<u64>::empty());
                            }
                        }
                    }
                    assert(gain(sets, u2, i) > 0);
                    assert(ids_with_gain(sets, u2).contains(id));
                    assert(g2.to_set().contains(id));
                    let idx = choose|idx: int| 0 <= idx < g2.len() && g2[idx] == id;
                    assert(g[idx + 1] == id);
                    assert(g.contains(id));
                }
                assert(g.to_set().contains(id));
            }
        }
        assert(g.to_set() =~= ids_with_gain(sets, u));
    } else {
        lemma_no_candidate_gains(sets, u);
        assert(g =~= Seq::<u64>::empty());
        assert forall|id: u64| !ids_with_gain(sets, u).contains(id) by {
            if ids_with_gain(sets, u).contains(id) {
                let i = choose|i: int|
                    0 <= i < sets.len() && sets[i].0 == id && #[trigger] gain(sets, u, i) > 0;
            }
        }
        assert(g.to_set() =~= ids_with_gain(sets, u));
    }
}

/// If all input sets are pairwise disjoint and none is empty, the cover is
/// the full input collection: every set is needed.
pub proof fn lemma_disjoint_all_needed(sets: Seq<(u64, Seq<u64>)>)
    requires
        uniq_ids(sets),
        pairwise_disjoint(sets),
        forall|i: int| 0 <= i < sets.len() ==> #[trigger] sets[i].1.len() != 0,
    ensures
        spec_greedy(sets, universe(sets)).to_set() == set_ids(sets).to_set(),
        spec_greedy(sets, universe(sets)).len() == sets.len(),
{
    broadcast use vstd::seq_lib::seq_to_set_is_finite;

    let uni = universe(sets);
    lemma_universe_finite(sets);
    lemma_disjoint_greedy(sets, uni);
    assert forall|id: u64| #[trigger] ids_with_gain(sets, uni).contains(id)
        <==> set_ids(sets).to_set().contains(id) by {
        if ids_with_gain(sets, uni).contains(id) {
            let i = choose|i: int|
                0 <= i < sets.len() && sets[i].0 == id && #[trigger] gain(sets, uni, i) > 0;
            assert(set_ids(sets)[i] == id);
            assert(set_ids(sets).contains(id));
        }
        if set_ids(sets).to_set().contains(id) {
            let i = choose|i: int| 0 <= i < set_ids(sets).len() && set_ids(sets)[i] == id;
            assert(sets[i].0 == id);
            let e = sets[i].1[0];
            assert(sets[i].1.contains(e));
            assert(sets[i].1.to_set().contains(e));
            lemma_universe_membership(sets, e);
            assert(uni.intersect(sets[i].1.to_set()).contains(e));
            if gain(sets, uni, i) == 0 {
                uni.intersect(sets[i].1.to_set()).lemma_len0_is_empty();
            }
            assert(ids_with_gain(sets, uni).contains(id));
        }
    }
    assert(spec_greedy(sets, uni).to_set() =~= set_ids(sets).to_set());
    lemma_greedy_ids(sets, uni);
    spec_greedy(sets, uni).unique_seq_to_set();
    lemma_ids_no_dup(sets);
}

/// Removing one empty set changes neither the universe nor the selection.
pub proof fn lemma_remove_empty_entry(sets: Seq<(u64, Seq<u64>)>, j: int, u: Set<u64>)
    requires
        0 <= j < sets.len(),
        sets[j].1.len() == 0,
        u.finite(),
    ensures
        spec_greedy(sets.remove(j), u) == spec_greedy(sets, u),
    decreases u.len(),
{
    let s2 = sets.remove(j);
    sets.remove_ensures(j);
    assert(s2.len() == sets.len() - 1);
    assert forall|i: int| 0 <= i < j implies s2[i] == sets[i] by {}
    assert forall|i: int| j <= i < s2.len() implies s2[i] == sets[i + 1] by {}
    assert(sets[j].1.to_set() =~= Set::<u64>::empty());
    assert(gain(sets, u, j) == 0) by {
        assert(u.intersect(sets[j].1.to_set()) =~= Set::<u64>::empty());
    }
    if has_candidate(sets, u) {
        let w = best_index_of(sets, u);
        assert(w != j);
        let w2: int = if w < j {
            w
        } else {
            w - 1
        };
        assert(s2[w2] == sets[w]);
        assert(is_best(s2, u, w2)) by {
            assert forall|i: int| 0 <= i < s2.len() implies gain(s2, u, i) <= gain(s2, u, w2) by {
                if i < j {
                    assert(gain(s2, u, i) == gain(sets, u, i));
                } else {
                    assert(gain(s2, u, i) == gain(sets, u, i + 1));
                }
            }
            assert forall|i: int| 0 <= i < w2 implies gain(s2, u, i) < gain(s2, u, w2) by {
                if i < j {
                    assert(gain(s2, u, i) == gain(sets, u, i));
                    assert(i < w);
                } else {
                    assert(gain(s2, u, i) == gain(sets, u, i + 1));
                    assert(i + 1 < w);
                }
            }
        }
        lemma_greedy_step(s2, u, w2);
        let su = sets[w].1.to_set();
        lemma_removing_gain_shrinks(u, su);
        lemma_remove_empty_entry(sets, j, u.difference(su));
        assert(spec_greedy(s2, u) =~= spec_greedy(sets, u));
    } else {
        if has_candidate(s2, u) {
            let w2 = best_index_of(s2, u);
            let w: int = if w2 < j {
                w2
            } else {
                w2 + 1
            };
            assert(sets[w] == s2[w2]);
            assert(is_best(sets, u, w)) by {
                assert forall|i: int| 0 <= i < sets.len() implies gain(sets, u, i) <= gain(
                    sets,
                    u,
                    w,
                ) by {
                    if i != j {
                        let i2: int = if i < j {
                            i
                        } else {
                            i - 1
                        };
                        assert(gain(sets, u, i) == gain(s2, u, i2));
                    }
                }
                assert forall|i: int| 0 <= i < w implies gain(sets, u, i) < gain(sets, u, w) by {
                    if i != j {
                        let i2: int = if i < j {
                            i
                        } else {
                            i - 1
                        };
                        assert(gain(sets, u, i) == gain(s2, u, i2));
                        assert(i2 < w2);
                    }
                }
            }
            assert(has_candidate(sets, u));
            assert(false);
        }
        assert(spec_greedy(s2, u) =~= spec_greedy(sets, u));
    }
}

pub proof fn lemma_remove_empty_universe(sets: Seq<(u64, Seq<u64>)>, j: int)
    requires
        0 <= j < sets.len(),
        sets[j].1.len() == 0,
    ensures
        universe(sets.remove(j)) == universe(sets),
{
    let s2 = sets.remove(j);
    sets.remove_ensures(j);
    assert forall|e: u64| universe(s2).contains(e) <==> universe(sets).contains(e) by {
        lemma_universe_membership(s2, e);
        lemma_universe_membership(sets, e);
        if universe(s2).contains(e) {
            let i = choose|i: int| 0 <= i < s2.len() && #[trigger] s2[i].1.to_set().contains(e);
            if i < j {
                assert(sets[i].1.to_set().contains(e));
            } else {
                assert(sets[i + 1].1.to_set().contains(e));
            }
        }
        if universe(sets).contains(e) {
            let i = choose|i: int| 0 <= i < sets.len() && #[trigger] sets[i].1.to_set().contains(e);
            if i == j {
                assert(sets[j].1.contains(e));
            } else if i < j {
                assert(s2[i].1.to_set().contains(e));
            } else {
                assert(s2[i - 1].1.to_set().contains(e));
            }
        }
    }
    assert(universe(s2) =~= universe(sets));
}

/// Removing an empty set from the input changes neither the resulting cover
/// nor, in particular, its coverage or candidate pool: empty sets are never
/// selected.
pub proof fn lemma_empty_sets_irrelevant(sets: Seq<(u64, Seq<u64>)>, j: int)
    requires
        0 <= j < sets.len(),
        sets[j].1.len() == 0,
    ensures
        universe(sets.remove(j)) == universe(sets),
        spec_greedy(sets.remove(j), universe(sets.remove(j))) == spec_greedy(
            sets,
            universe(sets),
        ),
{
    lemma_remove_empty_universe(sets, j);
    lemma_universe_finite(sets);
    lemma_remove_empty_entry(sets, j, universe(sets));
}

/// The input with its empty sets removed.
pub open spec fn drop_empty_sets(sets: Seq<(u64, Seq<u64>)>) -> Seq<(u64, Seq<u64>)> {
    sets.filter(|e: (u64, Seq<u64>)| e.1.len() != 0)
}

proof fn lemma_drop_empty_all_kept(sets: Seq<(u64, Seq<u64>)>)
    requires
        forall|i: int| 0 <= i < sets.len() ==> #[trigger] sets[i].1.len() != 0,
    ensures
        drop_empty_sets(sets) == sets,
    decreases sets.len(),
{
    reveal(Seq::filter);
    if sets.len() == 0 {
        assert(drop_empty_sets(sets) =~= sets);
    } else {
        assert forall|i: int|
            0 <= i < sets.drop_last().len() implies #[trigger] sets.drop_last()[i].1.len()
            != 0 by {
            assert(sets.drop_last()[i] == sets[i]);
        }
        lemma_drop_empty_all_kept(sets.drop_last());
        assert(sets[sets.len() - 1].1.len() != 0);
        assert(drop_empty_sets(sets) =~= sets);
    }
}

proof fn lemma_drop_empty_remove(sets: Seq<(u64, Seq<u64>)>, j: int)
    requires
        0 <= j < sets.len(),
        sets[j].1.len() == 0,
    ensures
        drop_empty_sets(sets.remove(j)) == drop_empty_sets(sets),
    decreases sets.len(),
{
    reveal(Seq::filter);
    if j == sets.len() - 1 {
        assert(sets.remove(j) =~= sets.drop_last());
    } else {
        let s2 = sets.remove(j);
        assert(s2.drop_last() =~= sets.drop_last().remove(j));
        assert(s2.last() == sets.last());
        assert(sets.drop_last()[j] == sets[j]);
        lemma_drop_empty_remove(sets.drop_last(), j);
    }
}

/// Removing every empty set from the input changes neither the universe nor
/// the resulting cover: empty sets are never selected, since their
/// intersection count is always zero.
pub proof fn lemma_empty_sets_never_matter(sets: Seq<(u64, Seq<u64>)>)
    ensures
        universe(drop_empty_sets(sets)) == universe(sets),
        spec_greedy(drop_empty_sets(sets), universe(drop_empty_sets(sets))) == spec_greedy(
            sets,
            universe(sets),
        ),
    decreases sets.len(),
{
    if exists|j: int| 0 <= j < sets.len() && #[trigger] sets[j].1.len() == 0 {
        let j = choose|j: int| 0 <= j < sets.len() && #[trigger] sets[j].1.len() == 0;
        sets.remove_ensures(j);
        lemma_empty_sets_irrelevant(sets, j);
        lemma_drop_empty_remove(sets, j);
        lemma_empty_sets_never_matter(sets.remove(j));
    } else {
        lemma_drop_empty_all_kept(sets);
    }
}

/// Both selectors, run on the same collection, return the one sequence of
/// identifiers `spec_greedy` describes, and so in particular covers with
/// identical total coverage.
pub proof fn lemma_modes_agree(sets: Seq<(u64, Seq<u64>)>, ids0: Seq<u64>, ids1: Seq<u64>)
    requires
        ids0 == spec_greedy(sets, universe(sets)),
        ids1 == spec_greedy(sets, universe(sets)),
    ensures
        ids0 == ids1,
        covered_by_ids(sets, ids0) == covered_by_ids(sets, ids1),
{
}

} // verus!
