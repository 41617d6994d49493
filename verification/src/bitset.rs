//! The bitset greedy selector: elements are mapped to dense integer ids, each
//! set becomes a membership bitmap of length `|Universe|`, and intersection
//! sizes are computed with bitwise AND and population count.
//!
//! The lemmas here carry set reasoning across the encoding: a bitmap that
//! encodes a set of elements has as many set bits as the set has elements,
//! bitwise AND encodes intersection, and AND-NOT encodes difference.

use vstd::prelude::*;
use vstd::set_lib::{lemma_len_subset, lemma_map_size};

use crate::bits::{
    bv_and_assign, bv_bits, bv_clone, bv_copy_from, bv_count_ones, bv_not, bv_not_any, bv_repeat,
    bv_set, popcount, Bitmap,
};
use crate::collection::{lemma_flat_universe, SetCollection};
use crate::indexer::{id_used, lemma_dense_ids_props, map_elements_to_integers};
use crate::model::{
    gain, is_best, lemma_greedy_step, lemma_greedy_stuck, lemma_no_candidate_empty,
    lemma_universe_finite, lemma_universe_membership, spec_greedy, universe,
};
use crate::CoverError;

verus! {

broadcast use vstd::std_specs::hash::group_hash_axioms;

/// `m` maps its domain injectively onto the dense id range `[0, n)`.
pub open spec fn mapping_ok(m: Map<u64, usize>, n: nat) -> bool {
    &&& m.dom().finite()
    &&& m.dom().len() == n
    &&& forall|e: u64| #[trigger] m.dom().contains(e) ==> (m[e] as nat) < n
    &&& forall|e1: u64, e2: u64|
        m.dom().contains(e1) && m.dom().contains(e2) && e1 != e2 ==> m[e1] != m[e2]
    &&& forall|v: int| 0 <= v < n ==> #[trigger] id_used(m, v)
}

/// Some element of `s` is mapped to the id `j`.
pub open spec fn id_hit(m: Map<u64, usize>, s: Set<u64>, j: int) -> bool {
    exists|e: u64| #[trigger] s.contains(e) && m.dom().contains(e) && m[e] == j
}

/// The bitmap `bits` has length `n` and holds exactly the ids of the
/// elements of `s`.
pub open spec fn encodes(bits: Seq<bool>, m: Map<u64, usize>, s: Set<u64>, n: nat) -> bool {
    &&& bits.len() == n
    &&& forall|j: int| 0 <= j < n ==> (#[trigger] bits[j] <==> id_hit(m, s, j))
}

/// The indices of the set bits of a bitmap.
pub open spec fn true_ids(bits: Seq<bool>) -> Set<int> {
    Set::new(|j: int| 0 <= j < bits.len() && bits[j])
}

/// The population count of a bitmap is the number of indices at which it is
/// set.
pub proof fn lemma_popcount_card(bits: Seq<bool>)
    ensures
        true_ids(bits).finite(),
        true_ids(bits).len() == popcount(bits),
    decreases bits.len(),
{
    if bits.len() == 0 {
        assert(true_ids(bits) =~= Set::empty());
    } else {
        lemma_popcount_card(bits.drop_last());
        let l = bits.len() - 1;
        if bits.last() {
            assert(true_ids(bits) =~= true_ids(bits.drop_last()).insert(l));
            assert(!true_ids(bits.drop_last()).contains(l));
        } else {
            assert(true_ids(bits) =~= true_ids(bits.drop_last()));
        }
    }
}

/// Setting a clear bit raises the population count by one.
pub proof fn lemma_popcount_update_true(bits: Seq<bool>, i: int)
    requires
        0 <= i < bits.len(),
        !bits[i],
    ensures
        popcount(bits.update(i, true)) == popcount(bits) + 1,
{
    lemma_popcount_card(bits);
    lemma_popcount_card(bits.update(i, true));
    assert(true_ids(bits.update(i, true)) =~= true_ids(bits).insert(i));
}

/// A bitmap whose population count equals its length is all ones.
pub proof fn lemma_popcount_full(bits: Seq<bool>)
    requires
        popcount(bits) == bits.len(),
    ensures
        forall|j: int| 0 <= j < bits.len() ==> bits[j],
{
    lemma_popcount_card(bits);
    if exists|j: int| 0 <= j < bits.len() && !bits[j] {
        let j = choose|j: int| 0 <= j < bits.len() && !bits[j];
        let range = vstd::set_lib::set_int_range(0, bits.len() as int);
        vstd::set_lib::lemma_int_range(0, bits.len() as int);
        assert(true_ids(bits).subset_of(range.remove(j)));
        assert(range.remove(j).len() == bits.len() - 1);
        lemma_len_subset(true_ids(bits), range.remove(j));
    }
}

/// A bitmap that encodes a set drawn from the mapping's domain has exactly
/// one set bit per element.
pub proof fn lemma_encodes_count(bits: Seq<bool>, m: Map<u64, usize>, s: Set<u64>, n: nat)
    requires
        encodes(bits, m, s, n),
        mapping_ok(m, n),
        s.subset_of(m.dom()),
    ensures
        s.finite(),
        popcount(bits) == s.len(),
{
    broadcast use vstd::set_lib::lemma_set_subset_finite;

    assert(s.finite());
    let f = |e: u64| m[e] as int;
    assert forall|j: int| true_ids(bits).contains(j) implies s.map(f).contains(j) by {
        assert(id_hit(m, s, j));
        let e = choose|e: u64| #[trigger] s.contains(e) && m.dom().contains(e) && m[e] == j;
        assert(f(e) == j);
    }
    assert forall|j: int| s.map(f).contains(j) implies true_ids(bits).contains(j) by {
        let e = choose|e: u64| #[trigger] s.contains(e) && f(e) == j;
        assert(m.dom().contains(e));
        assert(0 <= j < n);
        assert(id_hit(m, s, j));
    }
    assert(true_ids(bits) =~= s.map(f));
    assert(vstd::relations::injective_on(f, s));
    lemma_map_size(s, s.map(f), f);
    lemma_popcount_card(bits);
}

/// Bitwise AND encodes intersection.
pub proof fn lemma_encodes_intersect(
    b1: Seq<bool>,
    s1: Set<u64>,
    b2: Seq<bool>,
    s2: Set<u64>,
    m: Map<u64, usize>,
    n: nat,
)
    requires
        encodes(b1, m, s1, n),
        encodes(b2, m, s2, n),
        mapping_ok(m, n),
    ensures
        encodes(Seq::new(n, |j: int| b1[j] && b2[j]), m, s1.intersect(s2), n),
{
    let b = Seq::new(n, |j: int| b1[j] && b2[j]);
    assert forall|j: int| 0 <= j < n implies (#[trigger] b[j] <==> id_hit(
        m,
        s1.intersect(s2),
        j,
    )) by {
        if b[j] {
            let e1 = choose|e: u64| #[trigger] s1.contains(e) && m.dom().contains(e) && m[e] == j;
            let e2 = choose|e: u64| #[trigger] s2.contains(e) && m.dom().contains(e) && m[e] == j;
            assert(e1 == e2);
            assert(s1.intersect(s2).contains(e1));
        }
        if id_hit(m, s1.intersect(s2), j) {
            let e = choose|e: u64|
                #[trigger] s1.intersect(s2).contains(e) && m.dom().contains(e) && m[e] == j;
            assert(s1.contains(e) && s2.contains(e));
        }
    }
}

/// Bitwise AND with a complement encodes difference.
pub proof fn lemma_encodes_difference(
    bu: Seq<bool>,
    su: Set<u64>,
    bb: Seq<bool>,
    sb: Set<u64>,
    m: Map<u64, usize>,
    n: nat,
)
    requires
        encodes(bu, m, su, n),
        encodes(bb, m, sb, n),
        mapping_ok(m, n),
        su.subset_of(m.dom()),
        sb.subset_of(m.dom()),
    ensures
        encodes(Seq::new(n, |j: int| bu[j] && !bb[j]), m, su.difference(sb), n),
{
    let b = Seq::new(n, |j: int| bu[j] && !bb[j]);
    assert forall|j: int| 0 <= j < n implies (#[trigger] b[j] <==> id_hit(
        m,
        su.difference(sb),
        j,
    )) by {
        if b[j] {
            let e = choose|e: u64| #[trigger] su.contains(e) && m.dom().contains(e) && m[e] == j;
            if sb.contains(e) {
                assert(id_hit(m, sb, j));
            }
            assert(su.difference(sb).contains(e));
        }
        if id_hit(m, su.difference(sb), j) {
            let e = choose|e: u64|
                #[trigger] su.difference(sb).contains(e) && m.dom().contains(e) && m[e] == j;
            assert(su.contains(e) && !sb.contains(e));
            assert(bu[j]);
            if bb[j] {
                let e2 = choose|e2: u64|
                    #[trigger] sb.contains(e2) && m.dom().contains(e2) && m[e2] == j;
                assert(e2 == e);
            }
        }
    }
}

/// An all-clear bitmap encodes exactly an empty set.
pub proof fn lemma_encodes_empty(bits: Seq<bool>, m: Map<u64, usize>, s: Set<u64>, n: nat)
    requires
        encodes(bits, m, s, n),
        mapping_ok(m, n),
        s.subset_of(m.dom()),
    ensures
        (forall|j: int| 0 <= j < n ==> !bits[j]) <==> s.is_empty(),
{
    if forall|j: int| 0 <= j < n ==> !bits[j] {
        if !s.is_empty() {
            let e = s.choose();
            assert(s.contains(e) && m.dom().contains(e));
            let j = m[e] as int;
            assert(id_hit(m, s, j));
            assert(bits[j]);
        }
    } else {
        let j = choose|j: int| 0 <= j < n && bits[j];
        assert(id_hit(m, s, j));
        let e = choose|e: u64| #[trigger] s.contains(e) && m.dom().contains(e) && m[e] == j;
        assert(!s.is_empty());
    }
}

/// An all-ones bitmap encodes the mapping's whole domain.
pub proof fn lemma_encodes_full(m: Map<u64, usize>, n: nat)
    requires
        mapping_ok(m, n),
    ensures
        encodes(Seq::new(n, |j: int| true), m, m.dom(), n),
{
    let b = Seq::new(n, |j: int| true);
    assert forall|j: int| 0 <= j < n implies (#[trigger] b[j] <==> id_hit(m, m.dom(), j)) by {
        assert(id_used(m, j));
        let e = choose|e: u64| #[trigger] m.dom().contains(e) && m[e] == j;
        assert(m.dom().contains(e) && m.dom().contains(e) && m[e] == j);
        assert(id_hit(m, m.dom(), j));
    }
}

/// Raising the bit of one more element extends the encoded set by it.
pub proof fn lemma_encodes_insert(
    bits: Seq<bool>,
    m: Map<u64, usize>,
    s: Set<u64>,
    n: nat,
    e: u64,
)
    requires
        encodes(bits, m, s, n),
        m.dom().contains(e),
        (m[e] as nat) < n,
    ensures
        encodes(bits.update(m[e] as int, true), m, s.insert(e), n),
{
    let b = bits.update(m[e] as int, true);
    assert forall|j: int| 0 <= j < n implies (#[trigger] b[j] <==> id_hit(m, s.insert(e), j)) by {
        if j == m[e] as int {
            assert(s.insert(e).contains(e));
            assert(id_hit(m, s.insert(e), j));
        } else {
            if b[j] {
                let x = choose|x: u64|
                    #[trigger] s.contains(x) && m.dom().contains(x) && m[x] == j;
                assert(s.insert(e).contains(x));
            }
            if id_hit(m, s.insert(e), j) {
                let x = choose|x: u64|
                    #[trigger] s.insert(e).contains(x) && m.dom().contains(x) && m[x] == j;
                assert(x != e);
                assert(s.contains(x));
                assert(id_hit(m, s, j));
            }
        }
    }
}

/// Finds an approximate solution to the set cover problem with the greedy
/// heuristic, on bit-vector encodings of the sets.
///
/// Elements are first mapped to dense integer ids, each set becomes a bitmap
/// of length `|Universe|`, and every round scores the candidates by ANDing
/// their bitmaps with the uncovered bitmap and counting the set bits.  The
/// selection — and so the returned sequence of identifiers — is exactly the
/// one `spec_greedy` describes and the direct selector computes.  The
/// uncoverable case cannot arise, so the result is always `Ok`.
pub fn greedy_set_cover_1(sets: &SetCollection) -> (r: Result<Vec<u64>, CoverError>)
    requires
        sets.wf(),
    ensures
        r is Ok,
        r->Ok_0@ == spec_greedy(sets@, universe(sets@)),
        crate::laws::covered_by_ids(sets@, r->Ok_0@) == universe(sets@),
        r->Ok_0@.len() <= sets@.len(),
{
    let n_sets = sets.len();

    // Build the dense element-to-id mapping over all elements, in entry order.
    let all = sets.all_elements();
    let all_len = all.len();
    let mapping = map_elements_to_integers(&all);
    let universe_size = mapping.len();
    let ghost m = mapping@;
    let ghost nn = universe_size as nat;
    proof {
        assert(all@.len() == all_len);
        lemma_dense_ids_props(all@);
        lemma_flat_universe(sets@);
        assert(m.dom() =~= universe(sets@));
        lemma_universe_finite(sets@);
        assert(mapping_ok(m, nn));
    }

    // Encode every set as a membership bitmap over the dense ids.
    let mut bit_sets: Vec<Bitmap> = Vec::new();
    for i in 0..n_sets
        invariant
            n_sets == sets@.len(),
            mapping@ == m,
            mapping_ok(m, nn),
            nn == universe_size,
            m.dom() == universe(sets@),
            bit_sets@.len() == i,
            forall|k: int|
                0 <= k < i ==> encodes(
                    bv_bits(#[trigger] bit_sets@[k]),
                    m,
                    sets@[k].1.to_set(),
                    nn,
                ),
    {
        let elems = sets.elems_at(i);
        let len_i = elems.len();
        let mut bv = bv_repeat(false, universe_size);
        proof {
            assert(sets@[i as int].1.take(0).to_set() =~= Set::<u64>::empty());
            assert forall|j: int|
                0 <= j < nn implies (#[trigger] bv_bits(bv)[j] <==> id_hit(
                m,
                sets@[i as int].1.take(0).to_set(),
                j,
            )) by {
                if id_hit(m, sets@[i as int].1.take(0).to_set(), j) {
                    let e = choose|e: u64|
                        #[trigger] sets@[i as int].1.take(0).to_set().contains(e)
                            && m.dom().contains(e) && m[e] == j;
                }
            }
            assert(encodes(bv_bits(bv), m, sets@[i as int].1.take(0).to_set(), nn));
        }
        for j in 0..len_i
            invariant
                n_sets == sets@.len(),
                i < n_sets,
                mapping@ == m,
                mapping_ok(m, nn),
                nn == universe_size,
                m.dom() == universe(sets@),
                len_i == sets@[i as int].1.len(),
                elems@ == sets@[i as int].1,
                encodes(bv_bits(bv), m, sets@[i as int].1.take(j as int).to_set(), nn),
        {
            let e = elems[j];
            proof {
                assert(sets@[i as int].1.contains(e));
                assert(sets@[i as int].1.to_set().contains(e));
                lemma_universe_membership(sets@, e);
                assert(universe(sets@).contains(e));
                assert(m.dom().contains(e));
            }
            match mapping.get(&e) {
                Some(id) => {
                    let idx = *id;
                    proof {
                        assert(m[e] == idx && (idx as nat) < nn);
                        lemma_encodes_insert(
                            bv_bits(bv),
                            m,
                            sets@[i as int].1.take(j as int).to_set(),
                            nn,
                            e,
                        );
                    }
                    bv_set(&mut bv, idx, true);
                    proof {
                        assert(sets@[i as int].1.take(j as int).push(sets@[i as int].1[j as int])
                            =~= sets@[i as int].1.take(j + 1));
                        broadcast use vstd::prelude::Seq::lemma_push_to_set_commute;

                        assert(sets@[i as int].1.take(j + 1).to_set() =~= sets@[i as int].1.take(
                            j as int,
                        ).to_set().insert(e));
                    }
                },
                None => {
                    proof {
                        assert(false);
                    }
                },
            }
        }
        proof {
            assert(sets@[i as int].1.take(len_i as int) =~= sets@[i as int].1);
        }
        bit_sets.push(bv);
    }

    // The pool of uncovered ids starts as all ones: every element of the
    // universe has exactly one dense id.
    let mut uncovered_bv = bv_repeat(true, universe_size);
    let ghost mut u: Set<u64> = universe(sets@);
    proof {
        lemma_encodes_full(m, nn);
        assert(bv_bits(uncovered_bv) =~= Seq::new(nn, |j: int| true));
        assert(u =~= m.dom());
        lemma_universe_finite(sets@);
    }

    let ghost g = spec_greedy(sets@, universe(sets@));
    let mut cover: Vec<u64> = Vec::new();
    let mut chosen: Vec<bool> = vec![false; n_sets];
    proof {
        lemma_popcount_card(chosen@);
        assert(true_ids(chosen@) =~= Set::<int>::empty());
    }
    // One scratch bitmap is reused across all candidate evaluations; its
    // contents are overwritten on each evaluation.
    let mut scratch = bv_repeat(false, universe_size);

    let mut round: usize = 0;
    while round < n_sets
        invariant_except_break
            round <= n_sets,
            cover@.len() == round,
            popcount(chosen@) == round,
        invariant
            n_sets == sets@.len(),
            sets.wf(),
            mapping_ok(m, nn),
            nn == universe_size,
            m.dom() == universe(sets@),
            u.finite(),
            u.subset_of(universe(sets@)),
            encodes(bv_bits(uncovered_bv), m, u, nn),
            bit_sets@.len() == n_sets,
            forall|k: int|
                0 <= k < n_sets ==> encodes(
                    bv_bits(#[trigger] bit_sets@[k]),
                    m,
                    sets@[k].1.to_set(),
                    nn,
                ),
            chosen@.len() == n_sets,
            forall|k: int| 0 <= k < n_sets && chosen@[k] ==> gain(sets@, u, k) == 0,
            cover@ + spec_greedy(sets@, u) == g,
            cover@.len() <= n_sets,
        ensures
            u.is_empty() || popcount(chosen@) == n_sets,
        decreases n_sets - round,
    {
        if bv_not_any(&uncovered_bv) {
            proof {
                lemma_encodes_empty(bv_bits(uncovered_bv), m, u, nn);
            }
            break ;
        }
        proof {
            lemma_encodes_empty(bv_bits(uncovered_bv), m, u, nn);
            assert(!u.is_empty());
        }

        // Score every not-yet-chosen set by the population count of its
        // bitmap ANDed with the uncovered bitmap.
        let mut best: Option<usize> = None;
        let mut best_count: usize = 0;
        let mut best_intersection: Option<Bitmap> = None;
        for i in 0..n_sets
            invariant
                n_sets == sets@.len(),
                sets.wf(),
                mapping_ok(m, nn),
                nn == universe_size,
                m.dom() == universe(sets@),
                u.finite(),
                u.subset_of(universe(sets@)),
                encodes(bv_bits(uncovered_bv), m, u, nn),
                bit_sets@.len() == n_sets,
                forall|k: int|
                    0 <= k < n_sets ==> encodes(
                        bv_bits(#[trigger] bit_sets@[k]),
                        m,
                        sets@[k].1.to_set(),
                        nn,
                    ),
                chosen@.len() == n_sets,
                forall|k: int| 0 <= k < n_sets && chosen@[k] ==> gain(sets@, u, k) == 0,
                best is None ==> best_count == 0 && best_intersection is None,
                best matches Some(b) ==> 0 <= b < i && best_count > 0 && gain(
                    sets@,
                    u,
                    b as int,
                ) == best_count && (best_intersection matches Some(bb) && encodes(
                    bv_bits(bb),
                    m,
                    u.intersect(sets@[b as int].1.to_set()),
                    nn,
                )),
                forall|k: int| 0 <= k < i ==> gain(sets@, u, k) <= best_count,
                best matches Some(b) ==> forall|k: int|
                    0 <= k < b ==> gain(sets@, u, k) < best_count,
        {
            if !chosen[i] {
                let ghost si = sets@[i as int].1.to_set();
                let ghost bsb = bv_bits(bit_sets@[i as int]);
                bv_copy_from(&mut scratch, &bit_sets[i]);
                bv_and_assign(&mut scratch, &uncovered_bv);
                proof {
                    assert forall|e: u64| si.contains(e) implies m.dom().contains(e) by {
                        assert(sets@[i as int].1.to_set().contains(e));
                        lemma_universe_membership(sets@, e);
                    }
                    lemma_encodes_intersect(bsb, si, bv_bits(uncovered_bv), u, m, nn);
                    assert(bv_bits(scratch) =~= Seq::new(
                        nn,
                        |j: int| bsb[j] && bv_bits(uncovered_bv)[j],
                    ));
                    assert(encodes(bv_bits(scratch), m, si.intersect(u), nn));
                    assert(si.intersect(u).subset_of(m.dom()));
                    lemma_encodes_count(bv_bits(scratch), m, si.intersect(u), nn);
                    assert(si.intersect(u) =~= u.intersect(si));
                }
                let count = bv_count_ones(&scratch);
                if count > best_count {
                    best = Some(i);
                    best_count = count;
                    best_intersection = Some(bv_clone(&scratch));
                }
            }
        }

        match best {
            Some(b) => {
                proof {
                    assert(is_best(sets@, u, b as int));
                    lemma_greedy_step(sets@, u, b as int);
                }
                let ghost u0 = u;
                let ghost sb = sets@[b as int].1.to_set();
                let id = sets.id_at(b);
                match best_intersection {
                    Some(bb) => {
                        let ghost ub0 = bv_bits(uncovered_bv);
                        let ghost bbb = bv_bits(bb);
                        let neg = bv_not(bb);
                        proof {
                            assert forall|e: u64| sb.contains(e) implies m.dom().contains(e) by {
                                assert(sets@[b as int].1.to_set().contains(e));
                                lemma_universe_membership(sets@, e);
                            }
                            assert(u0.intersect(sb).subset_of(m.dom()));
                            lemma_encodes_difference(ub0, u0, bbb, u0.intersect(sb), m, nn);
                        }
                        bv_and_assign(&mut uncovered_bv, &neg);
                        proof {
                            u = u0.difference(sb);
                            assert(bv_bits(neg) =~= Seq::new(nn, |j: int| !bbb[j]));
                            assert(bv_bits(uncovered_bv) =~= Seq::new(
                                nn,
                                |j: int| ub0[j] && !bbb[j],
                            ));
                            assert(u0.difference(u0.intersect(sb)) =~= u);
                            assert(encodes(bv_bits(uncovered_bv), m, u, nn));
                        }
                    },
                    None => {
                        proof {
                            assert(false);
                        }
                    },
                }
                let ghost cover0 = cover@;
                cover.push(id);
                let ghost chosen0 = chosen@;
                chosen[b] = true;
                proof {
                    lemma_popcount_update_true(chosen0, b as int);
                    assert forall|k: int|
                        0 <= k < n_sets && chosen@[k] implies gain(sets@, u, k) == 0 by {
                        let sk = sets@[k].1.to_set();
                        if k == b as int {
                            assert(u.intersect(sk) =~= Set::<u64>::empty());
                        } else {
                            assert(chosen0[k]);
                            assert(gain(sets@, u0, k) == 0);
                            broadcast use vstd::set_lib::lemma_set_subset_finite;

                            assert(u0.intersect(sk).subset_of(u0));
                            u0.intersect(sk).lemma_len0_is_empty();
                            assert(u.intersect(sk) =~= Set::<u64>::empty());
                        }
                    }
                    assert(cover@ =~= cover0.push(sets@[b as int].0));
                    assert(cover@ + spec_greedy(sets@, u) =~= cover0 + (seq![sets@[b as int].0]
                        + spec_greedy(sets@, u)));
                }
            },
            None => {
                // Nothing gains, yet ids remain uncovered: impossible when
                // the pool is the union of the searched sets themselves.
                proof {
                    lemma_no_candidate_empty(sets@, u);
                    assert(false);
                }
                return Err(CoverError::UncoverableInput);
            },
        }
        round = round + 1;
    }

    if !bv_not_any(&uncovered_bv) {
        // The round budget is exhausted with ids left over: impossible, since
        // by then every set has been drawn into the cover.
        proof {
            if !u.is_empty() {
                lemma_popcount_full(chosen@);
                assert forall|k: int| 0 <= k < sets@.len() implies gain(sets@, u, k) == 0 by {
                    assert(chosen@[k]);
                }
                lemma_no_candidate_empty(sets@, u);
            }
            lemma_encodes_empty(bv_bits(uncovered_bv), m, u, nn);
            assert(false);
        }
        return Err(CoverError::UncoverableInput);
    }
    proof {
        lemma_encodes_empty(bv_bits(uncovered_bv), m, u, nn);
        assert(u.is_empty());
        assert forall|i: int| 0 <= i < sets@.len() implies gain(sets@, u, i) == 0 by {
            assert(u.intersect(sets@[i].1.to_set()) =~= Set::<u64>::empty());
        }
        lemma_greedy_stuck(sets@, u);
        assert(cover@ + Seq::<u64>::empty() =~= cover@);
        lemma_universe_finite(sets@);
        crate::laws::lemma_greedy_coverage(sets@);
        crate::laws::lemma_cover_size(sets@, universe(sets@));
    }
    Ok(cover)
}

} // verus!
