//! The element indexer: assigns each distinct element a dense integer id in
//! first-seen order, so that a set can be encoded as a bit vector indexed by
//! those ids.

use std::collections::HashMap;

use vstd::prelude::*;
use vstd::std_specs::iter::{IteratorSpec, VerusForLoopWrapper};

verus! {

broadcast use vstd::std_specs::hash::group_hash_axioms;

/// The mapping the indexer builds over a sequence of elements: the first
/// distinct element gets id `0`, each subsequently first-seen element the
/// next unused id, and re-encountering a mapped element changes nothing.
pub open spec fn dense_ids(elems: Seq<u64>) -> Map<u64, usize>
    decreases elems.len(),
{
    if elems.len() == 0 {
        Map::empty()
    } else {
        let m = dense_ids(elems.drop_last());
        let e = elems.last();
        if m.dom().contains(e) {
            m
        } else {
            m.insert(e, m.dom().len() as usize)
        }
    }
}

/// Some element is mapped to the id `v`.
pub open spec fn id_used(m: Map<u64, usize>, v: int) -> bool {
    exists|e: u64| #[trigger] m.dom().contains(e) && m[e] == v
}

/// The dense mapping is a bijection from the distinct elements onto the
/// id range `[0, n)`, where `n` is the count of distinct elements.
pub proof fn lemma_dense_ids_props(elems: Seq<u64>)
    requires
        elems.len() <= usize::MAX,
    ensures
        dense_ids(elems).dom() =~= elems.to_set(),
        dense_ids(elems).dom().finite(),
        dense_ids(elems).dom().len() <= elems.len(),
        forall|e: u64| #[trigger] dense_ids(elems).dom().contains(e) ==> (dense_ids(elems)[e] as nat)
            < dense_ids(elems).dom().len(),
        forall|e1: u64, e2: u64|
            dense_ids(elems).dom().contains(e1) && dense_ids(elems).dom().contains(e2) && e1 != e2
                ==> dense_ids(elems)[e1] != dense_ids(elems)[e2],
        forall|v: int| 0 <= v < dense_ids(elems).dom().len() ==> #[trigger] id_used(
            dense_ids(elems),
            v,
        ),
    decreases elems.len(),
{
    if elems.len() == 0 {
    } else {
        lemma_dense_ids_props(elems.drop_last());
        let m = dense_ids(elems.drop_last());
        let e = elems.last();
        assert forall|x: u64| elems.to_set().contains(x)
            <==> m.dom().insert(e).contains(x) by {
            if elems.contains(x) {
                let i = choose|i: int| 0 <= i < elems.len() && elems[i] == x;
                if i < elems.len() - 1 {
                    assert(elems.drop_last()[i] == x);
                    assert(elems.drop_last().contains(x));
                }
            }
            if m.dom().insert(e).contains(x) {
                if m.dom().contains(x) {
                    assert(elems.drop_last().contains(x));
                    let i = choose|i: int|
                        0 <= i < elems.drop_last().len() && elems.drop_last()[i] == x;
                    assert(elems[i] == x);
                } else {
                    assert(elems[elems.len() - 1] == x);
                }
                assert(elems.contains(x));
            }
        }
        if m.dom().contains(e) {
            assert(m.dom().insert(e) =~= m.dom());
        } else {
            let n0 = m.dom().len();
            assert(n0 <= elems.drop_last().len() < usize::MAX);
            assert(dense_ids(elems) == m.insert(e, n0 as usize));
            assert(dense_ids(elems).dom() =~= m.dom().insert(e));
            assert(dense_ids(elems).dom().len() == n0 + 1);
            assert forall|e1: u64, e2: u64|
                dense_ids(elems).dom().contains(e1) && dense_ids(elems).dom().contains(e2) && e1
                    != e2 implies dense_ids(elems)[e1] != dense_ids(elems)[e2] by {
                if e1 != e && e2 != e {
                    assert(m[e1] != m[e2]);
                } else if e1 == e {
                    assert((m[e2] as nat) < n0);
                } else {
                    assert((m[e1] as nat) < n0);
                }
            }
            assert forall|v: int|
                0 <= v < dense_ids(elems).dom().len() implies #[trigger] id_used(
                dense_ids(elems),
                v,
            ) by {
                if v < n0 {
                    assert(id_used(m, v));
                    let x = choose|x: u64| #[trigger] m.dom().contains(x) && m[x] == v;
                    assert(dense_ids(elems).dom().contains(x) && dense_ids(elems)[x] == v);
                } else {
                    assert(dense_ids(elems).dom().contains(e) && dense_ids(elems)[e] == v);
                }
            }
        }
    }
}

/// Creates a mapping from the distinct elements of `elements` to consecutive
/// integer ids `0, 1, 2, ...`, assigned in first-seen order.  Duplicates all
/// point at the id their first occurrence received.
pub fn map_elements_to_integers(elements: &Vec<u64>) -> (r: HashMap<u64, usize>)
    ensures
        r@ == dense_ids(elements@),
{
    let mut mapping: HashMap<u64, usize> = HashMap::new();
    let mut next_id: usize = 0;
    proof {
        assert(elements@.take(0) =~= Seq::<u64>::empty());
        assert(mapping@ =~= dense_ids(elements@.take(0)));
    }
    let n = elements.len();
    for k in 0..n
        invariant
            n == elements@.len(),
            mapping@ == dense_ids(elements@.take(k as int)),
            mapping@.dom().finite(),
            next_id == mapping@.dom().len(),
            next_id <= k,
    {
        let e = elements[k];
        proof {
            assert(elements@.take(k + 1).drop_last() =~= elements@.take(k as int));
            assert(elements@.take(k + 1).last() == elements@[k as int]);
        }
        if !mapping.contains_key(&e) {
            mapping.insert(e, next_id);
            next_id = next_id + 1;
        }
    }
    proof {
        assert(elements@.take(n as int) =~= elements@);
    }
    mapping
}

/// Creates the same mapping as [`map_elements_to_integers`], consuming the
/// element buffer.
pub fn map_elements_to_integers_owned(elements: Vec<u64>) -> (r: HashMap<u64, usize>)
    ensures
        r@ == dense_ids(elements@),
{
    map_elements_to_integers(&elements)
}

/// Inverts an injective mapping from elements to integers, allowing lookups
/// of the original element from an integer id.
pub fn revert_integer_mapping(mapping: &HashMap<u64, usize>) -> (r: HashMap<usize, u64>)
    requires
        forall|k1: u64, k2: u64|
            mapping@.dom().contains(k1) && mapping@.dom().contains(k2) && k1 != k2
                ==> mapping@[k1] != mapping@[k2],
    ensures
        forall|k: u64| #[trigger] mapping@.dom().contains(k)
            ==> r@.dom().contains(mapping@[k]) && r@[mapping@[k]] == k,
        forall|v: usize| #[trigger] r@.dom().contains(v) ==> exists|k: u64|
            mapping@.dom().contains(k) && mapping@[k] == v,
{
    let mut r: HashMap<usize, u64> = HashMap::new();
    let iter = mapping.iter();
    let ghost pairs = IteratorSpec::remaining(&iter);
    proof {
        // The iterator hands out every pair of the map exactly once.
        assert(iter == vstd::std_specs::hash::spec_hash_map_iter(mapping));
        assert(pairs.len() == mapping@.dom().len());
        assert forall|j1: int, j2: int|
            0 <= j1 < j2 < pairs.len() implies *pairs[j1].0 != *pairs[j2].0 by {
            if *pairs[j1].0 == *pairs[j2].0 {
                assert(mapping@.contains_key(*pairs[j1].0) && mapping@[*pairs[j1].0]
                    == *pairs[j1].1);
                assert(mapping@.contains_key(*pairs[j2].0) && mapping@[*pairs[j2].0]
                    == *pairs[j2].1);
                assert(pairs[j1].0 == pairs[j2].0 && pairs[j1].1 == pairs[j2].1);
                assert(pairs[j1] == pairs[j2]);
                assert(pairs.no_duplicates());
            }
        }
    }
    let mut w = VerusForLoopWrapper::new(iter, Ghost(None));
    loop
        invariant
            w.wf(),
            w.iter.obeys_prophetic_iter_laws(),
            IteratorSpec::decrease(&w.iter) is Some,
            w.seq() == pairs,
            forall|k1: u64, k2: u64|
                mapping@.dom().contains(k1) && mapping@.dom().contains(k2) && k1 != k2
                    ==> mapping@[k1] != mapping@[k2],
            forall|j: int| 0 <= j < pairs.len() ==> mapping@.dom().contains(*#[trigger] pairs[j].0)
                && mapping@[*pairs[j].0] == *pairs[j].1,
            forall|j1: int, j2: int| 0 <= j1 < j2 < pairs.len() ==> *pairs[j1].0 != *pairs[j2].0,
            0 <= w.index() <= pairs.len(),
            forall|j: int| 0 <= j < w.index() ==> r@.dom().contains(*#[trigger] pairs[j].1)
                && r@[*pairs[j].1] == *pairs[j].0,
            forall|v: usize| #[trigger] r@.dom().contains(v) ==> exists|j: int|
                0 <= j < w.index() && *pairs[j].1 == v,
        ensures
            w.index() == pairs.len(),
            forall|j: int| 0 <= j < pairs.len() ==> r@.dom().contains(*#[trigger] pairs[j].1)
                && r@[*pairs[j].1] == *pairs[j].0,
            forall|v: usize| #[trigger] r@.dom().contains(v) ==> exists|j: int|
                0 <= j < pairs.len() && *pairs[j].1 == v,
        decreases IteratorSpec::decrease(&w.iter)->0,
    {
        let ghost i0 = w.index();
        match w.next() {
            Some(kv) => {
                let (k, v) = kv;
                proof {
                    assert(kv == pairs[i0]);
                }
                r.insert(*v, *k);
                proof {
                    assert forall|j: int|
                        0 <= j < w.index() implies r@.dom().contains(*#[trigger] pairs[j].1)
                        && r@[*pairs[j].1] == *pairs[j].0 by {
                        if j < i0 {
                            assert(*pairs[j].0 != *pairs[i0].0);
                            assert(*pairs[j].1 != *pairs[i0].1);
                        }
                    }
                }
            },
            None => {
                break ;
            },
        }
    }
    proof {
        assert forall|k: u64| #[trigger] mapping@.dom().contains(k) implies r@.dom().contains(
            mapping@[k],
        ) && r@[mapping@[k]] == k by {
            assert(mapping@.contains_key(k));
            assert(pairs.contains((&k, &mapping@[k])));
            let j = choose|j: int| 0 <= j < pairs.len() && pairs[j] == (&k, &mapping@[k]);
            assert(*pairs[j].1 == mapping@[k] && *pairs[j].0 == k);
        }
        assert forall|v: usize| #[trigger] r@.dom().contains(v) implies exists|k: u64|
            mapping@.dom().contains(k) && mapping@[k] == v by {
            let j = choose|j: int| 0 <= j < pairs.len() && *pairs[j].1 == v;
            assert(mapping@.dom().contains(*pairs[j].0) && mapping@[*pairs[j].0] == v);
        }
    }
    r
}

} // verus!
