//! A collection of named sets: the input (and, for the direct selector, the
//! output) of the cover computation.
//!
//! Each entry pairs a `u64` set identifier with the elements of that set, and
//! well-formed collections carry each identifier at most once.  Entries keep
//! the order in which they were first inserted, which fixes the tie-break
//! order of the greedy selection.

use vstd::prelude::*;

use crate::model::{has_id, uniq_ids, universe};

verus! {

/// A mapping from set identifier to the elements of that set.
pub struct SetCollection {
    entries: Vec<(u64, Vec<u64>)>,
}

impl View for SetCollection {
    type V = Seq<(u64, Seq<u64>)>;

    closed spec fn view(&self) -> Seq<(u64, Seq<u64>)> {
        Seq::new(self.entries@.len(), |i: int| (self.entries@[i].0, self.entries@[i].1@))
    }
}

impl SetCollection {
    /// Each identifier names at most one entry.
    pub open spec fn wf(&self) -> bool {
        uniq_ids(self@)
    }

    /// An empty collection.
    pub fn new() -> (r: SetCollection)
        ensures
            r@ == Seq::<(u64, Seq<u64>)>::empty(),
            r.wf(),
    {
        let r = SetCollection { entries: Vec::new() };
        proof {
            assert(r@ =~= Seq::<(u64, Seq<u64>)>::empty());
        }
        r
    }

    /// How many sets the collection holds.
    pub fn len(&self) -> (n: usize)
        ensures
            n == self@.len(),
    {
        self.entries.len()
    }

    /// The identifier of the set at position `i`.
    pub fn id_at(&self, i: usize) -> (id: u64)
        requires
            i < self@.len(),
        ensures
            id == self@[i as int].0,
    {
        self.entries[i].0
    }

    /// The elements of the set at position `i`.
    pub fn elems_at(&self, i: usize) -> (elems: &Vec<u64>)
        requires
            i < self@.len(),
        ensures
            elems@ == self@[i as int].1,
    {
        &self.entries[i].1
    }

    /// Whether some set carries the identifier `id`.
    pub fn contains_id(&self, id: u64) -> (r: bool)
        ensures
            r <==> has_id(self@, id),
    {
        let n = self.entries.len();
        for i in 0..n
            invariant
                n == self@.len(),
                forall|k: int| 0 <= k < i ==> self@[k].0 != id,
        {
            if self.entries[i].0 == id {
                proof {
                    assert(self@[i as int].0 == id);
                }
                return true;
            }
        }
        false
    }

    /// Binds `id` to `elems`: the entry already carrying `id` is replaced in
    /// place, or a new entry is appended.
    pub fn insert(&mut self, id: u64, elems: Vec<u64>)
        requires
            old(self).wf(),
        ensures
            final(self).wf(),
            has_id(old(self)@, id) ==> exists|k: int|
                0 <= k < old(self)@.len() && old(self)@[k].0 == id
                    && #[trigger] final(self)@ == old(self)@.update(k, (id, elems@)),
            !has_id(old(self)@, id) ==> final(self)@ == old(self)@.push((id, elems@)),
    {
        let n = self.entries.len();
        for i in 0..n
            invariant
                n == self@.len(),
                *self == *old(self),
                old(self).wf(),
                forall|k: int| 0 <= k < i ==> self@[k].0 != id,
        {
            if self.entries[i].0 == id {
                proof {
                    assert(old(self)@[i as int].0 == id);
                }
                self.entries[i] = (id, elems);
                proof {
                    assert(self@ =~= old(self)@.update(i as int, (id, elems@)));
                    assert forall|p: int, q: int|
                        0 <= p < q < self@.len() implies self@[p].0 != self@[q].0 by {
                        assert(old(self)@[p].0 != old(self)@[q].0);
                    }
                }
                return ;
            }
        }
        self.entries.push((id, elems));
        proof {
            assert(self@ =~= old(self)@.push((id, elems@)));
        }
    }

    /// Appends an entry whose identifier is not yet present.
    pub fn push_entry(&mut self, id: u64, elems: Vec<u64>)
        requires
            old(self).wf(),
            !has_id(old(self)@, id),
        ensures
            final(self).wf(),
            final(self)@ == old(self)@.push((id, elems@)),
    {
        self.entries.push((id, elems));
        proof {
            assert(self@ =~= old(self)@.push((id, elems@)));
        }
    }

    /// The identifiers of all sets, in entry order.
    pub fn ids(&self) -> (r: Vec<u64>)
        ensures
            r@ == crate::model::set_ids(self@),
    {
        let n = self.entries.len();
        let mut r: Vec<u64> = Vec::new();
        for i in 0..n
            invariant
                n == self@.len(),
                r@.len() == i,
                forall|k: int| 0 <= k < i ==> r@[k] == self@[k].0,
        {
            r.push(self.entries[i].0);
        }
        proof {
            assert(r@ =~= crate::model::set_ids(self@));
        }
        r
    }

    /// The elements of the set named `id`, if any set carries that name.
    pub fn get(&self, id: u64) -> (r: Option<&Vec<u64>>)
        requires
            self.wf(),
        ensures
            match r {
                Some(elems) => has_id(self@, id) && exists|k: int|
                    0 <= k < self@.len() && self@[k].0 == id && #[trigger] self@[k].1 == elems@,
                None => !has_id(self@, id),
            },
    {
        let n = self.entries.len();
        for i in 0..n
            invariant
                n == self@.len(),
                forall|k: int| 0 <= k < i ==> self@[k].0 != id,
        {
            if self.entries[i].0 == id {
                proof {
                    assert(self@[i as int].0 == id && self@[i as int].1 == self.entries@[i as int].1@);
                }
                return Some(&self.entries[i].1);
            }
        }
        None
    }

    /// The elements of every set, concatenated in entry order.
    pub fn all_elements(&self) -> (r: Vec<u64>)
        ensures
            r@ == flat_elements(self@),
    {
        let n = self.entries.len();
        let mut r: Vec<u64> = Vec::new();
        for i in 0..n
            invariant
                n == self@.len(),
                r@ == flat_elements(self@.take(i as int)),
        {
            let elems = &self.entries[i].1;
            let m = elems.len();
            for j in 0..m
                invariant
                    n == self@.len(),
                    i < n,
                    m == self@[i as int].1.len(),
                    elems@ == self@[i as int].1,
                    r@ == flat_elements(self@.take(i as int)) + self@[i as int].1.take(j as int),
            {
                r.push(elems[j]);
                proof {
                    assert(self@[i as int].1.take(j as int).push(self@[i as int].1[j as int])
                        =~= self@[i as int].1.take(j + 1));
                    assert(r@ =~= flat_elements(self@.take(i as int)) + self@[i as int].1.take(
                        j + 1,
                    ));
                }
            }
            proof {
                assert(self@.take(i + 1).drop_last() =~= self@.take(i as int));
                assert(self@[i as int].1.take(m as int) =~= self@[i as int].1);
                assert(r@ =~= flat_elements(self@.take(i + 1)));
            }
        }
        proof {
            assert(self@.take(self@.len() as int) =~= self@);
        }
        r
    }
}

/// The elements of every entry, concatenated in entry order.
pub open spec fn flat_elements(sets: Seq<(u64, Seq<u64>)>) -> Seq<u64>
    decreases sets.len(),
{
    if sets.len() == 0 {
        Seq::empty()
    } else {
        flat_elements(sets.drop_last()) + sets.last().1
    }
}

/// The distinct elements of the concatenation are exactly the universe.
pub proof fn lemma_flat_universe(sets: Seq<(u64, Seq<u64>)>)
    ensures
        flat_elements(sets).to_set() == universe(sets),
    decreases sets.len(),
{
    if sets.len() == 0 {
        assert(flat_elements(sets).to_set() =~= universe(sets));
    } else {
        lemma_flat_universe(sets.drop_last());
        vstd::seq_lib::seq_to_set_distributes_over_add(
            flat_elements(sets.drop_last()),
            sets.last().1,
        );
        assert(flat_elements(sets).to_set() =~= universe(sets));
    }
}

} // verus!
