//! Approximate minimum set cover by the classical greedy heuristic.
//!
//! A caller hands in a collection of named sets drawn from a shared universe
//! of elements; the library selects a small subcollection whose union equals
//! the union of all the input sets.  The selection is implemented twice: once
//! directly on hash sets of elements, and once on bit-vector encodings of the
//! sets, and both implementations are verified against the same mathematical
//! description of the greedy loop.

use vstd::prelude::*;

pub mod bits;
pub mod bitset;
pub mod collection;
pub mod greedy_set_cover;
pub mod indexer;
pub mod laws;
pub mod model;
pub mod simulate;

verus! {

/// The ways a cover computation can be refused.
#[derive(Clone, Copy, Debug, PartialEq, Eq, Structural)]
pub enum CoverError {
    /// The algorithm selector was not one of the recognized values.
    ConfigurationError,
    /// The greedy loop exhausted its round budget while elements remained
    /// uncovered.  This cannot happen when the uncovered pool starts as the
    /// union of the very sets being searched; it is kept as a defensive check.
    UncoverableInput,
}

/// Finds an approximate solution to the set cover problem with the greedy
/// heuristic, choosing between the two implementations: `0` works directly on
/// hash sets of elements, `1` on bit-vector encodings.  Both return the same
/// sequence of identifiers, described by `spec_greedy`; any other selector is
/// a configuration error.
pub fn greedy_set_cover(sets: &collection::SetCollection, algo: i16) -> (r: Result<
    Vec<u64>,
    CoverError,
>)
    requires
        sets.wf(),
    ensures
        algo == 0 || algo == 1 ==> r is Ok && r->Ok_0@ == model::spec_greedy(
            sets@,
            model::universe(sets@),
        ),
        algo == 0 || algo == 1 ==> laws::covered_by_ids(sets@, r->Ok_0@) == model::universe(
            sets@,
        ) && r->Ok_0@.len() <= sets@.len(),
        !(algo == 0 || algo == 1) ==> r == Err::<Vec<u64>, CoverError>(
            CoverError::ConfigurationError,
        ),
{
    match algo {
        0 => match greedy_set_cover::greedy_set_cover_0(sets) {
            Ok(cover) => {
                proof {
                    model::lemma_universe_finite(sets@);
                    laws::lemma_greedy_coverage(sets@);
                    laws::lemma_cover_size(sets@, model::universe(sets@));
                }
                Ok(cover.ids())
            },
            Err(e) => Err(e),
        },
        1 => bitset::greedy_set_cover_1(sets),
        _ => Err(CoverError::ConfigurationError),
    }
}

} // verus!
