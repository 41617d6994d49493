//! Trusted bindings to the `bitvec` crate.
//!
//! The bitset selector keeps its per-set membership bitmaps in
//! `bitvec::vec::BitVec`.  Verus cannot look inside that type, so its live
//! bits are named by the uninterpreted function [`bv_bits`], and each
//! operation the selector needs is a thin wrapper whose contract states, over
//! `bv_bits`, what the crate's source shows.

use vstd::prelude::*;

use bitvec::vec::BitVec;

verus! {

/// One set's membership bitmap, kept in a `bitvec::vec::BitVec`.  Verus sees
/// nothing of the carrier type, so the struct is opaque and its live bits are
/// named by [`bv_bits`].
#[verifier::external_body]
pub struct Bitmap {
    inner: BitVec,
}

/// The live bits of a bitmap, in index order.
pub uninterp spec fn bv_bits(v: Bitmap) -> Seq<bool>;

/// How many bits of a bitmap are set.
pub open spec fn popcount(bits: Seq<bool>) -> nat
    decreases bits.len(),
{
    if bits.len() == 0 {
        0
    } else {
        popcount(bits.drop_last()) + if bits.last() {
            1nat
        } else {
            0nat
        }
    }
}

/// Relies on `BitVec::repeat`: a bit-vector of `len` live bits, each equal to
/// `bit`.
#[verifier::external_body]
pub(crate) fn bv_repeat(bit: bool, len: usize) -> (r: Bitmap)
    ensures
        bv_bits(r) == Seq::new(len as nat, |j: int| bit),
{
    Bitmap { inner: BitVec::repeat(bit, len) }
}

/// Relies on `BitSlice::set`: writes one bit in place, leaving the others;
/// panics on an index at or past the length, which the precondition rules out.
#[verifier::external_body]
pub(crate) fn bv_set(v: &mut Bitmap, index: usize, value: bool)
    requires
        index < bv_bits(*old(v)).len(),
    ensures
        bv_bits(*final(v)) == bv_bits(*old(v)).update(index as int, value),
{
    v.inner.set(index, value);
}

/// Relies on `BitVec`'s `Clone::clone`: an identical copy of the live bits.
#[verifier::external_body]
pub(crate) fn bv_clone(v: &Bitmap) -> (r: Bitmap)
    ensures
        bv_bits(r) == bv_bits(*v),
{
    Bitmap { inner: v.inner.clone() }
}

/// Relies on `Clone::clone_from` for `BitVec`: the destination becomes a copy
/// of the source, reusing the destination's allocation where it can.
#[verifier::external_body]
pub(crate) fn bv_copy_from(dst: &mut Bitmap, src: &Bitmap)
    ensures
        bv_bits(*final(dst)) == bv_bits(*src),
{
    dst.inner.clone_from(&src.inner);
}

/// Relies on `BitAndAssign<&BitSlice>` (`&=`) of bitvec: with operands of one
/// length, each live bit of the destination becomes the conjunction of the
/// two operands' bits at that index.
#[verifier::external_body]
pub(crate) fn bv_and_assign(dst: &mut Bitmap, src: &Bitmap)
    requires
        bv_bits(*old(dst)).len() == bv_bits(*src).len(),
    ensures
        bv_bits(*final(dst)) == Seq::new(
            bv_bits(*src).len(),
            |j: int| bv_bits(*old(dst))[j] && bv_bits(*src)[j],
        ),
{
    dst.inner &= &src.inner;
}

/// Relies on `Not` (`!`) of bitvec: every live bit is flipped in place.
#[verifier::external_body]
pub(crate) fn bv_not(v: Bitmap) -> (r: Bitmap)
    ensures
        bv_bits(r) == Seq::new(bv_bits(v).len(), |j: int| !bv_bits(v)[j]),
{
    Bitmap { inner: !v.inner }
}

/// Relies on `BitSlice::count_ones`: the number of live bits set to one.
#[verifier::external_body]
pub(crate) fn bv_count_ones(v: &Bitmap) -> (r: usize)
    ensures
        r as nat == popcount(bv_bits(*v)),
{
    v.inner.count_ones()
}

/// Relies on `BitSlice::not_any`: true exactly when no live bit is set.
#[verifier::external_body]
pub(crate) fn bv_not_any(v: &Bitmap) -> (r: bool)
    ensures
        r <==> forall|j: int| 0 <= j < bv_bits(*v).len() ==> !bv_bits(*v)[j],
{
    v.inner.not_any()
}

} // verus!
