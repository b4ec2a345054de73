//! The rank/select bit vector behind the vertex boundary marks.
//!
//! The bits themselves live in `vers_vecs`: an append-only `BitVec` buffer is
//! filled during construction and frozen into an immutable `RsVec`, which
//! answers rank and select queries.  Verified code reaches both only through
//! the wrappers below, whose contracts speak of the held bit sequence.

use crate::seqs::{count_ones, count_zeros};
use vstd::prelude::*;

verus! {

#[verifier::external_type_specification]
#[verifier::external_body]
pub struct ExBitVec(vers_vecs::BitVec);

#[verifier::external_type_specification]
#[verifier::external_body]
pub struct ExRsVec(vers_vecs::RsVec);

/// The bits an append-only buffer holds, oldest first.
pub uninterp spec fn buf_bits(b: vers_vecs::BitVec) -> Seq<bool>;

/// The bits a frozen rank/select vector holds.
pub uninterp spec fn rs_bits(v: vers_vecs::RsVec) -> Seq<bool>;

/// Relies on vers_vecs::BitVec::new: a fresh buffer holds no bits.
#[verifier::external_body]
pub(crate) fn buf_new() -> (r: vers_vecs::BitVec)
    ensures
        buf_bits(r) == Seq::<bool>::empty(),
{
    vers_vecs::BitVec::new()
}

/// Relies on vers_vecs::BitVec::append: appends one bit at the end.
#[verifier::external_body]
pub(crate) fn buf_push(b: &mut vers_vecs::BitVec, bit: bool)
    ensures
        buf_bits(*final(b)) == buf_bits(*old(b)).push(bit),
{
    b.append(bit);
}

/// Relies on vers_vecs::RsVec::from_bit_vec: freezes the buffer, keeping its bits.
#[verifier::external_body]
pub(crate) fn rs_from_buf(b: vers_vecs::BitVec) -> (r: vers_vecs::RsVec)
    ensures
        rs_bits(r) == buf_bits(b),
{
    vers_vecs::RsVec::from_bit_vec(b)
}

/// Relies on vers_vecs::RsVec::len: the number of held bits.
#[verifier::external_body]
pub(crate) fn rs_len(v: &vers_vecs::RsVec) -> (r: usize)
    ensures
        r == rs_bits(*v).len(),
{
    v.len()
}

/// Relies on vers_vecs::RsVec::rank1: set bits before `pos`; past the end it
/// reports all set bits.
#[verifier::external_body]
pub(crate) fn rs_rank1(v: &vers_vecs::RsVec, pos: usize) -> (r: usize)
    ensures
        r == if pos <= rs_bits(*v).len() {
            count_ones(rs_bits(*v).take(pos as int))
        } else {
            count_ones(rs_bits(*v))
        },
{
    v.rank1(pos)
}

/// Relies on vers_vecs::RsVec::rank0: clear bits before `pos`; past the end it
/// reports all clear bits.
#[verifier::external_body]
pub(crate) fn rs_rank0(v: &vers_vecs::RsVec, pos: usize) -> (r: usize)
    ensures
        r == if pos <= rs_bits(*v).len() {
            count_zeros(rs_bits(*v).take(pos as int))
        } else {
            count_zeros(rs_bits(*v))
        },
{
    v.rank0(pos)
}

/// Relies on vers_vecs::RsVec::select1: position of the set bit with `k` set
/// bits before it, or the vector length if there is none.
#[verifier::external_body]
pub(crate) fn rs_select1(v: &vers_vecs::RsVec, k: usize) -> (r: usize)
    ensures
        k < count_ones(rs_bits(*v)) ==> {
            &&& r < rs_bits(*v).len()
            &&& rs_bits(*v)[r as int]
            &&& count_ones(rs_bits(*v).take(r as int)) == k
        },
        k >= count_ones(rs_bits(*v)) ==> r == rs_bits(*v).len(),
{
    v.select1(k)
}

/// Relies on vers_vecs::RsVec::select0: position of the clear bit with `k`
/// clear bits before it, or the vector length if there is none.
#[verifier::external_body]
pub(crate) fn rs_select0(v: &vers_vecs::RsVec, k: usize) -> (r: usize)
    ensures
        k < count_zeros(rs_bits(*v)) ==> {
            &&& r < rs_bits(*v).len()
            &&& !rs_bits(*v)[r as int]
            &&& count_zeros(rs_bits(*v).take(r as int)) == k
        },
        k >= count_zeros(rs_bits(*v)) ==> r == rs_bits(*v).len(),
{
    v.select0(k)
}

} // verus!
