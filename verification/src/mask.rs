//! The 256-bit membership mask of a symbol set, held in a `bitvec` bit vector.
//!
//! Everything here is a thin layer over `bitvec::vec::BitVec`; nothing about
//! the bit vector itself is proved.

use bitvec::order::Lsb0;
use bitvec::vec::BitVec;
use vstd::prelude::*;

verus! {

/// A bit vector of the `bitvec` crate. Its contents are known to the
/// verifier only as `mask_bits`.
#[verifier::external_body]
#[derive(Debug, PartialEq, Eq)]
pub struct Mask {
    bits: BitVec<usize, Lsb0>,
}

/// The bits that a mask holds, first pushed first.
pub uninterp spec fn mask_bits(m: Mask) -> Seq<bool>;

/// `BitVec::new`: a bit vector that holds no bit.
#[verifier::external_body]
pub(crate) fn mask_new() -> (m: Mask)
    ensures
        mask_bits(m) == Seq::<bool>::empty(),
{
    Mask { bits: BitVec::new() }
}

/// `BitVec::push`: appends one bit. The call panics once the length would
/// pass the largest length a bit vector can encode, an eighth of the address
/// space; the bound asked for here stays below that on every target.
#[verifier::external_body]
pub(crate) fn mask_push(m: &mut Mask, bit: bool)
    requires
        mask_bits(*old(m)).len() < 0x1fff_ffff,
    ensures
        mask_bits(*final(m)) == mask_bits(*old(m)).push(bit),
{
    m.bits.push(bit)
}

/// `==` on two bit vectors: true exactly when they have the same length and
/// the same bit at every index.
#[verifier::external_body]
pub(crate) fn mask_eq(a: &Mask, b: &Mask) -> (same: bool)
    ensures
        same == (mask_bits(*a) == mask_bits(*b)),
{
    a.bits == b.bits
}

} // verus!
