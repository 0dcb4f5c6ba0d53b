//! Fixed-length bitmaps, indexed by dictionary id.

use bit_vec::BitVec;
use vstd::prelude::*;

verus! {

/// A bitmap with one bit per dictionary id.
pub type BitMap = BitVec;

/// The bit vector of the bit-vec crate, opaque to proofs: what it holds is
/// named by `bits_of`.
#[verifier::external_type_specification]
#[verifier::external_body]
#[verifier::reject_recursive_types(B)]
pub struct ExBitVec<B>(BitVec<B>);

/// The bits that a bitmap holds, in index order.
pub uninterp spec fn bits_of(b: BitVec) -> Seq<bool>;

/// Relies on `BitVec::from_elem`: `len` bits, each equal to `bit`.
#[verifier::external_body]
pub(crate) fn bitmap_filled(len: usize, bit: bool) -> (r: BitMap)
    ensures
        bits_of(r) == Seq::new(len as nat, |i: int| bit),
{
    BitVec::from_elem(len, bit)
}

/// Relies on `BitVec::set`: bit `i` becomes `x`, the others stay; it panics
/// when `i` is not below the length.
#[verifier::external_body]
pub(crate) fn bitmap_set(b: &mut BitMap, i: usize, x: bool)
    requires
        i < bits_of(*old(b)).len(),
    ensures
        bits_of(*final(b)) == bits_of(*old(b)).update(i as int, x),
{
    b.set(i, x)
}

/// Relies on `BitVec::get`: the bit at `i`, or `None` past the end.
#[verifier::external_body]
pub(crate) fn bitmap_get(b: &BitMap, i: usize) -> (r: Option<bool>)
    ensures
        i < bits_of(*b).len() ==> r == Some(bits_of(*b)[i as int]),
        i >= bits_of(*b).len() ==> r.is_none(),
{
    b.get(i)
}

} // verus!
