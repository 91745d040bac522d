//! The bit vector that backs the sieve, taken from the `bitvec` crate.

use bitvec::vec::BitVec;
use vstd::prelude::*;

verus! {

/// A `bitvec::vec::BitVec<usize>`, seen from verified code only through
/// `bits_of` and the functions below.
#[verifier::external_body]
pub struct Bits {
    inner: BitVec<usize>,
}

/// The most bits that a `BitVec<usize>` can hold (`usize::MAX >> 3`).
pub const MAX_BITS: usize = usize::MAX / 8;

/// The bits that a vector holds, in order.
pub uninterp spec fn bits_of(v: Bits) -> Seq<bool>;

/// Relies on `BitVec::repeat`: a vector of `len` copies of `bit`. It panics
/// above `MAX_BITS`.
#[verifier::external_body]
pub(crate) fn bits_repeat(bit: bool, len: usize) -> (r: Bits)
    requires
        len <= MAX_BITS,
    ensures
        bits_of(r).len() == len,
        forall|i: int| 0 <= i < len ==> #[trigger] bits_of(r)[i] == bit,
{
    Bits { inner: BitVec::repeat(bit, len) }
}

/// Relies on `BitVec::len`: the number of bits held.
#[verifier::external_body]
pub(crate) fn bits_len(v: &Bits) -> (r: usize)
    ensures
        r == bits_of(*v).len(),
{
    v.inner.len()
}

/// Relies on indexing a `BitSlice` by `usize`: the bit at position `i`; it
/// panics out of bounds.
#[verifier::external_body]
pub(crate) fn bits_get(v: &Bits, i: usize) -> (r: bool)
    requires
        i < bits_of(*v).len(),
    ensures
        r == bits_of(*v)[i as int],
{
    v.inner[i]
}

/// Relies on `BitSlice::set`: writes `bit` at position `i` and leaves the other
/// bits; it panics out of bounds.
#[verifier::external_body]
pub(crate) fn bits_set(v: &mut Bits, i: usize, bit: bool)
    requires
        i < bits_of(*old(v)).len(),
    ensures
        bits_of(*final(v)) == bits_of(*old(v)).update(i as int, bit),
{
    v.inner.set(i, bit)
}

} // verus!
