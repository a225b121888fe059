//! The bit vector of the `bitvec` crate, as the solver uses it.
use bitvec::vec::BitVec;
use vstd::prelude::*;

verus! {

/// A `bitvec` bit vector (with its default storage and bit order), held opaquely.
#[verifier::external_body]
pub struct Bits {
    inner: BitVec,
}

/// The bits held by a bit vector, in order.
pub uninterp spec fn bits_of(v: Bits) -> Seq<bool>;

/// Calls `BitVec::new`: the result holds no bits.
#[verifier::external_body]
pub(crate) fn bitvec_new() -> (v: Bits)
    ensures
        bits_of(v) == Seq::<bool>::empty(),
{
    Bits { inner: BitVec::new() }
}

/// Calls `BitVec::len`: the number of bits held.
#[verifier::external_body]
pub(crate) fn bitvec_len(v: &Bits) -> (len: usize)
    ensures
        len == bits_of(*v).len(),
{
    v.inner.len()
}

/// Indexes a `BitVec` (its `Index<usize>` impl): the bit at the position.
#[verifier::external_body]
pub(crate) fn bitvec_get(v: &Bits, index: usize) -> (bit: bool)
    requires
        index < bits_of(*v).len(),
    ensures
        bit == bits_of(*v)[index as int],
{
    v.inner[index]
}

/// Calls `BitSlice::set` on a `BitVec`: only the bit at the position changes.
#[verifier::external_body]
pub(crate) fn bitvec_set(v: &mut Bits, index: usize, bit: bool)
    requires
        index < bits_of(*old(v)).len(),
    ensures
        bits_of(*final(v)) == bits_of(*old(v)).update(index as int, bit),
{
    v.inner.set(index, bit)
}

/// Calls `BitVec::resize`: the bits are truncated to, or extended with `bit` up to, the new
/// length, which must not exceed the largest length a `BitVec` can encode.
#[verifier::external_body]
pub(crate) fn bitvec_resize(v: &mut Bits, new_len: usize, bit: bool)
    requires
        new_len <= usize::MAX / 8,
    ensures
        bits_of(*final(v)).len() == new_len,
        forall|i: int|
            0 <= i < new_len ==> #[trigger] bits_of(*final(v))[i] == if i < bits_of(*old(v)).len() {
                bits_of(*old(v))[i]
            } else {
                bit
            },
{
    v.inner.resize(new_len, bit)
}

} // verus!
