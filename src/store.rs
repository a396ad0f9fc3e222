//! The backing bit storage: `bv::BitVec<u32>`, known to the proofs only
//! through the sequence of bits it holds.

use bv::Bits;
use bv::BitsMut;
use bv::BitsPush;
use vstd::prelude::*;

verus! {

/// Packed bit storage in 32-bit words. Verus cannot read `bv`'s generic
/// bound, so the vector is held here, opaque, and known through `bits_of`.
#[verifier::external_body]
#[derive(Debug)]
pub struct BitStore {
    data: bv::BitVec<u32>,
}

/// The bits held by a store, least significant first.
pub uninterp spec fn bits_of(v: BitStore) -> Seq<bool>;

/// Relies on `bv::BitVec::new`: a fresh vector holds no bits.
#[verifier::external_body]
pub(crate) fn store_new() -> (r: BitStore)
    ensures
        bits_of(r) == Seq::<bool>::empty(),
{
    BitStore { data: bv::BitVec::new() }
}

/// Relies on `bv::BitVec::len`: the number of bits held.
#[verifier::external_body]
pub(crate) fn store_len(v: &BitStore) -> (r: u64)
    ensures
        r as int == bits_of(*v).len(),
{
    v.data.len()
}

/// Relies on `Bits::get_bit` for `bv::BitVec`, which panics out of bounds.
#[verifier::external_body]
pub(crate) fn store_get(v: &BitStore, i: u64) -> (r: bool)
    requires
        (i as int) < bits_of(*v).len(),
    ensures
        r == bits_of(*v)[i as int],
{
    v.data.get_bit(i)
}

/// Relies on `BitsMut::set_bit` for `bv::BitVec`, which panics out of bounds.
#[verifier::external_body]
pub(crate) fn store_set(v: &mut BitStore, i: u64, b: bool)
    requires
        (i as int) < bits_of(*old(v)).len(),
    ensures
        bits_of(*final(v)) == bits_of(*old(v)).update(i as int, b),
{
    v.data.set_bit(i, b)
}

/// Relies on `BitsPush::push_bit` for `bv::BitVec`: appends one bit at the top.
#[verifier::external_body]
pub(crate) fn store_push(v: &mut BitStore, b: bool)
    requires
        bits_of(*old(v)).len() < u64::MAX,
    ensures
        bits_of(*final(v)) == bits_of(*old(v)).push(b),
{
    v.data.push_bit(b)
}

/// Relies on `bv::BitVec::truncate`: keeps the lowest `n` bits, or all of
/// them when there are no more than `n`.
#[verifier::external_body]
pub(crate) fn store_truncate(v: &mut BitStore, n: u64)
    ensures
        bits_of(*final(v)) == if (n as int) < bits_of(*old(v)).len() {
            bits_of(*old(v)).subrange(0, n as int)
        } else {
            bits_of(*old(v))
        },
{
    v.data.truncate(n)
}

/// Relies on `bv::BitVec::resize`: cuts to `n` bits, or grows to `n` bits
/// by appending copies of `b`.
#[verifier::external_body]
pub(crate) fn store_resize(v: &mut BitStore, n: u64, b: bool)
    ensures
        bits_of(*final(v)) == Seq::new(
            n as nat,
            |k: int| if k < bits_of(*old(v)).len() { bits_of(*old(v))[k] } else { b },
        ),
{
    v.data.resize(n, b)
}

/// Relies on `Clone` for `bv::BitVec`, which copies every block.
#[verifier::external_body]
pub(crate) fn store_copy(v: &BitStore) -> (r: BitStore)
    ensures
        bits_of(r) == bits_of(*v),
{
    BitStore { data: v.data.clone() }
}

impl Clone for BitStore {
    fn clone(&self) -> (r: Self)
        ensures
            bits_of(r) == bits_of(*self),
    {
        store_copy(self)
    }
}

} // verus!
