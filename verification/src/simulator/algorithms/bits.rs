//! Bit vectors.

use bitvec::vec::BitVec;
use vstd::prelude::*;

verus! {

/// A bit vector of the `bitvec` crate.
#[verifier::external_body]
#[derive(Debug)]
pub struct Bits {
    inner: BitVec,
}

/// The bits of a bit vector, in order.
pub uninterp spec fn bits_of(v: Bits) -> Seq<bool>;

impl View for Bits {
    type V = Seq<bool>;

    open spec fn view(&self) -> Seq<bool> {
        bits_of(*self)
    }
}

/// The longest bit vector.
pub const MAX_BITS: usize = usize::MAX / 8;

/// `BitVec::repeat` with a false bit: a vector of `len` false bits. It panics past
/// `MAX_BITS`.
#[verifier::external_body]
fn repeat_false(len: usize) -> (v: Bits)
    requires
        len <= MAX_BITS,
    ensures
        bits_of(v) == Seq::new(len as nat, |i: int| false),
{
    Bits { inner: BitVec::repeat(false, len) }
}

/// `BitSlice::len`, through the vector: the number of bits, which never exceeds `MAX_BITS`.
#[verifier::external_body]
fn bit_count(v: &Bits) -> (n: usize)
    ensures
        n == bits_of(*v).len(),
        n <= MAX_BITS,
{
    v.inner.len()
}

/// Indexing a bit vector: the bit at `i`.
#[verifier::external_body]
fn bit_at(v: &Bits, i: usize) -> (b: bool)
    requires
        i < bits_of(*v).len(),
    ensures
        b == bits_of(*v)[i as int],
{
    v.inner[i]
}

/// `BitSlice::set`, through the vector: replaces the bit at `i`. It only panics on indices
/// that are out of range.
#[verifier::external_body]
fn set_bit(v: &mut Bits, i: usize, b: bool)
    requires
        i < bits_of(*old(v)).len(),
    ensures
        bits_of(*final(v)) == bits_of(*old(v)).update(i as int, b),
    no_unwind
{
    v.inner.set(i, b)
}

impl Bits {
    /// A vector of false bits.
    pub fn falses(len: usize) -> (v: Self)
        requires
            len <= MAX_BITS,
        ensures
            v@ == Seq::new(len as nat, |i: int| false),
    {
        repeat_false(len)
    }

    pub fn len(&self) -> (n: usize)
        ensures
            n == self@.len(),
            n <= MAX_BITS,
    {
        bit_count(self)
    }

    pub fn get(&self, i: usize) -> (b: bool)
        requires
            i < self@.len(),
        ensures
            b == self@[i as int],
    {
        bit_at(self, i)
    }

    pub fn set(&mut self, i: usize, b: bool)
        requires
            i < old(self)@.len(),
        ensures
            final(self)@ == old(self)@.update(i as int, b),
        no_unwind
    {
        set_bit(self, i, b)
    }
}

} // verus!
