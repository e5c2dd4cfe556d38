//! The dense bitmap of occupied slots, kept in a `bitvec` bit vector.
//!
//! Verus refuses a declaration of `bitvec::vec::BitVec` itself (its `BitStore`
//! and `BitOrder` bounds cannot be stated here), so the vector sits in a
//! private field of `TakenBits` and the contracts speak of the abstract bit
//! sequence `bits_of`.

use vstd::prelude::*;

verus! {

/// Bitmap of the occupied slots of one part.
#[verifier::external_body]
pub struct TakenBits {
    bits: bitvec::vec::BitVec,
}

/// The sequence of bits the bitmap holds.
pub uninterp spec fn bits_of(v: &TakenBits) -> Seq<bool>;

impl TakenBits {
    /// Relies on bitvec::vec::BitVec::repeat: a bit vector of `len` zero
    /// bits. It panics only when `len` exceeds the addressable bit capacity.
    #[verifier::external_body]
    pub fn new_false(len: usize) -> (v: Self)
        requires
            len < 0x1000_0000_0000_0000,
        ensures
            bits_of(&v) == Seq::new(len as nat, |i: int| false),
    {
        TakenBits { bits: bitvec::vec::BitVec::repeat(false, len) }
    }

    /// Relies on bitvec::slice::BitSlice::len (through the vector's deref):
    /// the number of bits held.
    #[verifier::external_body]
    pub fn len(&self) -> (n: usize)
        ensures
            n == bits_of(self).len(),
    {
        self.bits.len()
    }

    /// Relies on bitvec::slice::BitSlice's indexing (through the vector's
    /// deref): the bit at `i`. It panics only out of bounds.
    #[verifier::external_body]
    pub fn get(&self, i: usize) -> (b: bool)
        requires
            i < bits_of(self).len(),
        ensures
            b == bits_of(self)[i as int],
    {
        self.bits[i]
    }

    /// Relies on bitvec::slice::BitSlice::set (through the vector's deref):
    /// writes the bit at `i` and leaves every other bit alone. It panics
    /// only out of bounds.
    #[verifier::external_body]
    pub fn set(&mut self, i: usize, b: bool)
        requires
            i < bits_of(old(self)).len(),
        ensures
            bits_of(final(self)) == bits_of(old(self)).update(i as int, b),
    {
        self.bits.set(i, b);
    }
}

} // verus!
