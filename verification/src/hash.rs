//! Strongly typed 64-bit hash values and the family of key hashers.
//!
//! The engine consumes only hashes, never keys; the operations on a hash are
//! deliberately restricted to xor, range reduction and the high/low split.

use vstd::prelude::*;
use vstd::bytes::spec_u64_to_le_bytes;
use crate::reduce::Reduce;

verus! {

/// Keys are opaque 64-bit integers; other widths go through a hasher.
pub type Key = u64;

/// Strong type for 64-bit hashes.
///
/// We want to limit what kind of operations we do on hashes.
/// In particular we only need:
/// - xor, for h(x) ^ h(k)
/// - reduce: h(x) -> [0, n)
/// - ord and the high/low 32-bit split
#[derive(Clone, Copy, Debug, Hash, PartialEq, Eq, PartialOrd, Default, Structural)]
pub struct Hash(u64);

impl View for Hash {
    type V = u64;

    closed spec fn view(&self) -> u64 {
        self.0
    }
}

impl Hash {
    pub fn new(v: u64) -> (h: Self)
        ensures
            h@ == v,
    {
        Hash(v)
    }

    pub fn get(&self) -> (v: u64)
        ensures
            v == self@,
    {
        self.0
    }

    /// The low 32 bits of the hash.
    pub fn get_low(&self) -> (v: u32)
        ensures
            v == low32(self@),
    {
        self.0 as u32
    }

    /// The high 32 bits of the hash.
    pub fn get_high(&self) -> (v: u32)
        ensures
            v == high32(self@),
    {
        (self.0 >> 32) as u32
    }

    /// Map the hash into the reducer's range.
    pub fn reduce<R: Reduce>(self, d: R) -> (r: usize)
        requires
            d.wf(),
        ensures
            r == d.spec_reduce(self@),
            0 <= r < d.range(),
    {
        d.reduce_hash(self)
    }

    /// Combine two hashes; used as h(x) ^ hash_pilot(p).
    pub fn xor(self, rhs: Self) -> (r: Self)
        ensures
            r@ == (self@ ^ rhs@),
    {
        Hash(self.0 ^ rhs.0)
    }
}

pub open spec fn low32(h: u64) -> u32 {
    h as u32
}

pub open spec fn high32(h: u64) -> u32 {
    (h >> 32) as u32
}

/// A family of key hashers. Each implementation fixes, as `spec_hash`, the
/// mathematical function its executable `hash` computes, so that contracts
/// over indexes built with different hashers stay exact.
pub trait Hasher {
    spec fn spec_hash(x: Key, seed: u64) -> u64;

    fn hash(x: &Key, seed: u64) -> (h: Hash)
        ensures
            h@ == Self::spec_hash(*x, seed),
    ;
}

/// The 64-bit MurmurHash2 digest of a byte string under a seed. The digest is
/// a pure function of the bytes and the seed; its pages-long definition is
/// deliberately left unstated.
pub uninterp spec fn murmur64a_of(data: Seq<u8>, seed: u64) -> u64;

/// Relies on murmur2::murmur64a: the 64-bit MurmurHash2 variant for 64-bit
/// platforms, a deterministic digest of the input bytes under the seed. The
/// key is handed over as its little-endian bytes.
#[verifier::external_body]
fn murmur64a_u64(x: u64, seed: u64) -> (r: u64)
    ensures
        r == murmur64a_of(spec_u64_to_le_bytes(x), seed),
{
    murmur2::murmur64a(&x.to_le_bytes(), seed)
}

/// MurmurHash2, 64-bit variant.
pub struct Murmur;

impl Hasher for Murmur {
    open spec fn spec_hash(x: Key, seed: u64) -> u64 {
        murmur64a_of(spec_u64_to_le_bytes(x), seed)
    }

    fn hash(x: &Key, seed: u64) -> (h: Hash) {
        Hash(murmur64a_u64(*x, seed))
    }
}

/// Xor the key and seed.
pub struct XorHash;

impl Hasher for XorHash {
    open spec fn spec_hash(x: Key, seed: u64) -> u64 {
        x ^ seed
    }

    fn hash(x: &Key, seed: u64) -> (h: Hash) {
        Hash(*x ^ seed)
    }
}

/// The mixing constant reused from MurmurHash.
pub const M_64: u64 = 0xc6a4a7935bd1e995;

/// Multiply the key by a mixing constant (modulo 2^64).
pub struct MulHash;

impl Hasher for MulHash {
    open spec fn spec_hash(x: Key, seed: u64) -> u64 {
        x.wrapping_mul(M_64)
    }

    fn hash(x: &Key, _seed: u64) -> (h: Hash) {
        Hash(x.wrapping_mul(M_64))
    }
}

/// Pass the key through unchanged.
pub struct NoHash;

impl Hasher for NoHash {
    open spec fn spec_hash(x: Key, _seed: u64) -> u64 {
        x
    }

    fn hash(x: &Key, _seed: u64) -> (h: Hash) {
        Hash(*x)
    }
}

} // verus!
