//! Core of a PTHash-family minimal perfect hash function builder.
//!
//! Given a static set of distinct 64-bit keys, the library constructs a
//! compact table of one-byte "pilots", one per bucket of keys, such that a
//! pilot-dependent secondary hash sends every key of the set to its own
//! output slot. Construction is a greedy bucket-displacement search with
//! eviction, collision scoring and a tabu ring; evaluation is constant time.

pub mod bits;
pub mod partition;
pub mod displace;
pub mod hash;
pub mod index;
pub mod reduce;

pub use hash::{Hasher, Key, Murmur, XorHash, MulHash, NoHash};
pub use reduce::{Reduce, FastReduce, MaskReduce};
