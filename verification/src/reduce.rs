//! Reduction of a 64-bit hash to an integer in `[0, n)`.
//!
//! Two variants: `FastReduce` works for any positive `n` through a full
//! 128-bit multiply; `MaskReduce` masks the low bits when `n` is a power of
//! two.

use vstd::prelude::*;
use vstd::arithmetic::mul::{lemma_mul_inequality, lemma_mul_strict_inequality, lemma_mul_upper_bound};
use vstd::arithmetic::div_mod::lemma_multiply_divide_lt;

verus! {

/// 2^64, the denominator of the multiply-shift reduction.
pub const TWO64: u128 = 0x1_0000_0000_0000_0000;

/// The multiply-shift image of `h` in `[0, n)`: the high 64 bits of `h * n`.
pub open spec fn spec_fastrange(h: u64, n: usize) -> int {
    (h as int * n as int) / 0x1_0000_0000_0000_0000
}

/// Reduce `h` to `[0, n)` by taking the high word of the 128-bit product
/// `h * n`.
pub fn fastrange(h: u64, n: usize) -> (r: usize)
    ensures
        r == spec_fastrange(h, n),
        n > 0 ==> r < n,
        n == 0 ==> r == 0,
{
    proof {
        lemma_mul_upper_bound(h as int, 0xffff_ffff_ffff_ffff, n as int, 0xffff_ffff_ffff_ffff);
    }
    let wide: u128 = (h as u128) * (n as u128);
    let r: u128 = wide / TWO64;
    proof {
        assert(wide == h as int * n as int);
        if n == 0 {
            assert(h as int * n as int == 0) by (nonlinear_arith)
                requires n == 0;
        } else {
            lemma_fastrange_in_range(h, n);
        }
        assert(r == spec_fastrange(h, n));
    }
    r as usize
}

/// The multiply-shift reduction lands strictly below `n`.
pub proof fn lemma_fastrange_in_range(h: u64, n: usize)
    requires
        n > 0,
    ensures
        0 <= spec_fastrange(h, n) < n,
{
    lemma_mul_inequality(h as int, 0xffff_ffff_ffff_ffff, n as int);
    lemma_mul_strict_inequality(0xffff_ffff_ffff_ffff, 0x1_0000_0000_0000_0000, n as int);
    lemma_multiply_divide_lt(h as int * n as int, 0x1_0000_0000_0000_0000, n as int);
}

/// Maps a 64-bit hash to an integer in `[0, range)`.
pub trait Reduce: Sized + Copy {
    spec fn wf(self) -> bool;

    spec fn range(self) -> int;

    spec fn spec_reduce(self, h: u64) -> int;

    fn reduce_hash(self, h: crate::hash::Hash) -> (r: usize)
        requires
            self.wf(),
        ensures
            r == self.spec_reduce(h@),
            0 <= r < self.range(),
    ;
}

/// Multiply-shift reduction to an arbitrary positive range.
#[derive(Clone, Copy)]
pub struct FastReduce {
    pub n: usize,
}

impl FastReduce {
    pub fn new(n: usize) -> (d: Self)
        requires
            n > 0,
        ensures
            d.wf(),
            d.range() == n,
    {
        FastReduce { n }
    }
}

impl Reduce for FastReduce {
    open spec fn wf(self) -> bool {
        self.n > 0
    }

    open spec fn range(self) -> int {
        self.n as int
    }

    open spec fn spec_reduce(self, h: u64) -> int {
        spec_fastrange(h, self.n)
    }

    fn reduce_hash(self, h: crate::hash::Hash) -> (r: usize) {
        fastrange(h.get(), self.n)
    }
}

/// Mask reduction: keeps the low bits; the range is `mask + 1`, a power of
/// two when built through `new`.
#[derive(Clone, Copy)]
pub struct MaskReduce {
    pub mask: usize,
}

impl MaskReduce {
    /// Build the reducer for a power-of-two range `n`.
    pub fn new(n: usize) -> (d: Self)
        requires
            n > 0,
            (n & (n - 1) as usize) == 0,
        ensures
            d.wf(),
            d.range() == n,
    {
        let mask = n - 1;
        let d = MaskReduce { mask };
        proof {
            assert(d.range() == n);
        }
        d
    }
}

impl Reduce for MaskReduce {
    open spec fn wf(self) -> bool {
        true
    }

    open spec fn range(self) -> int {
        self.mask as int + 1
    }

    open spec fn spec_reduce(self, h: u64) -> int {
        (h as usize & self.mask) as int
    }

    fn reduce_hash(self, h: crate::hash::Hash) -> (r: usize) {
        let r = (h.get() as usize) & self.mask;
        proof {
            let hu = h@ as usize;
            let m = self.mask;
            assert((hu & m) <= m) by (bit_vector);
        }
        r
    }
}

} // verus!
