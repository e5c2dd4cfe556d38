//! Partitioning: from hashed keys to per-part, per-bucket sorted arrays.
//!
//! Keys are hashed once; each hash is assigned a part (by multiply-shift on
//! the full hash) and, inside its part, a bucket (by a skewed, piecewise
//! linear map of the hash's low 32 bits, so that a deliberate majority of
//! keys falls into the upper buckets and large buckets can be placed first).
//! Within each part the hashes are grouped by bucket with a counting sort
//! and each bucket is sorted, which makes the layout a function of the key
//! set alone, independent of input order.

use vstd::prelude::*;
use vstd::arithmetic::mul::{lemma_mul_strict_inequality, lemma_mul_upper_bound};
use vstd::arithmetic::div_mod::lemma_multiply_divide_lt;
use crate::hash::{Hasher, Murmur, XorHash, MulHash, NoHash};
use crate::displace::{PartData, part_wf, starts_wf, is_bucket_perm, blen, order_contains};

verus! {

/// Which member of the hasher family a build uses.
#[derive(Clone, Copy, Debug, PartialEq, Eq, Structural)]
pub enum HashKind {
    Murmur64,
    Xor,
    Mul,
    Identity,
}

/// The hash a build computes for a key under each hasher.
pub open spec fn spec_key_hash(kind: HashKind, x: u64, seed: u64) -> u64 {
    match kind {
        HashKind::Murmur64 => Murmur::spec_hash(x, seed),
        HashKind::Xor => XorHash::spec_hash(x, seed),
        HashKind::Mul => MulHash::spec_hash(x, seed),
        HashKind::Identity => NoHash::spec_hash(x, seed),
    }
}

/// Hash one key with the chosen hasher.
pub fn key_hash(kind: HashKind, x: u64, seed: u64) -> (h: u64)
    ensures
        h == spec_key_hash(kind, x, seed),
{
    match kind {
        HashKind::Murmur64 => Murmur::hash(&x, seed).get(),
        HashKind::Xor => XorHash::hash(&x, seed).get(),
        HashKind::Mul => MulHash::hash(&x, seed).get(),
        HashKind::Identity => NoHash::hash(&x, seed).get(),
    }
}

/// The boundary of the skewed bucket map: hashes whose low 32 bits fall
/// below it (about 0.3 of them) go to the lower 0.6 of the buckets.
pub const SKEW_SPLIT: u64 = 0x4CCC_CCCD;

/// 2^32, the range of the low 32 bits.
pub const TWO32: u64 = 0x1_0000_0000;

/// The skewed bucket of hash `h` among `nb` buckets: a fixed piecewise
/// linear, monotone map of the low 32 bits of `h`. The first branch spreads
/// the lower ~0.3 of the hash range over ~0.6 of the buckets; the rest of
/// the range fills the remaining buckets, so those buckets run large.
pub open spec fn spec_bucket_of(h: u64, nb: usize) -> int {
    let x = (h as u32) as int;
    let b6 = (6 * nb as int) / 10;
    if x < SKEW_SPLIT {
        (x * b6) / (SKEW_SPLIT as int)
    } else {
        b6 + ((x - SKEW_SPLIT) * (nb as int - b6)) / (TWO32 - SKEW_SPLIT) as int
    }
}

/// The skewed bucket always lands in `[0, nb)`.
pub proof fn lemma_bucket_range(h: u64, nb: usize)
    requires
        1 <= nb < 0x1_0000_0000,
    ensures
        0 <= spec_bucket_of(h, nb) < nb,
{
    let x = (h as u32) as int;
    let b6 = (6 * nb as int) / 10;
    lemma_multiply_divide_lt(6 * (nb as int), 10, nb as int);
    if x < SKEW_SPLIT {
        if b6 > 0 {
            lemma_mul_strict_inequality(x, SKEW_SPLIT as int, b6);
            lemma_multiply_divide_lt(x * b6, SKEW_SPLIT as int, b6);
        } else {
            assert(x * b6 == 0) by (nonlinear_arith)
                requires b6 == 0;
        }
        assert(x * b6 >= 0) by (nonlinear_arith)
            requires x >= 0 && b6 >= 0;
    } else {
        let rest = nb as int - b6;
        lemma_mul_strict_inequality(x - SKEW_SPLIT, (TWO32 - SKEW_SPLIT) as int, rest);
        lemma_multiply_divide_lt((x - SKEW_SPLIT) * rest, (TWO32 - SKEW_SPLIT) as int, rest);
        assert((x - SKEW_SPLIT) * rest >= 0) by (nonlinear_arith)
            requires x - SKEW_SPLIT >= 0 && rest >= 0;
    }
}

/// Compute the skewed bucket of `h`; the result is below `nb`.
pub fn bucket_of(h: u64, nb: usize) -> (b: usize)
    requires
        1 <= nb < 0x1_0000_0000,
    ensures
        b == spec_bucket_of(h, nb),
        b < nb,
{
    proof {
        lemma_bucket_range(h, nb);
        lemma_multiply_divide_lt(6 * (nb as int), 10, nb as int);
    }
    let x: u64 = (h as u32) as u64;
    let b6: u64 = (6 * (nb as u64)) / 10;
    if x < SKEW_SPLIT {
        proof {
            lemma_mul_upper_bound(x as int, 0xffff_ffff, b6 as int, 0xffff_ffff);
            assert(x as int * b6 as int >= 0) by (nonlinear_arith)
                requires x as int >= 0 && b6 as int >= 0;
        }
        let r = (x * b6) / SKEW_SPLIT;
        r as usize
    } else {
        let rest: u64 = (nb as u64) - b6;
        proof {
            lemma_mul_upper_bound((x - SKEW_SPLIT) as int, 0xffff_ffff, rest as int, 0xffff_ffff);
            assert((x - SKEW_SPLIT) as int * rest as int >= 0) by (nonlinear_arith)
                requires (x - SKEW_SPLIT) as int >= 0 && rest as int >= 0;
        }
        let r = b6 + ((x - SKEW_SPLIT) * rest) / (TWO32 - SKEW_SPLIT);
        r as usize
    }
}

/// Ascending order on a hash sequence.
pub open spec fn sorted_le(s: Seq<u64>) -> bool {
    forall|i: int, j: int| 0 <= i <= j < s.len() ==> s[i] <= s[j]
}

/// Relies on the standard library's `sort_unstable` on `[u64]`: sorts the
/// vector in ascending order; the result holds the same values (as a
/// multiset) as the input.
#[verifier::external_body]
fn sort_u64(v: &mut Vec<u64>)
    ensures
        sorted_le(final(v)@),
        final(v)@.to_multiset() == old(v)@.to_multiset(),
        final(v)@.len() == old(v)@.len(),
{
    v.sort_unstable();
}

/// How many of the first `upto` hashes fall in bucket `b`.
pub open spec fn count_bucket(kh: Seq<u64>, nb: usize, b: int, upto: int) -> int
    decreases upto,
{
    if upto <= 0 {
        0
    } else {
        count_bucket(kh, nb, b, upto - 1) + if spec_bucket_of(kh[upto - 1], nb) == b {
            1int
        } else {
            0int
        }
    }
}

/// How many of the first `upto` hashes fall in a bucket below `b`.
pub open spec fn total_below(kh: Seq<u64>, nb: usize, b: int, upto: int) -> int
    decreases upto,
{
    if upto <= 0 {
        0
    } else {
        total_below(kh, nb, b, upto - 1) + if spec_bucket_of(kh[upto - 1], nb) < b {
            1int
        } else {
            0int
        }
    }
}

proof fn lemma_count_mono(kh: Seq<u64>, nb: usize, b: int, i: int, j: int)
    requires
        0 <= i <= j,
    ensures
        count_bucket(kh, nb, b, i) <= count_bucket(kh, nb, b, j),
    decreases j - i,
{
    if i < j {
        lemma_count_mono(kh, nb, b, i, j - 1);
    }
}

proof fn lemma_total_below_step(kh: Seq<u64>, nb: usize, b: int, upto: int)
    ensures
        total_below(kh, nb, b + 1, upto) == total_below(kh, nb, b, upto) + count_bucket(
            kh,
            nb,
            b,
            upto,
        ),
    decreases upto,
{
    if upto > 0 {
        lemma_total_below_step(kh, nb, b, upto - 1);
    }
}

proof fn lemma_total_below_le(kh: Seq<u64>, nb: usize, b: int, upto: int)
    requires
        upto >= 0,
    ensures
        0 <= total_below(kh, nb, b, upto) <= upto,
    decreases upto,
{
    if upto > 0 {
        lemma_total_below_le(kh, nb, b, upto - 1);
    }
}

proof fn lemma_count_le(kh: Seq<u64>, nb: usize, b: int, upto: int)
    requires
        upto >= 0,
    ensures
        0 <= count_bucket(kh, nb, b, upto) <= upto,
    decreases upto,
{
    if upto > 0 {
        lemma_count_le(kh, nb, b, upto - 1);
    }
}

proof fn lemma_total_below_full(kh: Seq<u64>, nb: usize, upto: int)
    requires
        0 <= upto <= kh.len(),
        forall|i: int| 0 <= i < kh.len() ==> 0 <= #[trigger] spec_bucket_of(kh[i], nb) < nb,
    ensures
        total_below(kh, nb, nb as int, upto) == upto,
    decreases upto,
{
    if upto > 0 {
        lemma_total_below_full(kh, nb, upto - 1);
    }
}

proof fn lemma_total_below_zero(kh: Seq<u64>, nb: usize, upto: int)
    requires
        0 <= upto <= kh.len(),
        forall|i: int| 0 <= i < kh.len() ==> 0 <= #[trigger] spec_bucket_of(kh[i], nb) < nb,
    ensures
        total_below(kh, nb, 0, upto) == 0,
    decreases upto,
{
    if upto > 0 {
        lemma_total_below_zero(kh, nb, upto - 1);
    }
}

proof fn lemma_total_below_mono_b(kh: Seq<u64>, nb: usize, b1: int, b2: int, upto: int)
    requires
        b1 <= b2,
        upto >= 0,
    ensures
        total_below(kh, nb, b1, upto) <= total_below(kh, nb, b2, upto),
    decreases b2 - b1,
{
    if b1 < b2 {
        lemma_total_below_mono_b(kh, nb, b1, b2 - 1, upto);
        lemma_total_below_step(kh, nb, b2 - 1, upto);
        lemma_count_le(kh, nb, b2 - 1, upto);
    }
}

/// Every hash in `out[lo..hi]` belongs to bucket `b`.
pub open spec fn region_ok(out: Seq<u64>, nb: usize, lo: int, hi: int, b: int) -> bool {
    forall|t: int| lo <= t < hi ==> #[trigger] spec_bucket_of(out[t], nb) == b
}

/// Two positions of `s` hold the same hash.
pub open spec fn has_dup(s: Seq<u64>) -> bool {
    exists|i: int, j: int| 0 <= i < j < s.len() && #[trigger] s[i] == #[trigger] s[j]
}

/// Two distinct positions with one value put that value's count at two.
proof fn lemma_dup_count(s: Seq<u64>, i: int, j: int)
    requires
        0 <= i < j < s.len(),
        s[i] == s[j],
    ensures
        s.to_multiset().count(s[i]) >= 2,
{
    broadcast use vstd::seq_lib::group_to_multiset_ensures;
    broadcast use vstd::multiset::group_multiset_axioms;

    let v = s[i];
    assert(s.remove(i).to_multiset() =~= s.to_multiset().remove(v));
    assert(s.remove(i)[j - 1] == v);
    assert(s.remove(i).contains(v));
    assert(s.remove(i).to_multiset().count(v) > 0);
}

/// A count of two yields two distinct positions holding the value.
proof fn lemma_count_dup(s: Seq<u64>, v: u64)
    requires
        s.to_multiset().count(v) >= 2,
    ensures
        has_dup(s),
{
    broadcast use vstd::seq_lib::group_to_multiset_ensures;
    broadcast use vstd::multiset::group_multiset_axioms;

    assert(s.to_multiset().count(v) > 0);
    assert(s.contains(v));
    let i = choose|i: int| 0 <= i < s.len() && s[i] == v;
    assert(s.remove(i).to_multiset() =~= s.to_multiset().remove(v));
    assert(s.remove(i).to_multiset().count(v) > 0);
    assert(s.remove(i).contains(v));
    let j = choose|j: int| 0 <= j < s.remove(i).len() && s.remove(i)[j] == v;
    if j < i {
        assert(s[j] == v);
        assert(s[j] == s[i]);
    } else {
        assert(s[j + 1] == v);
        assert(s[i] == s[j + 1]);
    }
}

/// Every index below the total sits in some bucket's range.
proof fn lemma_region_of_index(starts: Seq<usize>, nb: usize, t: int)
    requires
        nb >= 1,
        starts.len() >= nb + 1,
        starts[0] == 0,
        forall|i: int, j: int| 0 <= i <= j < starts.len() ==> #[trigger] starts[i] <= #[trigger] starts[j],
        0 <= t < starts[nb as int],
    ensures
        exists|b: int| 0 <= b < nb && #[trigger] starts[b] <= t < starts[b + 1],
    decreases nb,
{
    if starts[nb - 1] <= t {
        assert(starts[nb - 1] <= t < starts[nb - 1 + 1]);
    } else {
        lemma_region_of_index(starts, (nb - 1) as usize, t);
    }
}

/// Hash `h` occurs among `out[lo..hi]`.
pub open spec fn occurs_range(out: Seq<u64>, lo: int, hi: int, h: u64) -> bool {
    exists|t: int| lo <= t < hi && out[t] == h
}

/// Group the part's hashes by bucket with a counting sort. The result is
/// the regrouped array and the bucket delimiters: bucket `b`'s hashes are
/// `out[starts[b]..starts[b + 1]]`, every hash sits in the bucket the skew
/// map assigns it, and every input hash occurs in its own bucket's range.
fn group_by_bucket(kh: &Vec<u64>, nb: usize) -> (r: (Vec<u64>, Vec<usize>))
    requires
        1 <= nb < 0x1_0000_0000,
        kh@.len() < 0x1_0000_0000,
    ensures
        starts_wf(r.1@, nb as int, r.0@.len() as int),
        r.0@.len() == kh@.len(),
        forall|b: int, k: int|
            0 <= b < nb && 0 <= k < blen(r.1@, b) ==> #[trigger] spec_bucket_of(
                r.0@[r.1@[b] + k],
                nb,
            ) == b,
        forall|i: int|
            0 <= i < kh@.len() ==> occurs_range(
                r.0@,
                r.1@[spec_bucket_of(#[trigger] kh@[i], nb)] as int,
                r.1@[spec_bucket_of(kh@[i], nb) + 1] as int,
                kh@[i],
            ),
        has_dup(r.0@) ==> has_dup(kh@),
        forall|i: int, j: int|
            0 <= i < j < kh@.len() && #[trigger] kh@[i] == #[trigger] kh@[j] ==> r.0@.subrange(
                r.1@[spec_bucket_of(kh@[i], nb)] as int,
                r.1@[spec_bucket_of(kh@[i], nb) + 1] as int,
            ).to_multiset().count(kh@[i]) >= 2,
{
    let n = kh.len();
    let ghost khs = kh@;
    proof {
        assert forall|i: int| 0 <= i < khs.len() implies 0 <= #[trigger] spec_bucket_of(
            khs[i],
            nb,
        ) < nb by {
            lemma_bucket_range(khs[i], nb);
        }
    }
    // count each bucket's size
    let mut counts: Vec<usize> = Vec::new();
    let mut c: usize = 0;
    while c < nb
        invariant
            counts@.len() == c,
            c <= nb,
            forall|b2: int| 0 <= b2 < c ==> #[trigger] counts@[b2] == 0,
        decreases nb - c,
    {
        counts.push(0);
        c += 1;
    }
    let mut i: usize = 0;
    while i < n
        invariant
            1 <= nb < 0x1_0000_0000,
            n == khs.len() < 0x1_0000_0000,
            khs == kh@,
            i <= n,
            counts@.len() == nb,
            forall|b2: int|
                0 <= b2 < nb ==> #[trigger] counts@[b2] == count_bucket(khs, nb, b2, i as int),
        decreases n - i,
    {
        let b = bucket_of(kh[i], nb);
        proof {
            lemma_count_le(khs, nb, b as int, i as int);
        }
        let cb = counts[b];
        counts.set(b, cb + 1);
        i += 1;
    }
    // prefix sums
    let mut starts: Vec<usize> = Vec::new();
    starts.push(0);
    proof {
        lemma_total_below_zero(khs, nb, n as int);
        assert forall|i2: int| 0 <= i2 < khs.len() implies 0 <= #[trigger] spec_bucket_of(
            khs[i2],
            nb,
        ) < nb by {
            lemma_bucket_range(khs[i2], nb);
        }
    }
    let mut b: usize = 0;
    while b < nb
        invariant
            1 <= nb < 0x1_0000_0000,
            n == khs.len() < 0x1_0000_0000,
            khs == kh@,
            b <= nb,
            counts@.len() == nb,
            forall|b2: int|
                0 <= b2 < nb ==> #[trigger] counts@[b2] == count_bucket(khs, nb, b2, n as int),
            starts@.len() == b + 1,
            forall|b2: int|
                0 <= b2 <= b ==> #[trigger] starts@[b2] == total_below(khs, nb, b2, n as int),
        decreases nb - b,
    {
        proof {
            lemma_total_below_step(khs, nb, b as int, n as int);
            lemma_total_below_le(khs, nb, b as int + 1, n as int);
        }
        let v = starts[b] + counts[b];
        starts.push(v);
        b += 1;
    }
    proof {
        lemma_total_below_full(khs, nb, n as int);
        assert(starts@[nb as int] == n);
        assert forall|i1: int, j1: int| 0 <= i1 <= j1 <= nb implies #[trigger] starts@[i1]
            <= #[trigger] starts@[j1] by {
            lemma_total_below_mono_b(khs, nb, i1, j1, n as int);
        }
    }
    // scatter: write each hash at its bucket's cursor
    let mut out: Vec<u64> = Vec::new();
    let mut c3: usize = 0;
    while c3 < n
        invariant
            out@.len() == c3,
            c3 <= n,
        decreases n - c3,
    {
        out.push(0);
        c3 += 1;
    }
    let mut cur: Vec<usize> = Vec::new();
    let mut c4: usize = 0;
    while c4 < nb
        invariant
            c4 <= nb,
            cur@.len() == c4,
            starts@.len() == nb + 1,
            forall|b2: int| 0 <= b2 < c4 ==> #[trigger] cur@[b2] == starts@[b2],
        decreases nb - c4,
    {
        cur.push(starts[c4]);
        c4 += 1;
    }
    let ghost mut src: Map<int, int> = Map::empty();
    let ghost mut dst: Map<int, int> = Map::empty();
    let mut i5: usize = 0;
    while i5 < n
        invariant
            forall|i2: int| #[trigger] dst.dom().contains(i2) <==> 0 <= i2 < i5,
            forall|i2: int|
                #[trigger] dst.dom().contains(i2) ==> starts@[spec_bucket_of(khs[i2], nb)]
                    <= dst[i2] < cur@[spec_bucket_of(khs[i2], nb)] && out@[dst[i2]] == khs[i2],
            forall|i1: int, i2: int|
                dst.dom().contains(i1) && dst.dom().contains(i2) && i1 != i2 ==> #[trigger] dst[i1]
                    != #[trigger] dst[i2],
            forall|t: int|
                #[trigger] src.dom().contains(t) ==> 0 <= t < n && 0 <= src[t] < i5
                    && out@[t] == khs[src[t]],
            forall|t1: int, t2: int|
                src.dom().contains(t1) && src.dom().contains(t2) && t1 != t2 ==> #[trigger] src[t1]
                    != #[trigger] src[t2],
            forall|b2: int, t: int|
                #![trigger starts@[b2], src.dom().contains(t)]
                0 <= b2 < nb && starts@[b2] <= t < cur@[b2] ==> src.dom().contains(t),
            1 <= nb < 0x1_0000_0000,
            n == khs.len() < 0x1_0000_0000,
            khs == kh@,
            i5 <= n,
            out@.len() == n,
            cur@.len() == nb,
            forall|i2: int|
                0 <= i2 < n ==> 0 <= #[trigger] spec_bucket_of(khs[i2], nb) < nb,
            starts@.len() == nb + 1,
            starts@[0] == 0,
            starts@[nb as int] == n,
            forall|b2: int|
                0 <= b2 <= nb ==> #[trigger] starts@[b2] == total_below(khs, nb, b2, n as int),
            forall|i1: int, j1: int|
                0 <= i1 <= j1 <= nb ==> #[trigger] starts@[i1] <= #[trigger] starts@[j1],
            forall|b2: int|
                0 <= b2 < nb ==> #[trigger] cur@[b2] == starts@[b2] + count_bucket(
                    khs,
                    nb,
                    b2,
                    i5 as int,
                ),
            forall|b2: int|
                0 <= b2 < nb ==> #[trigger] region_ok(
                    out@,
                    nb,
                    starts@[b2] as int,
                    cur@[b2] as int,
                    b2,
                ),
            forall|i2: int|
                0 <= i2 < i5 ==> occurs_range(
                    out@,
                    starts@[spec_bucket_of(#[trigger] khs[i2], nb)] as int,
                    cur@[spec_bucket_of(khs[i2], nb)] as int,
                    khs[i2],
                ),
        decreases n - i5,
    {
        let h = kh[i5];
        let b5 = bucket_of(h, nb);
        let ghost b5i = b5 as int;
        proof {
            lemma_count_mono(khs, nb, b5i, i5 as int + 1, n as int);
            lemma_total_below_step(khs, nb, b5i, n as int);
            lemma_count_le(khs, nb, b5i, i5 as int);
            // the cursor stays strictly inside the bucket's range
            assert(count_bucket(khs, nb, b5i, i5 as int + 1) == count_bucket(
                khs,
                nb,
                b5i,
                i5 as int,
            ) + 1);
            assert(cur@[b5i] < starts@[b5i + 1]);
            assert(starts@[b5i + 1] <= starts@[nb as int]);
        }
        let t = cur[b5];
        let ghost out_old = out@;
        let ghost cur_old = cur@;
        out.set(t, h);
        cur.set(b5, t + 1);
        proof {
            src = src.insert(t as int, i5 as int);
            dst = dst.insert(i5 as int, t as int);
            // the written cell lies outside every previously filled range,
            // so earlier writes keep their cells and values
            assert forall|i2: int|
                dst.dom().contains(i2) && i2 != i5 implies starts@[spec_bucket_of(khs[i2], nb)]
                <= dst[i2] < cur@[spec_bucket_of(khs[i2], nb)] && out@[dst[i2]] == khs[i2]
                && dst[i2] != t as int by {
                let b2 = spec_bucket_of(khs[i2], nb);
                if b2 != b5i {
                    assert(count_bucket(khs, nb, b2, i5 as int) <= count_bucket(
                        khs,
                        nb,
                        b2,
                        n as int,
                    )) by {
                        lemma_count_mono(khs, nb, b2, i5 as int, n as int);
                    }
                    lemma_total_below_step(khs, nb, b2, n as int);
                    assert(cur_old[b2] <= starts@[b2 + 1]);
                    if b2 < b5i {
                        assert(starts@[b2 + 1] <= starts@[b5i]);
                    } else {
                        assert(starts@[b5i + 1] <= starts@[b2]);
                    }
                }
                assert(out@[dst[i2]] == out_old[dst[i2]]);
            }
            // regions of other buckets do not hold index t
            assert forall|b2: int| 0 <= b2 < nb implies #[trigger] region_ok(
                out@,
                nb,
                starts@[b2] as int,
                cur@[b2] as int,
                b2,
            ) by {
                assert forall|t2: int|
                    starts@[b2] <= t2 < cur@[b2] implies #[trigger] spec_bucket_of(out@[t2], nb)
                    == b2 by {
                    if b2 != b5i {
                        assert(count_bucket(khs, nb, b2, i5 as int) <= count_bucket(
                            khs,
                            nb,
                            b2,
                            n as int,
                        )) by {
                            lemma_count_mono(khs, nb, b2, i5 as int, n as int);
                        }
                        lemma_total_below_step(khs, nb, b2, n as int);
                        assert(cur@[b2] <= starts@[b2 + 1]);
                        if b2 < b5i {
                            assert(starts@[b2 + 1] <= starts@[b5i]);
                            assert(t2 < t as int);
                        } else {
                            assert(starts@[b5i + 1] <= starts@[b2]);
                            assert((t as int) < t2);
                        }
                        assert(out@[t2] == out_old[t2]);
                        assert(region_ok(out_old, nb, starts@[b2] as int, cur_old[b2] as int, b2));
                    } else {
                        if t2 < t as int {
                            assert(out@[t2] == out_old[t2]);
                            assert(region_ok(
                                out_old,
                                nb,
                                starts@[b2] as int,
                                cur_old[b2] as int,
                                b2,
                            ));
                        } else {
                            assert(t2 == t as int);
                            assert(out@[t2] == h);
                        }
                    }
                }
            }
            assert forall|i2: int| 0 <= i2 < i5 + 1 implies occurs_range(
                out@,
                starts@[spec_bucket_of(#[trigger] khs[i2], nb)] as int,
                cur@[spec_bucket_of(khs[i2], nb)] as int,
                khs[i2],
            ) by {
                let b2 = spec_bucket_of(khs[i2], nb);
                if i2 < i5 {
                    let t2 = choose|t2: int|
                        starts@[b2] <= t2 < cur_old[b2] && out_old[t2] == khs[i2];
                    if b2 != b5i {
                        assert(count_bucket(khs, nb, b2, i5 as int) <= count_bucket(
                            khs,
                            nb,
                            b2,
                            n as int,
                        )) by {
                            lemma_count_mono(khs, nb, b2, i5 as int, n as int);
                        }
                        lemma_total_below_step(khs, nb, b2, n as int);
                        assert(cur_old[b2] <= starts@[b2 + 1]);
                        if b2 < b5i {
                            assert(starts@[b2 + 1] <= starts@[b5i]);
                        } else {
                            assert(starts@[b5i + 1] <= starts@[b2]);
                        }
                        assert(out@[t2] == khs[i2]);
                    } else {
                        assert(t2 < t as int);
                        assert(out@[t2] == khs[i2]);
                    }
                    assert(starts@[b2] <= t2 < cur@[b2]);
                } else {
                    assert(out@[t as int] == khs[i2]);
                    assert(starts@[b2] <= (t as int) < cur@[b2]);
                }
            }
        }
        i5 += 1;
    }
    proof {
        // the cursors reach the next delimiter: the regions are full
        assert forall|b2: int| 0 <= b2 < nb implies #[trigger] cur@[b2] == starts@[b2 + 1] by {
            lemma_total_below_step(khs, nb, b2, n as int);
        }
        assert forall|b2: int, k: int|
            0 <= b2 < nb && 0 <= k < blen(starts@, b2) implies #[trigger] spec_bucket_of(
            out@[starts@[b2] + k],
            nb,
        ) == b2 by {
            assert(region_ok(out@, nb, starts@[b2] as int, cur@[b2] as int, b2));
            assert(starts@[b2] <= starts@[b2] + k < cur@[b2]);
        }
        assert forall|i: int, j: int|
            0 <= i < j < khs.len() && #[trigger] khs[i] == #[trigger] khs[j] implies out@.subrange(
            starts@[spec_bucket_of(khs[i], nb)] as int,
            starts@[spec_bucket_of(khs[i], nb) + 1] as int,
        ).to_multiset().count(khs[i]) >= 2 by {
            let b = spec_bucket_of(khs[i], nb);
            let lo = starts@[b] as int;
            let hi = starts@[b + 1] as int;
            assert(dst.dom().contains(i));
            assert(dst.dom().contains(j));
            let t1 = dst[i];
            let t2 = dst[j];
            assert(spec_bucket_of(khs[j], nb) == b);
            assert(cur@[b] == starts@[b + 1]);
            assert(lo <= t1 < hi && lo <= t2 < hi && t1 != t2);
            assert(out@[t1] == khs[i] && out@[t2] == khs[i]);
            let sub = out@.subrange(lo, hi);
            assert(sub[t1 - lo] == khs[i] && sub[t2 - lo] == khs[i]);
            if t1 < t2 {
                lemma_dup_count(sub, t1 - lo, t2 - lo);
            } else {
                lemma_dup_count(sub, t2 - lo, t1 - lo);
            }
        }
        // two equal cells trace back, through the write map, to two
        // distinct input positions holding the same hash
        if has_dup(out@) {
            let (t1, t2) = choose|t1: int, t2: int|
                0 <= t1 < t2 < out@.len() && #[trigger] out@[t1] == #[trigger] out@[t2];
            if n > 0 {
                lemma_region_of_index(starts@, nb, t1);
                lemma_region_of_index(starts@, nb, t2);
                assert(src.dom().contains(t1));
                assert(src.dom().contains(t2));
                let i1 = src[t1];
                let i2 = src[t2];
                assert(khs[i1] == khs[i2] && i1 != i2);
                if i1 < i2 {
                    assert(has_dup(khs)) by {
                        assert(khs[i1] == khs[i2]);
                    }
                } else {
                    assert(has_dup(khs)) by {
                        assert(khs[i2] == khs[i1]);
                    }
                }
            }
        }
    }
    (out, starts)
}

/// Sort each bucket's range in place and reject exact 64-bit hash
/// duplicates, which sit adjacent after sorting. `false` reports a
/// duplicate; on `true` every bucket's hashes are strictly increasing, and
/// bucket membership and contents (as a multiset per bucket) are unchanged.
fn sort_buckets(out: &mut Vec<u64>, starts: &Vec<usize>, nb: usize) -> (ok: bool)
    requires
        1 <= nb < 0x1_0000_0000,
        old(out)@.len() < 0x1_0000_0000,
        starts_wf(starts@, nb as int, old(out)@.len() as int),
    ensures
        final(out)@.len() == old(out)@.len(),
        forall|b: int|
            0 <= b < nb ==> (#[trigger] final(out)@.subrange(
                starts@[b] as int,
                starts@[b + 1] as int,
            )).to_multiset() == old(out)@.subrange(
                starts@[b] as int,
                starts@[b + 1] as int,
            ).to_multiset(),
        ok ==> forall|b: int, k1: int, k2: int|
            0 <= b < nb && 0 <= k1 < k2 < blen(starts@, b) ==> final(out)@[#[trigger] (starts@[b]
                + k1)] < final(out)@[#[trigger] (starts@[b] + k2)],
        !ok ==> has_dup(old(out)@),
{
    let ghost n = old(out)@.len() as int;
    let mut b: usize = 0;
    let mut ok = true;
    while b < nb
        invariant
            1 <= nb < 0x1_0000_0000,
            starts_wf(starts@, nb as int, n),
            out@.len() == n,
            n == old(out)@.len(),
            n < 0x1_0000_0000,
            b <= nb,
            ok,
            forall|b2: int|
                0 <= b2 < nb ==> (#[trigger] out@.subrange(
                    starts@[b2] as int,
                    starts@[b2 + 1] as int,
                )).to_multiset() == old(out)@.subrange(
                    starts@[b2] as int,
                    starts@[b2 + 1] as int,
                ).to_multiset(),
            forall|b2: int, k1: int, k2: int|
                0 <= b2 < b && 0 <= k1 < k2 < blen(starts@, b2) ==> out@[#[trigger] (starts@[b2]
                    + k1)] < out@[#[trigger] (starts@[b2] + k2)],
        decreases nb - b,
    {
        let ghost bi = b as int;
        proof {
            assert(starts@[bi] <= starts@[bi + 1]);
            assert(starts@[bi + 1] <= starts@[nb as int]);
        }
        let sb = starts[b];
        let se = starts[b + 1];
        // pull the bucket out, sort it, write it back
        let mut tmp: Vec<u64> = Vec::new();
        let mut t: usize = sb;
        while t < se
            invariant
                out@.len() == n,
                sb == starts@[bi],
                se == starts@[bi + 1],
                se <= n,
                sb <= t <= se,
                tmp@ == out@.subrange(sb as int, t as int),
            decreases se - t,
        {
            tmp.push(out[t]);
            proof {
                assert(tmp@ =~= out@.subrange(sb as int, t + 1));
            }
            t += 1;
        }
        let ghost before = out@;
        sort_u64(&mut tmp);
        let mut t2: usize = 0;
        while t2 < se - sb
            invariant
                out@.len() == n,
                sb == starts@[bi],
                se == starts@[bi + 1],
                se <= n,
                t2 <= se - sb,
                tmp@.len() == se - sb,
                forall|u: int| 0 <= u < t2 ==> #[trigger] out@[sb + u] == tmp@[u],
                forall|u: int| !(sb <= u < sb + t2) && 0 <= u < n ==> #[trigger] out@[u]
                    == before[u],
            decreases se - sb - t2,
        {
            out.set(sb + t2, tmp[t2]);
            t2 += 1;
        }
        proof {
            assert forall|u: int| 0 <= u < se - sb implies out@.subrange(sb as int, se as int)[u]
                == tmp@[u] by {
                assert(out@[sb + u] == tmp@[u]);
            }
            assert(out@.subrange(sb as int, se as int) =~= tmp@);
            assert forall|b2: int| 0 <= b2 < nb implies (#[trigger] out@.subrange(
                starts@[b2] as int,
                starts@[b2 + 1] as int,
            )).to_multiset() == old(out)@.subrange(
                starts@[b2] as int,
                starts@[b2 + 1] as int,
            ).to_multiset() by {
                let lo = starts@[b2] as int;
                let hi = starts@[b2 + 1] as int;
                if b2 != bi {
                    assert(starts@[b2] <= starts@[b2 + 1]);
                    if b2 < bi {
                        assert(starts@[b2 + 1] <= starts@[bi]);
                    } else {
                        assert(starts@[bi + 1] <= starts@[b2]);
                    }
                    assert(out@.subrange(lo, hi) =~= before.subrange(lo, hi));
                } else {
                    assert(before.subrange(lo, hi).to_multiset() == old(out)@.subrange(
                        lo,
                        hi,
                    ).to_multiset());
                }
            }
            // earlier buckets keep their strict order: their cells are
            // untouched
            assert forall|b2: int, k1: int, k2: int|
                0 <= b2 < b && 0 <= k1 < k2 < blen(starts@, b2) implies out@[#[trigger] (
            starts@[b2] + k1)] < out@[#[trigger] (starts@[b2] + k2)] by {
                assert(starts@[b2 + 1] <= starts@[bi]);
                assert(out@[starts@[b2] + k1] == before[starts@[b2] + k1]);
                assert(out@[starts@[b2] + k2] == before[starts@[b2] + k2]);
            }
        }
        // adjacent duplicates mean two keys collided at the full 64 bits
        let mut t3: usize = sb;
        let mut dup = false;
        let ghost mut dup_at: int = 0;
        while se - t3 > 1
            invariant
                out@.len() == n,
                n < 0x1_0000_0000,
                sb == starts@[bi],
                se == starts@[bi + 1],
                se <= n,
                sb <= t3 <= se,
                !dup ==> forall|u: int| sb <= u < t3 ==> #[trigger] out@[u] != out@[u + 1],
                dup ==> sb <= dup_at && dup_at + 1 < se && out@[dup_at] == out@[dup_at + 1],
            decreases se - t3,
        {
            if out[t3] == out[t3 + 1] {
                dup = true;
                proof {
                    dup_at = t3 as int;
                }
            }
            t3 += 1;
        }
        if dup {
            proof {
                // the sorted bucket holds one value twice; its multiset is
                // that of the bucket before sorting, so the original array
                // already held a duplicate pair
                let sub = out@.subrange(sb as int, se as int);
                let oldsub = old(out)@.subrange(sb as int, se as int);
                assert(sub[dup_at - sb] == out@[dup_at]);
                assert(sub[dup_at + 1 - sb] == out@[dup_at + 1]);
                lemma_dup_count(sub, dup_at - sb, dup_at + 1 - sb);
                assert(sub.to_multiset() == oldsub.to_multiset());
                lemma_count_dup(oldsub, sub[dup_at - sb]);
                let (k1, k2) = choose|k1: int, k2: int|
                    0 <= k1 < k2 < oldsub.len() && #[trigger] oldsub[k1] == #[trigger] oldsub[k2];
                assert(old(out)@[sb + k1] == old(out)@[sb + k2]);
                assert(has_dup(old(out)@)) by {
                    assert(old(out)@[sb + k1] == old(out)@[sb + k2]);
                }
            }
            return false;
        }
        proof {
            // sorted plus distinct neighbours makes the bucket strictly
            // increasing
            assert forall|k1: int, k2: int|
                0 <= k1 < k2 < blen(starts@, bi) implies out@[#[trigger] (starts@[bi] + k1)]
                < out@[#[trigger] (starts@[bi] + k2)] by {
                let sub = out@.subrange(sb as int, se as int);
                assert(sub =~= tmp@);
                assert(sub[k1] <= sub[k1 + 1]);
                assert(sub[k1 + 1] <= sub[k2]);
                assert(out@[sb + k1] != out@[sb + k1 + 1]);
                assert(sub[k1] == out@[sb + k1]);
                assert(sub[k1 + 1] == out@[sb + k1 + 1]);
                assert(sub[k2] == out@[sb + k2]);
            }
        }
        b += 1;
    }
    true
}

/// Produce the processing order of a part: every bucket exactly once,
/// sorted by descending size, ties broken by ascending bucket id.
fn make_order(starts: &Vec<usize>, nb: usize) -> (order: Vec<usize>)
    requires
        1 <= nb < 0x1_0000_0000,
        starts@.len() == nb + 1,
        starts@[nb as int] < 0xffff_ffff,
        forall|i: int, j: int|
            0 <= i <= j <= nb ==> #[trigger] starts@[i] <= #[trigger] starts@[j],
    ensures
        is_bucket_perm(order@, nb as int),
        forall|i: int, j: int|
            0 <= i < j < nb ==> blen(starts@, #[trigger] order@[i] as int) >= blen(
                starts@,
                #[trigger] order@[j] as int,
            ),
        forall|i: int, j: int|
            0 <= i < j < nb && blen(starts@, #[trigger] order@[i] as int) == blen(
                starts@,
                #[trigger] order@[j] as int,
            ) ==> order@[i] < order@[j],
{
    let mut maxsz: usize = 0;
    let mut b: usize = 0;
    while b < nb
        invariant
            1 <= nb < 0x1_0000_0000,
            starts@.len() == nb + 1,
            starts@[nb as int] < 0xffff_ffff,
            forall|i: int, j: int|
                0 <= i <= j <= nb ==> #[trigger] starts@[i] <= #[trigger] starts@[j],
            b <= nb,
            maxsz <= starts@[nb as int],
            forall|b2: int| 0 <= b2 < b ==> blen(starts@, b2) <= maxsz,
        decreases nb - b,
    {
        let l = starts[b + 1] - starts[b];
        proof {
            assert(starts@[b + 1] <= starts@[nb as int]);
        }
        if l > maxsz {
            maxsz = l;
        }
        b += 1;
    }
    let mut order: Vec<usize> = Vec::new();
    let ghost mut remaining: Set<int> = vstd::set_lib::set_int_range(0, nb as int);
    proof {
        vstd::set_lib::lemma_int_range(0, nb as int);
    }
    let mut sz: usize = maxsz + 1;
    while sz > 0
        invariant
            1 <= nb < 0x1_0000_0000,
            starts@.len() == nb + 1,
            forall|i: int, j: int|
                0 <= i <= j <= nb ==> #[trigger] starts@[i] <= #[trigger] starts@[j],
            forall|b2: int| 0 <= b2 < nb ==> blen(starts@, b2) <= maxsz,
            sz <= maxsz + 1,
            forall|x: int|
                #[trigger] order_contains(order@, x) <==> (0 <= x < nb && blen(starts@, x) >= sz),
            forall|i: int| 0 <= i < order@.len() ==> #[trigger] order@[i] < nb,
            forall|i: int, j: int| 0 <= i < j < order@.len() ==> order@[i] != order@[j],
            forall|i: int, j: int|
                0 <= i < j < order@.len() ==> blen(starts@, #[trigger] order@[i] as int) >= blen(
                    starts@,
                    #[trigger] order@[j] as int,
                ),
            forall|i: int, j: int|
                0 <= i < j < order@.len() && blen(starts@, #[trigger] order@[i] as int) == blen(
                    starts@,
                    #[trigger] order@[j] as int,
                ) ==> order@[i] < order@[j],
            forall|x: int|
                #[trigger] remaining.contains(x) <==> (0 <= x < nb && !order_contains(order@, x)),
            remaining.finite(),
            remaining.len() + order@.len() == nb,
        decreases sz,
    {
        sz -= 1;
        proof {
            assert forall|i: int| 0 <= i < order@.len() implies blen(
                starts@,
                #[trigger] order@[i] as int,
            ) > sz by {
                assert(order_contains(order@, order@[i] as int));
            }
        }
        let mut b2: usize = 0;
        while b2 < nb
            invariant
                1 <= nb < 0x1_0000_0000,
                starts@.len() == nb + 1,
                forall|i: int, j: int|
                    0 <= i <= j <= nb ==> #[trigger] starts@[i] <= #[trigger] starts@[j],
                forall|b3: int| 0 <= b3 < nb ==> blen(starts@, b3) <= maxsz,
                sz <= maxsz,
                b2 <= nb,
                forall|x: int|
                    #[trigger] order_contains(order@, x) <==> (0 <= x < nb && (blen(starts@, x)
                        > sz || (blen(starts@, x) == sz && x < b2))),
                forall|i: int| 0 <= i < order@.len() ==> #[trigger] order@[i] < nb,
                forall|i: int, j: int| 0 <= i < j < order@.len() ==> order@[i] != order@[j],
                forall|i: int, j: int|
                    0 <= i < j < order@.len() ==> blen(starts@, #[trigger] order@[i] as int)
                        >= blen(starts@, #[trigger] order@[j] as int),
                forall|i: int, j: int|
                    0 <= i < j < order@.len() && blen(starts@, #[trigger] order@[i] as int)
                        == blen(starts@, #[trigger] order@[j] as int) ==> order@[i] < order@[j],
                forall|i: int|
                    0 <= i < order@.len() ==> blen(starts@, #[trigger] order@[i] as int) >= sz,
                forall|i: int|
                    0 <= i < order@.len() && blen(starts@, #[trigger] order@[i] as int) == sz
                        ==> order@[i] < b2,
                forall|x: int|
                    #[trigger] remaining.contains(x) <==> (0 <= x < nb && !order_contains(
                        order@,
                        x,
                    )),
                remaining.finite(),
                remaining.len() + order@.len() == nb,
            decreases nb - b2,
        {
            proof {
                assert(starts@[b2 + 1] <= starts@[nb as int]);
            }
            let l = starts[b2 + 1] - starts[b2];
            if l == sz {
                let ghost order_old = order@;
                let ghost rem_old = remaining;
                let ghost b2i = b2 as int;
                proof {
                    assert(!order_contains(order_old, b2i));
                }
                order.push(b2);
                proof {
                    remaining = remaining.remove(b2i);
                    vstd::set::axiom_set_remove_len(rem_old, b2i);
                    assert(order_contains(order@, b2i)) by {
                        assert(order@[order@.len() - 1] == b2);
                    }
                    assert forall|x: int| #[trigger] order_contains(order@, x) implies (
                    order_contains(order_old, x) || x == b2i) by {
                        let i = choose|i: int| 0 <= i < order@.len() && #[trigger] order@[i] == x;
                        if i < order@.len() - 1 {
                            assert(order_old[i] == x);
                        }
                    }
                    assert forall|x: int| order_contains(order_old, x) implies order_contains(
                        order@,
                        x,
                    ) by {
                        let i = choose|i: int|
                            0 <= i < order_old.len() && #[trigger] order_old[i] == x;
                        assert(order@[i] == x);
                    }
                    assert(blen(starts@, b2i) == sz);
                    assert forall|x: int| #[trigger] order_contains(order@, x) implies (0 <= x < nb
                        && (blen(starts@, x) > sz || (blen(starts@, x) == sz && x < b2 + 1))) by {
                        if x != b2i {
                            assert(order_contains(order_old, x));
                        }
                    }
                    assert forall|x: int|
                        0 <= x < nb && (blen(starts@, x) > sz || (blen(starts@, x) == sz && x < b2
                            + 1)) implies #[trigger] order_contains(order@, x) by {
                        if x != b2i {
                            assert(order_contains(order_old, x));
                        }
                    }
                }
            } else {
                proof {
                    assert forall|x: int| #[trigger] order_contains(order@, x) implies (0 <= x < nb
                        && (blen(starts@, x) > sz || (blen(starts@, x) == sz && x < b2 + 1))) by {}
                    assert forall|x: int|
                        0 <= x < nb && (blen(starts@, x) > sz || (blen(starts@, x) == sz && x < b2
                            + 1)) implies #[trigger] order_contains(order@, x) by {
                        if blen(starts@, x) == sz && x == b2 as int {
                            assert(false);
                        }
                    }
                }
            }
            b2 += 1;
        }
    }
    proof {
        // with the size threshold at zero every bucket is in the order, so
        // nothing remains and the order's length is exactly `nb`
        assert forall|x: int| !(#[trigger] remaining.contains(x)) by {
            if remaining.contains(x) {
                assert(blen(starts@, x) >= 0);
                assert(order_contains(order@, x));
            }
        }
        assert(remaining =~= Set::empty());
        assert(Set::<int>::empty().len() == 0);
        assert(order@.len() == nb);
        assert forall|b3: int| 0 <= b3 < nb implies #[trigger] order_contains(order@, b3) by {
            assert(blen(starts@, b3) >= 0);
        }
    }
    order
}

proof fn lemma_occurs_iff_contains(s: Seq<u64>, lo: int, hi: int, h: u64)
    requires
        0 <= lo <= hi <= s.len(),
    ensures
        occurs_range(s, lo, hi, h) <==> s.subrange(lo, hi).contains(h),
{
    if occurs_range(s, lo, hi, h) {
        let t = choose|t: int| lo <= t < hi && s[t] == h;
        assert(s.subrange(lo, hi)[t - lo] == h);
    }
    if s.subrange(lo, hi).contains(h) {
        let i = choose|i: int| 0 <= i < s.subrange(lo, hi).len() && s.subrange(lo, hi)[i] == h;
        assert(s[lo + i] == h);
    }
}

/// The layout law behind input-order independence: a sorted hash sequence
/// is determined by its contents alone. Buckets are laid out sorted, so two
/// builds that collect the same hashes into a bucket store it identically,
/// whatever order the keys arrived in.
pub proof fn lemma_sorted_hashes_canonical(x: Seq<u64>, y: Seq<u64>)
    requires
        sorted_le(x),
        sorted_le(y),
        x.to_multiset() == y.to_multiset(),
    ensures
        x == y,
{
    let leq = |a: u64, b: u64| a <= b;
    assert(vstd::relations::sorted_by(x, leq)) by {
        assert forall|i: int, j: int| 0 <= i < j < x.len() implies leq(x[i], x[j]) by {
            assert(x[i] <= x[j]);
        }
    }
    assert(vstd::relations::sorted_by(y, leq)) by {
        assert forall|i: int, j: int| 0 <= i < j < y.len() implies leq(y[i], y[j]) by {
            assert(y[i] <= y[j]);
        }
    }
    assert(vstd::relations::total_ordering(leq));
    vstd::seq_lib::lemma_sorted_unique(x, y, leq);
    assert(x =~= y);
}

/// A prepared part against its raw hash list `kh`: well-formed arrays,
/// every hash in the bucket the skew map assigns it, every hash of `kh`
/// present in its bucket's range, and each bucket strictly increasing.
pub open spec fn part_prepared(kh: Seq<u64>, pd: PartData, nb: usize) -> bool {
    &&& part_wf(pd, nb as int)
    &&& pd.starts@.len() == nb + 1
    &&& pd.hashes@.len() == kh.len()
    &&& forall|b: int, k: int|
        0 <= b < nb && 0 <= k < blen(pd.starts@, b) ==> #[trigger] spec_bucket_of(
            pd.hashes@[pd.starts@[b] + k],
            nb,
        ) == b
    &&& forall|i: int|
        0 <= i < kh.len() ==> occurs_range(
            pd.hashes@,
            pd.starts@[spec_bucket_of(#[trigger] kh[i], nb)] as int,
            pd.starts@[spec_bucket_of(kh[i], nb) + 1] as int,
            kh[i],
        )
    &&& forall|b: int, k1: int, k2: int|
        0 <= b < nb && 0 <= k1 < k2 < blen(pd.starts@, b) ==> pd.hashes@[#[trigger] (
        pd.starts@[b] + k1)] < pd.hashes@[#[trigger] (pd.starts@[b] + k2)]
}

/// Prepare one part for the displacement engine: group the part's hashes by
/// bucket, sort each bucket, and compute the processing order. `None`
/// reports two hashes equal at all 64 bits (duplicate keys, or a hasher too
/// weak for the key set). On `Some` the part is well-formed: every hash sits
/// in the bucket the skew map assigns it, every input hash occurs in its
/// bucket's range, and each bucket's hashes are strictly increasing.
pub fn prepare_part(kh: &Vec<u64>, nb: usize) -> (r: Option<PartData>)
    requires
        1 <= nb < 0x1_0000_0000,
        kh@.len() < 0xffff_ffff,
    ensures
        match r {
            Some(pd) => part_prepared(kh@, pd, nb) && !has_dup(kh@),
            None => has_dup(kh@),
        },
{
    broadcast use vstd::seq_lib::group_to_multiset_ensures;

    let (grouped, starts) = group_by_bucket(kh, nb);
    let ghost grouped0 = grouped@;
    let mut hashes = grouped;
    let ok = sort_buckets(&mut hashes, &starts, nb);
    if !ok {
        return None;
    }
    proof {
        // sorting a bucket keeps its contents: transfer membership and
        // bucket consistency through the per-bucket multisets
        assert forall|b: int, k: int|
            0 <= b < nb && 0 <= k < blen(starts@, b) implies #[trigger] spec_bucket_of(
            hashes@[starts@[b] + k],
            nb,
        ) == b by {
            let lo = starts@[b] as int;
            let hi = starts@[b + 1] as int;
            assert(starts@[b] <= starts@[b + 1]);
            assert(starts@[b + 1] <= starts@[nb as int]);
            let v = hashes@[lo + k];
            assert(hashes@.subrange(lo, hi)[k] == v);
            assert(hashes@.subrange(lo, hi).contains(v));
            assert(hashes@.subrange(lo, hi).to_multiset().contains(v));
            assert(grouped0.subrange(lo, hi).to_multiset().contains(v));
            assert(grouped0.subrange(lo, hi).contains(v));
            let k0 = choose|k0: int|
                0 <= k0 < grouped0.subrange(lo, hi).len() && grouped0.subrange(lo, hi)[k0] == v;
            assert(grouped0[lo + k0] == v);
            assert(spec_bucket_of(grouped0[starts@[b] + k0], nb) == b);
        }
        assert forall|i: int| 0 <= i < kh@.len() implies occurs_range(
            hashes@,
            starts@[spec_bucket_of(#[trigger] kh@[i], nb)] as int,
            starts@[spec_bucket_of(kh@[i], nb) + 1] as int,
            kh@[i],
        ) by {
            lemma_bucket_range(kh@[i], nb);
            let b = spec_bucket_of(kh@[i], nb);
            let lo = starts@[b] as int;
            let hi = starts@[b + 1] as int;
            assert(starts@[b] <= starts@[b + 1]);
            assert(starts@[b + 1] <= starts@[nb as int]);
            lemma_occurs_iff_contains(grouped0, lo, hi, kh@[i]);
            assert(grouped0.subrange(lo, hi).to_multiset().contains(kh@[i]));
            assert(hashes@.subrange(lo, hi).to_multiset().contains(kh@[i]));
            assert(hashes@.subrange(lo, hi).contains(kh@[i]));
            lemma_occurs_iff_contains(hashes@, lo, hi, kh@[i]);
        }
    }
    proof {
        // a duplicated hash would put its value twice into one bucket,
        // where the sorted layout would have to repeat it side by side;
        // the duplicate scan ruled that out
        assert(!has_dup(kh@)) by {
            if has_dup(kh@) {
                let (i, j) = choose|i: int, j: int|
                    0 <= i < j < kh@.len() && #[trigger] kh@[i] == #[trigger] kh@[j];
                lemma_bucket_range(kh@[i], nb);
                let b = spec_bucket_of(kh@[i], nb);
                let lo = starts@[b] as int;
                let hi = starts@[b + 1] as int;
                assert(starts@[b] <= starts@[b + 1]);
                assert(starts@[b + 1] <= starts@[nb as int]);
                assert(grouped0.subrange(lo, hi).to_multiset().count(kh@[i]) >= 2);
                assert(hashes@.subrange(lo, hi).to_multiset().count(kh@[i]) >= 2);
                lemma_count_dup(hashes@.subrange(lo, hi), kh@[i]);
                let (k1, k2) = choose|k1: int, k2: int|
                    0 <= k1 < k2 < hashes@.subrange(lo, hi).len()
                        && #[trigger] hashes@.subrange(lo, hi)[k1] == #[trigger] hashes@.subrange(
                        lo,
                        hi,
                    )[k2];
                assert(hashes@[lo + k1] == hashes@[lo + k2]);
                assert(hashes@[starts@[b] + k1] < hashes@[starts@[b] + k2]);
                assert(false);
            }
        }
    }
    let order = make_order(&starts, nb);
    Some(PartData { hashes, starts, order })
}

} // verus!
