//! The bucket-displacement search: the core of the construction.
//!
//! For each part independently, the engine assigns every bucket a one-byte
//! pilot such that the keys of all buckets land on pairwise distinct slots.
//! Buckets are processed largest first; when no collision-free pilot exists,
//! the engine evicts the cheapest set of previously placed buckets (scored by
//! the sum of their squared sizes, with a tabu ring of recently moved
//! buckets) and re-places them from a work stack. A cap on the displacement
//! chain turns runaway searches into a clean failure, which the caller
//! answers by reseeding.

use vstd::prelude::*;
use crate::bits::{TakenBits, bits_of};
use crate::reduce::{fastrange, spec_fastrange};
use crate::hash::M_64;
use vstd::arithmetic::mul::lemma_mul_upper_bound;

verus! {

/// The cap on pilot values: pilots fit in one byte.
pub const KMAX: u64 = 256;

/// Deterministic expansion of a pilot to a 64-bit mixing value.
pub open spec fn spec_hash_pilot(p: u64) -> u64 {
    M_64.wrapping_mul(p)
}

/// Expand a pilot to a 64-bit mixing value by a multiply with an odd
/// constant.
pub fn hash_pilot(p: u64) -> (r: u64)
    ensures
        r == spec_hash_pilot(p),
{
    M_64.wrapping_mul(p)
}

/// The slot of hash `h` within a part of `s` slots under mixing value `hp`.
pub open spec fn spec_position(h: u64, hp: u64, s: usize) -> int {
    spec_fastrange(h ^ hp, s)
}

/// The slot of hash `h` under mixing value `hp`, in `[0, s)`.
pub fn position_in_part(h: u64, hp: u64, s: usize) -> (r: usize)
    requires
        s > 0,
    ensures
        r == spec_position(h, hp, s),
        r < s,
{
    fastrange(h ^ hp, s)
}

/// Number of hashes in bucket `b`.
pub open spec fn blen(starts: Seq<usize>, b: int) -> int {
    starts[b + 1] - starts[b]
}

/// `starts` is the prefix sum delimiting the `nb` buckets of a part whose
/// hashes array has length `n`.
pub open spec fn starts_wf(starts: Seq<usize>, nb: int, n: int) -> bool {
    &&& nb >= 0
    &&& starts.len() == nb + 1
    &&& starts[0] == 0
    &&& starts[nb] == n
    &&& forall|i: int, j: int| 0 <= i <= j <= nb ==> #[trigger] starts[i] <= #[trigger] starts[j]
}

/// The slot of the `k`-th hash of bucket `b` under pilot `p`.
pub open spec fn spec_bucket_pos(
    hashes: Seq<u64>,
    starts: Seq<usize>,
    b: int,
    k: int,
    p: u64,
    s: usize,
) -> int {
    spec_position(hashes[starts[b] + k], spec_hash_pilot(p), s)
}

/// The slot of the `k`-th hash of bucket `b` under the pilot the table
/// assigns to `b`.
pub open spec fn assigned_pos(
    hashes: Seq<u64>,
    starts: Seq<usize>,
    pilots: Seq<u8>,
    s: usize,
    b: int,
    k: int,
) -> int {
    spec_bucket_pos(hashes, starts, b, k, pilots[b] as u64, s)
}

/// No two hashes of bucket `b` share a slot under pilot `p`.
pub open spec fn pilot_distinct(
    hashes: Seq<u64>,
    starts: Seq<usize>,
    b: int,
    p: u64,
    s: usize,
) -> bool {
    forall|k1: int, k2: int|
        0 <= k1 < k2 < blen(starts, b) ==> #[trigger] spec_bucket_pos(hashes, starts, b, k1, p, s)
            != #[trigger] spec_bucket_pos(hashes, starts, b, k2, p, s)
}

/// All slots of bucket `b` under pilot `p` are unoccupied.
pub open spec fn pilot_free(
    hashes: Seq<u64>,
    starts: Seq<usize>,
    b: int,
    p: u64,
    s: usize,
    bits: Seq<bool>,
) -> bool {
    forall|k: int|
        0 <= k < blen(starts, b) ==> !bits[#[trigger] spec_bucket_pos(hashes, starts, b, k, p, s)]
}

/// Pilot `p` places bucket `b` without any collision.
pub open spec fn pilot_fits(
    hashes: Seq<u64>,
    starts: Seq<usize>,
    b: int,
    p: u64,
    s: usize,
    bits: Seq<bool>,
) -> bool {
    pilot_distinct(hashes, starts, b, p, s) && pilot_free(hashes, starts, b, p, s, bits)
}

/// The pilot table solves the part: within every bucket the assigned slots
/// are pairwise distinct, and no two buckets share a slot.
pub open spec fn part_solved(
    hashes: Seq<u64>,
    starts: Seq<usize>,
    pilots: Seq<u8>,
    s: usize,
) -> bool {
    let nb = pilots.len() as int;
    &&& forall|b: int, k1: int, k2: int|
        0 <= b < nb && 0 <= k1 < k2 < blen(starts, b)
            ==> #[trigger] assigned_pos(hashes, starts, pilots, s, b, k1) != #[trigger] assigned_pos(
            hashes,
            starts,
            pilots,
            s,
            b,
            k2,
        )
    &&& forall|b1: int, k1: int, b2: int, k2: int|
        0 <= b1 < nb && 0 <= b2 < nb && b1 != b2 && 0 <= k1 < blen(starts, b1) && 0 <= k2 < blen(
            starts,
            b2,
        ) ==> #[trigger] assigned_pos(hashes, starts, pilots, s, b1, k1) != #[trigger] assigned_pos(
            hashes,
            starts,
            pilots,
            s,
            b2,
            k2,
        )
    &&& forall|b: int, k: int|
        0 <= b < nb && 0 <= k < blen(starts, b) ==> 0 <= #[trigger] assigned_pos(
            hashes,
            starts,
            pilots,
            s,
            b,
            k,
        ) < s
}

/// The occupancy bitmap holds exactly the slots some bucket's keys land on.
pub open spec fn taken_matches(
    hashes: Seq<u64>,
    starts: Seq<usize>,
    pilots: Seq<u8>,
    s: usize,
    bits: Seq<bool>,
) -> bool {
    &&& bits.len() == s
    &&& forall|j: int|
        0 <= j < s ==> (#[trigger] bits[j] <==> exists|b: int, k: int|
            0 <= b < pilots.len() && 0 <= k < blen(starts, b) && #[trigger] assigned_pos(
                hashes,
                starts,
                pilots,
                s,
                b,
                k,
            ) == j)
}

/// Some entry of `order` is the bucket `b`.
pub open spec fn order_contains(order: Seq<usize>, b: int) -> bool {
    exists|i: int| 0 <= i < order.len() && #[trigger] order[i] == b
}

/// `order` lists every bucket of the part exactly once.
pub open spec fn is_bucket_perm(order: Seq<usize>, nb: int) -> bool {
    &&& order.len() == nb
    &&& forall|i: int| 0 <= i < nb ==> #[trigger] order[i] < nb
    &&& forall|i: int, j: int| 0 <= i < j < nb ==> order[i] != order[j]
    &&& forall|b: int| 0 <= b < nb ==> #[trigger] order_contains(order, b)
}

/// Check whether pilot `p` maps bucket `b` onto pairwise distinct, free
/// slots.
fn check_pilot_fits(
    hashes: &Vec<u64>,
    starts: &Vec<usize>,
    b: usize,
    p: u64,
    s: usize,
    taken: &TakenBits,
) -> (ok: bool)
    requires
        starts_wf(starts@, starts@.len() - 1, hashes@.len() as int),
        b + 1 < starts@.len(),
        s > 0,
        bits_of(taken).len() == s,
    ensures
        ok <==> pilot_fits(hashes@, starts@, b as int, p, s, bits_of(taken)),
{
    let ghost bi = b as int;
    let np = starts.len();
    let bstart = starts[b];
    proof {
        assert(starts@[bi] <= starts@[bi + 1]);
        assert(starts@[bi + 1] <= starts@[starts@.len() - 1]);
    }
    let bend = starts[b + 1];
    let hp = hash_pilot(p);
    let mut k = bstart;
    while k < bend
        invariant
            starts_wf(starts@, starts@.len() - 1, hashes@.len() as int),
            b + 1 < starts@.len(),
            s > 0,
            bits_of(taken).len() == s,
            bi == b as int,
            bstart == starts@[bi],
            bend == starts@[bi + 1],
            bend <= hashes@.len(),
            bstart <= k <= bend,
            hp == spec_hash_pilot(p),
            forall|m: int|
                0 <= m < k - bstart ==> !bits_of(taken)[#[trigger] spec_bucket_pos(
                    hashes@,
                    starts@,
                    bi,
                    m,
                    p,
                    s,
                )],
            forall|m1: int, m2: int|
                0 <= m1 < m2 < k - bstart ==> #[trigger] spec_bucket_pos(
                    hashes@,
                    starts@,
                    bi,
                    m1,
                    p,
                    s,
                ) != #[trigger] spec_bucket_pos(hashes@, starts@, bi, m2, p, s),
        decreases bend - k,
    {
        let j = position_in_part(hashes[k], hp, s);
        proof {
            assert(j == spec_bucket_pos(hashes@, starts@, bi, k - bstart, p, s));
        }
        if taken.get(j) {
            proof {
                let m = k - bstart;
                assert(0 <= m < blen(starts@, bi));
                assert(bits_of(taken)[spec_bucket_pos(hashes@, starts@, bi, m, p, s)]);
                assert(!pilot_free(hashes@, starts@, bi, p, s, bits_of(taken)));
                assert(!pilot_fits(hashes@, starts@, b as int, p, s, bits_of(taken)));
            }
            return false;
        }
        // compare with the earlier slots of this bucket
        let mut k2 = bstart;
        while k2 < k
            invariant
                starts_wf(starts@, starts@.len() - 1, hashes@.len() as int),
                b + 1 < starts@.len(),
                s > 0,
                bi == b as int,
                bstart == starts@[bi],
                bend == starts@[bi + 1],
                bend <= hashes@.len(),
                bstart <= k2 <= k < bend,
                hp == spec_hash_pilot(p),
                j == spec_bucket_pos(hashes@, starts@, bi, k - bstart, p, s),
                forall|m: int|
                    0 <= m < k2 - bstart ==> #[trigger] spec_bucket_pos(
                        hashes@,
                        starts@,
                        bi,
                        m,
                        p,
                        s,
                    ) != spec_bucket_pos(hashes@, starts@, bi, k - bstart, p, s),
            decreases k - k2,
        {
            let j2 = position_in_part(hashes[k2], hp, s);
            proof {
                assert(j2 == spec_bucket_pos(hashes@, starts@, bi, k2 - bstart, p, s));
            }
            if j2 == j {
                proof {
                    let m1 = k2 - bstart;
                    let m2 = k - bstart;
                    assert(0 <= m1 < m2 < blen(starts@, bi));
                    assert(spec_bucket_pos(hashes@, starts@, bi, m1, p, s) == spec_bucket_pos(
                        hashes@,
                        starts@,
                        bi,
                        m2,
                        p,
                        s,
                    ));
                    assert(!pilot_distinct(hashes@, starts@, bi, p, s));
                    assert(!pilot_fits(hashes@, starts@, b as int, p, s, bits_of(taken)));
                }
                return false;
            }
            k2 += 1;
        }
        k += 1;
    }
    true
}

/// Scan pilots `0..KMAX` and return the smallest collision-free one, if any.
fn find_pilot(
    hashes: &Vec<u64>,
    starts: &Vec<usize>,
    b: usize,
    s: usize,
    taken: &TakenBits,
) -> (r: Option<u64>)
    requires
        starts_wf(starts@, starts@.len() - 1, hashes@.len() as int),
        b + 1 < starts@.len(),
        s > 0,
        bits_of(taken).len() == s,
    ensures
        match r {
            Some(p) => p < KMAX && pilot_fits(hashes@, starts@, b as int, p, s, bits_of(taken))
                && forall|q: u64| q < p ==> !pilot_fits(hashes@, starts@, b as int, q, s, bits_of(taken)),
            None => forall|q: u64|
                q < KMAX ==> !pilot_fits(hashes@, starts@, b as int, q, s, bits_of(taken)),
        },
{
    let mut p: u64 = 0;
    while p < KMAX
        invariant
            starts_wf(starts@, starts@.len() - 1, hashes@.len() as int),
            b + 1 < starts@.len(),
            s > 0,
            bits_of(taken).len() == s,
            p <= KMAX,
            forall|q: u64| q < p ==> !pilot_fits(hashes@, starts@, b as int, q, s, bits_of(taken)),
        decreases KMAX - p,
    {
        if check_pilot_fits(hashes, starts, b, p, s, taken) {
            return Some(p);
        }
        p += 1;
    }
    None
}

/// The running invariant of a part's engine state. `placed` is the ghost set
/// of buckets currently holding their slots; `xb` is the one bucket (if any,
/// else `nb`) whose slots are being claimed right now and which is not yet in
/// `placed`.
pub open spec fn engine_inv(
    hashes: Seq<u64>,
    starts: Seq<usize>,
    pilots: Seq<u8>,
    slots: Seq<usize>,
    bits: Seq<bool>,
    placed: Set<int>,
    s: usize,
    nb: int,
    xb: int,
) -> bool {
    &&& pilots.len() == nb
    &&& slots.len() == s as int
    &&& bits.len() == s as int
    &&& forall|j: int| 0 <= j < s ==> #[trigger] slots[j] <= nb
    &&& forall|j: int| 0 <= j < s ==> ((#[trigger] bits[j]) <==> slots[j] < nb)
    &&& forall|b: int| #[trigger] placed.contains(b) ==> 0 <= b < nb && b != xb
    &&& forall|b: int, k: int|
        placed.contains(b) && 0 <= k < blen(starts, b) ==> 0 <= #[trigger] assigned_pos(
            hashes,
            starts,
            pilots,
            s,
            b,
            k,
        ) < s && slots[assigned_pos(hashes, starts, pilots, s, b, k)] == b
    &&& forall|j: int|
        0 <= j < s && #[trigger] slots[j] < nb && slots[j] != xb ==> placed.contains(
            slots[j] as int,
        )
    &&& forall|j: int|
        0 <= j < s && #[trigger] slots[j] < nb && slots[j] != xb ==> exists|k: int|
            0 <= k < blen(starts, slots[j] as int) && #[trigger] assigned_pos(
                hashes,
                starts,
                pilots,
                s,
                slots[j] as int,
                k,
            ) == j
    &&& forall|b: int, k1: int, k2: int|
        placed.contains(b) && 0 <= k1 < k2 < blen(starts, b) ==> #[trigger] assigned_pos(
            hashes,
            starts,
            pilots,
            s,
            b,
            k1,
        ) != #[trigger] assigned_pos(hashes, starts, pilots, s, b, k2)
}

/// The work stack holds pairwise distinct, unplaced buckets of the part.
pub open spec fn stack_inv(stack: Seq<usize>, placed: Set<int>, nb: int) -> bool {
    &&& forall|i: int| 0 <= i < stack.len() ==> #[trigger] stack[i] < nb
    &&& forall|i: int, j: int| 0 <= i < j < stack.len() ==> stack[i] != stack[j]
    &&& forall|i: int| 0 <= i < stack.len() ==> !placed.contains(#[trigger] stack[i] as int)
}

/// Remove a placed bucket from the board: clear its slots in `slots` and
/// `taken`, leaving every other slot alone.
fn clear_bucket(
    hashes: &Vec<u64>,
    starts: &Vec<usize>,
    owner: usize,
    p: u64,
    s: usize,
    nb: usize,
    slots: &mut Vec<usize>,
    taken: &mut TakenBits,
)
    requires
        starts_wf(starts@, nb as int, hashes@.len() as int),
        owner < nb,
        s > 0,
        old(slots)@.len() == s,
        bits_of(old(taken)).len() == s,
        forall|j: int|
            0 <= j < s ==> ((#[trigger] bits_of(old(taken))[j]) <==> old(slots)@[j] < nb),
        pilot_distinct(hashes@, starts@, owner as int, p, s),
        forall|k: int|
            0 <= k < blen(starts@, owner as int) ==> 0 <= #[trigger] spec_bucket_pos(
                hashes@,
                starts@,
                owner as int,
                k,
                p,
                s,
            ) < s && old(slots)@[spec_bucket_pos(hashes@, starts@, owner as int, k, p, s)]
                == owner,
        forall|j: int|
            0 <= j < s && #[trigger] old(slots)@[j] == owner ==> exists|k: int|
                0 <= k < blen(starts@, owner as int) && #[trigger] spec_bucket_pos(
                    hashes@,
                    starts@,
                    owner as int,
                    k,
                    p,
                    s,
                ) == j,
    ensures
        final(slots)@.len() == s,
        bits_of(final(taken)).len() == s,
        forall|j: int|
            0 <= j < s ==> #[trigger] final(slots)@[j] == (if old(slots)@[j] == owner {
                nb
            } else {
                old(slots)@[j]
            }),
        forall|j: int|
            0 <= j < s ==> ((#[trigger] bits_of(final(taken))[j]) <==> final(slots)@[j] < nb),
{
    let ghost oi = owner as int;
    let ghost slots0 = old(slots)@;
    let np = starts.len();
    let ostart = starts[owner];
    proof {
        assert(starts@[oi] <= starts@[oi + 1]);
        assert(starts@[oi + 1] <= starts@[nb as int]);
    }
    let oend = starts[owner + 1];
    let hp = hash_pilot(p);
    let mut m = ostart;
    while m < oend
        invariant
            starts_wf(starts@, nb as int, hashes@.len() as int),
            owner < nb,
            s > 0,
            oi == owner as int,
            slots0.len() == s,
            slots@.len() == s,
            bits_of(taken).len() == s,
            ostart == starts@[oi],
            oend == starts@[oi + 1],
            oend <= hashes@.len(),
            ostart <= m <= oend,
            hp == spec_hash_pilot(p),
            pilot_distinct(hashes@, starts@, oi, p, s),
            forall|k: int|
                0 <= k < blen(starts@, oi) ==> 0 <= #[trigger] spec_bucket_pos(
                    hashes@,
                    starts@,
                    oi,
                    k,
                    p,
                    s,
                ) < s && slots0[spec_bucket_pos(hashes@, starts@, oi, k, p, s)] == owner,
            forall|j: int|
                0 <= j < s && #[trigger] slots0[j] == owner ==> exists|k: int|
                    0 <= k < blen(starts@, oi) && #[trigger] spec_bucket_pos(
                        hashes@,
                        starts@,
                        oi,
                        k,
                        p,
                        s,
                    ) == j,
            forall|k: int|
                0 <= k < m - ostart ==> slots@[#[trigger] spec_bucket_pos(
                    hashes@,
                    starts@,
                    oi,
                    k,
                    p,
                    s,
                )] == nb,
            forall|k: int|
                m - ostart <= k < blen(starts@, oi) ==> slots@[#[trigger] spec_bucket_pos(
                    hashes@,
                    starts@,
                    oi,
                    k,
                    p,
                    s,
                )] == owner,
            forall|j: int| 0 <= j < s && slots0[j] != owner ==> #[trigger] slots@[j] == slots0[j],
            forall|j: int| 0 <= j < s && #[trigger] slots@[j] != slots0[j] ==> slots@[j] == nb,
            forall|j: int| 0 <= j < s ==> ((#[trigger] bits_of(taken)[j]) <==> slots@[j] < nb),
        decreases oend - m,
    {
        let h = hashes[m];
        let j2 = position_in_part(h, hp, s);
        proof {
            assert(j2 == spec_bucket_pos(hashes@, starts@, oi, m - ostart, p, s));
            assert(slots@[j2 as int] == owner);
        }
        slots.set(j2, nb);
        taken.set(j2, false);
        proof {
            assert forall|k: int|
                0 <= k < (m + 1) - ostart implies slots@[#[trigger] spec_bucket_pos(
                hashes@,
                starts@,
                oi,
                k,
                p,
                s,
            )] == nb by {
                if k < m - ostart {
                    assert(spec_bucket_pos(hashes@, starts@, oi, k, p, s) != spec_bucket_pos(
                        hashes@,
                        starts@,
                        oi,
                        m - ostart,
                        p,
                        s,
                    ));
                }
            }
        }
        m += 1;
    }
    proof {
        assert forall|j: int| 0 <= j < s implies #[trigger] slots@[j] == (if slots0[j] == owner {
            nb
        } else {
            slots0[j]
        }) by {
            if slots0[j] == owner {
                let k = choose|k: int|
                    0 <= k < blen(starts@, oi) && #[trigger] spec_bucket_pos(
                        hashes@,
                        starts@,
                        oi,
                        k,
                        p,
                        s,
                    ) == j;
                assert(slots@[j] == nb);
            }
        }
    }
}

/// Give bucket `b` the pilot `p` and claim its slots, evicting every bucket
/// found in the way onto the work stack. Verus proves at the eviction site
/// that a bucket never evicts itself.
fn apply_pilot(
    hashes: &Vec<u64>,
    starts: &Vec<usize>,
    b: usize,
    p: u64,
    s: usize,
    nb: usize,
    pilots: &mut Vec<u8>,
    slots: &mut Vec<usize>,
    taken: &mut TakenBits,
    stack: &mut Vec<usize>,
    placed: Ghost<Set<int>>,
) -> (res: (u64, Ghost<Set<int>>))
    requires
        starts_wf(starts@, nb as int, hashes@.len() as int),
        b < nb,
        p < KMAX,
        s > 0,
        engine_inv(
            hashes@,
            starts@,
            old(pilots)@,
            old(slots)@,
            bits_of(old(taken)),
            placed@,
            s,
            nb as int,
            nb as int,
        ),
        !placed@.contains(b as int),
        pilot_distinct(hashes@, starts@, b as int, p, s),
        stack_inv(old(stack)@, placed@, nb as int),
        forall|i: int|
            0 <= i < old(stack)@.len() ==> blen(starts@, #[trigger] old(stack)@[i] as int) > 0,
        !order_contains(old(stack)@, b as int),
    ensures
        engine_inv(
            hashes@,
            starts@,
            final(pilots)@,
            final(slots)@,
            bits_of(final(taken)),
            res.1@,
            s,
            nb as int,
            nb as int,
        ),
        final(pilots)@ == old(pilots)@.update(b as int, p as u8),
        res.1@.contains(b as int),
        stack_inv(final(stack)@, res.1@, nb as int),
        !order_contains(final(stack)@, b as int),
        forall|x: int|
            placed@.contains(x) || order_contains(old(stack)@, x) || x == b as int
                ==> res.1@.contains(x) || order_contains(final(stack)@, x),
        forall|x: int| res.1@.contains(x) ==> placed@.contains(x) || x == b as int,
        forall|x: int|
            order_contains(final(stack)@, x) ==> order_contains(old(stack)@, x)
                || placed@.contains(x),
        forall|i: int|
            0 <= i < final(stack)@.len() ==> blen(starts@, #[trigger] final(stack)@[i] as int)
                > 0,
        res.0 <= blen(starts@, b as int),
        final(stack)@.len() == old(stack)@.len() + res.0,
{
    let ghost bi = b as int;
    let ghost mut placed_cur = placed@;
    let ghost placed0 = placed@;
    let ghost stack0 = old(stack)@;
    pilots.set(b, p as u8);
    proof {
        assert(pilots@[bi] as u64 == p);
        // assigned positions of other buckets are untouched by the update
        assert forall|b2: int, k: int| b2 != bi && 0 <= b2 < nb && 0 <= k < blen(starts@, b2)
            implies #[trigger] assigned_pos(hashes@, starts@, pilots@, s, b2, k) == assigned_pos(
            hashes@,
            starts@,
            old(pilots)@,
            s,
            b2,
            k,
        ) by {
            assert(pilots@[b2] == old(pilots)@[b2]);
        }
        assert forall|j2: int|
            0 <= j2 < s && #[trigger] old(slots)@[j2] < nb && old(slots)@[j2] != b
            implies exists|k2: int|
            0 <= k2 < blen(starts@, old(slots)@[j2] as int) && #[trigger] assigned_pos(
                hashes@,
                starts@,
                pilots@,
                s,
                old(slots)@[j2] as int,
                k2,
            ) == j2 by {
            let b2 = old(slots)@[j2] as int;
            let k2 = choose|k2: int|
                0 <= k2 < blen(starts@, b2) && #[trigger] assigned_pos(
                    hashes@,
                    starts@,
                    old(pilots)@,
                    s,
                    b2,
                    k2,
                ) == j2;
            assert(assigned_pos(hashes@, starts@, pilots@, s, b2, k2) == j2);
        }
        assert forall|b2: int, k2: int|
            placed_cur.contains(b2) && 0 <= k2 < blen(starts@, b2) implies 0
            <= #[trigger] assigned_pos(hashes@, starts@, pilots@, s, b2, k2) < s && old(slots)@[
            assigned_pos(hashes@, starts@, pilots@, s, b2, k2)] == b2 by {
            assert(b2 != bi);
            assert(assigned_pos(hashes@, starts@, old(pilots)@, s, b2, k2) == assigned_pos(
                hashes@,
                starts@,
                pilots@,
                s,
                b2,
                k2,
            ));
        }
        assert forall|b2: int, k1: int, k2: int|
            placed_cur.contains(b2) && 0 <= k1 < k2 < blen(starts@, b2)
            implies #[trigger] assigned_pos(hashes@, starts@, pilots@, s, b2, k1)
            != #[trigger] assigned_pos(hashes@, starts@, pilots@, s, b2, k2) by {
            assert(b2 != bi);
            assert(assigned_pos(hashes@, starts@, old(pilots)@, s, b2, k1) == assigned_pos(
                hashes@,
                starts@,
                pilots@,
                s,
                b2,
                k1,
            ));
            assert(assigned_pos(hashes@, starts@, old(pilots)@, s, b2, k2) == assigned_pos(
                hashes@,
                starts@,
                pilots@,
                s,
                b2,
                k2,
            ));
        }
    }
    let np = starts.len();
    let bstart = starts[b];
    proof {
        assert(starts@[bi] <= starts@[bi + 1]);
        assert(starts@[bi + 1] <= starts@[nb as int]);
    }
    let bend = starts[b + 1];
    let hp = hash_pilot(p);
    let mut evictions: u64 = 0;
    let mut k = bstart;
    while k < bend
        invariant
            starts_wf(starts@, nb as int, hashes@.len() as int),
            b < nb,
            p < KMAX,
            s > 0,
            bi == b as int,
            bstart == starts@[bi],
            bend == starts@[bi + 1],
            bend <= hashes@.len(),
            bstart <= k <= bend,
            hp == spec_hash_pilot(p),
            pilot_distinct(hashes@, starts@, bi, p, s),
            pilots@ == old(pilots)@.update(bi, p as u8),
            pilots@[bi] as u64 == p,
            engine_inv(
                hashes@,
                starts@,
                pilots@,
                slots@,
                bits_of(taken),
                placed_cur,
                s,
                nb as int,
                bi,
            ),
            !placed_cur.contains(bi),
            forall|m: int|
                0 <= m < k - bstart ==> 0 <= #[trigger] spec_bucket_pos(
                    hashes@,
                    starts@,
                    bi,
                    m,
                    p,
                    s,
                ) < s && slots@[spec_bucket_pos(hashes@, starts@, bi, m, p, s)] == b,
            forall|j: int|
                0 <= j < s && #[trigger] slots@[j] == b ==> exists|m: int|
                    0 <= m < k - bstart && #[trigger] spec_bucket_pos(
                        hashes@,
                        starts@,
                        bi,
                        m,
                        p,
                        s,
                    ) == j,
            stack_inv(stack@, placed_cur, nb as int),
            forall|i: int|
                0 <= i < stack@.len() ==> blen(starts@, #[trigger] stack@[i] as int) > 0,
            !order_contains(stack@, bi),
            forall|x: int| placed_cur.contains(x) ==> placed0.contains(x),
            forall|x: int|
                placed0.contains(x) || order_contains(stack0, x) ==> placed_cur.contains(x)
                    || order_contains(stack@, x),
            forall|x: int|
                order_contains(stack@, x) ==> order_contains(stack0, x) || placed0.contains(x),
            evictions <= k - bstart,
            stack@.len() == stack0.len() + evictions,
        decreases bend - k,
    {
        let h = hashes[k];
        let j = position_in_part(h, hp, s);
        let ghost m = k - bstart;
        proof {
            assert(j == spec_bucket_pos(hashes@, starts@, bi, m, p, s));
        }
        let owner = slots[j];
        if owner < nb {
            proof {
                // no self-eviction: b's earlier claims sit on other slots
                if owner == b {
                    let m2 = choose|m2: int|
                        0 <= m2 < m && #[trigger] spec_bucket_pos(hashes@, starts@, bi, m2, p, s)
                            == j as int;
                    assert(spec_bucket_pos(hashes@, starts@, bi, m2, p, s) != spec_bucket_pos(
                        hashes@,
                        starts@,
                        bi,
                        m,
                        p,
                        s,
                    ));
                    assert(false);
                }
                assert(placed_cur.contains(owner as int));
            }
            let ghost oi = owner as int;
            let op = pilots[owner] as u64;
            proof {
                // the placed facts of `owner`, phrased for clear_bucket
                assert forall|k2: int| 0 <= k2 < blen(starts@, oi) implies 0
                    <= #[trigger] spec_bucket_pos(hashes@, starts@, oi, k2, op, s) < s
                    && slots@[spec_bucket_pos(hashes@, starts@, oi, k2, op, s)] == owner by {
                    assert(assigned_pos(hashes@, starts@, pilots@, s, oi, k2) == spec_bucket_pos(
                        hashes@,
                        starts@,
                        oi,
                        k2,
                        op,
                        s,
                    ));
                }
                assert forall|k1: int, k2: int| 0 <= k1 < k2 < blen(starts@, oi)
                    implies #[trigger] spec_bucket_pos(hashes@, starts@, oi, k1, op, s)
                    != #[trigger] spec_bucket_pos(hashes@, starts@, oi, k2, op, s) by {
                    assert(assigned_pos(hashes@, starts@, pilots@, s, oi, k1) == spec_bucket_pos(
                        hashes@,
                        starts@,
                        oi,
                        k1,
                        op,
                        s,
                    ));
                    assert(assigned_pos(hashes@, starts@, pilots@, s, oi, k2) == spec_bucket_pos(
                        hashes@,
                        starts@,
                        oi,
                        k2,
                        op,
                        s,
                    ));
                }
                assert forall|j2: int| 0 <= j2 < s && #[trigger] slots@[j2] == owner
                    implies exists|k2: int|
                    0 <= k2 < blen(starts@, oi) && #[trigger] spec_bucket_pos(
                        hashes@,
                        starts@,
                        oi,
                        k2,
                        op,
                        s,
                    ) == j2 by {
                    assert(owner != b);
                    let k2 = choose|k2: int|
                        0 <= k2 < blen(starts@, oi) && #[trigger] assigned_pos(
                            hashes@,
                            starts@,
                            pilots@,
                            s,
                            oi,
                            k2,
                        ) == j2;
                    assert(spec_bucket_pos(hashes@, starts@, oi, k2, op, s) == j2);
                }
            }
            let ghost slots_before = slots@;
            clear_bucket(hashes, starts, owner, op, s, nb, slots, taken);
            proof {
                placed_cur = placed_cur.remove(oi);
                // the engine invariant survives the eviction
                assert forall|b2: int, k2: int|
                    placed_cur.contains(b2) && 0 <= k2 < blen(starts@, b2) implies 0
                    <= #[trigger] assigned_pos(hashes@, starts@, pilots@, s, b2, k2) < s
                    && slots@[assigned_pos(hashes@, starts@, pilots@, s, b2, k2)] == b2 by {
                    assert(slots_before[assigned_pos(hashes@, starts@, pilots@, s, b2, k2)]
                        == b2);
                    assert(b2 != oi);
                }
                assert forall|m2: int| 0 <= m2 < m implies 0 <= #[trigger] spec_bucket_pos(
                    hashes@,
                    starts@,
                    bi,
                    m2,
                    p,
                    s,
                ) < s && slots@[spec_bucket_pos(hashes@, starts@, bi, m2, p, s)] == b by {
                    assert(slots_before[spec_bucket_pos(hashes@, starts@, bi, m2, p, s)] == b);
                }
            }
            let ghost stack_prev = stack@;
            let ghost placed_prev = placed_cur.insert(oi);
            stack.push(owner);
            evictions += 1;
            proof {
                assert forall|x: int|
                    placed0.contains(x) || order_contains(stack0, x) implies placed_cur.contains(
                    x,
                ) || order_contains(stack@, x) by {
                    if x == oi {
                        assert(stack@[stack@.len() - 1] == owner);
                        assert(order_contains(stack@, x));
                    } else {
                        assert(placed_prev == placed_cur.insert(oi));
                        if order_contains(stack_prev, x) {
                            let i = choose|i: int|
                                0 <= i < stack_prev.len() && #[trigger] stack_prev[i] == x;
                            assert(stack@[i] == x);
                            assert(order_contains(stack@, x));
                        }
                    }
                }
                assert forall|x: int|
                    order_contains(stack@, x) implies order_contains(stack0, x)
                    || placed0.contains(x) by {
                    let i = choose|i: int| 0 <= i < stack@.len() && #[trigger] stack@[i] == x;
                    if i < stack@.len() - 1 {
                        assert(stack_prev[i] == x);
                        assert(order_contains(stack_prev, x));
                    } else {
                        assert(x == oi);
                    }
                }
                assert(!order_contains(stack@, bi)) by {
                    if order_contains(stack@, bi) {
                        let i = choose|i: int| 0 <= i < stack@.len() && #[trigger] stack@[i] == bi;
                        if i < stack@.len() - 1 {
                            assert(stack_prev[i] == bi);
                            assert(order_contains(stack_prev, bi));
                        }
                        assert(false);
                    }
                }
                assert forall|i: int| 0 <= i < stack@.len() implies !placed_cur.contains(
                    #[trigger] stack@[i] as int,
                ) by {}
            }
        }
        proof {
            assert(slots@[j as int] == nb);
        }
        let ghost slots_mid = slots@;
        slots.set(j, b);
        taken.set(j, true);
        proof {
            // nobody placed owned the slot just claimed
            assert forall|b2: int, k2: int|
                placed_cur.contains(b2) && 0 <= k2 < blen(starts@, b2) implies 0
                <= #[trigger] assigned_pos(hashes@, starts@, pilots@, s, b2, k2) < s
                && slots@[assigned_pos(hashes@, starts@, pilots@, s, b2, k2)] == b2 by {
                assert(slots_mid[assigned_pos(hashes@, starts@, pilots@, s, b2, k2)] == b2);
                assert(assigned_pos(hashes@, starts@, pilots@, s, b2, k2) != j as int);
            }
            assert forall|m2: int| 0 <= m2 < (k + 1) - bstart implies 0 <= #[trigger] spec_bucket_pos(
                hashes@,
                starts@,
                bi,
                m2,
                p,
                s,
            ) < s && slots@[spec_bucket_pos(hashes@, starts@, bi, m2, p, s)] == b by {
                if m2 < m {
                    assert(spec_bucket_pos(hashes@, starts@, bi, m2, p, s) != spec_bucket_pos(
                        hashes@,
                        starts@,
                        bi,
                        m,
                        p,
                        s,
                    ));
                    assert(slots_mid[spec_bucket_pos(hashes@, starts@, bi, m2, p, s)] == b);
                }
            }
            assert forall|j2: int| 0 <= j2 < s && #[trigger] slots@[j2] == b implies exists|m2: int|
                0 <= m2 < (k + 1) - bstart && #[trigger] spec_bucket_pos(
                    hashes@,
                    starts@,
                    bi,
                    m2,
                    p,
                    s,
                ) == j2 by {
                if j2 == j as int {
                    assert(spec_bucket_pos(hashes@, starts@, bi, m, p, s) == j2);
                } else {
                    assert(slots_mid[j2] == b);
                }
            }
        }
        k += 1;
    }
    proof {
        placed_cur = placed_cur.insert(bi);
        assert forall|b2: int, k2: int|
            placed_cur.contains(b2) && 0 <= k2 < blen(starts@, b2) implies 0
            <= #[trigger] assigned_pos(hashes@, starts@, pilots@, s, b2, k2) < s && slots@[
            assigned_pos(hashes@, starts@, pilots@, s, b2, k2)] == b2 by {
            if b2 == bi {
                assert(assigned_pos(hashes@, starts@, pilots@, s, bi, k2) == spec_bucket_pos(
                    hashes@,
                    starts@,
                    bi,
                    k2,
                    p,
                    s,
                ));
            }
        }
        assert forall|b2: int, k1: int, k2: int|
            placed_cur.contains(b2) && 0 <= k1 < k2 < blen(starts@, b2)
            implies #[trigger] assigned_pos(hashes@, starts@, pilots@, s, b2, k1)
            != #[trigger] assigned_pos(hashes@, starts@, pilots@, s, b2, k2) by {
            if b2 == bi {
                assert(assigned_pos(hashes@, starts@, pilots@, s, bi, k1) == spec_bucket_pos(
                    hashes@,
                    starts@,
                    bi,
                    k1,
                    p,
                    s,
                ));
                assert(assigned_pos(hashes@, starts@, pilots@, s, bi, k2) == spec_bucket_pos(
                    hashes@,
                    starts@,
                    bi,
                    k2,
                    p,
                    s,
                ));
            }
        }
        assert forall|j2: int| 0 <= j2 < s && #[trigger] slots@[j2] < nb implies placed_cur.contains(
            slots@[j2] as int,
        ) && exists|k2: int|
            0 <= k2 < blen(starts@, slots@[j2] as int) && #[trigger] assigned_pos(
                hashes@,
                starts@,
                pilots@,
                s,
                slots@[j2] as int,
                k2,
            ) == j2 by {
            if slots@[j2] == b {
                let m2 = choose|m2: int|
                    0 <= m2 < bend - bstart && #[trigger] spec_bucket_pos(
                        hashes@,
                        starts@,
                        bi,
                        m2,
                        p,
                        s,
                    ) == j2;
                assert(assigned_pos(hashes@, starts@, pilots@, s, bi, m2) == spec_bucket_pos(
                    hashes@,
                    starts@,
                    bi,
                    m2,
                    p,
                    s,
                ));
            }
        }
    }
    (evictions, Ghost(placed_cur))
}

/// Check whether pilot `p` maps bucket `b` onto pairwise distinct slots
/// (occupied or not).
fn check_pilot_distinct(
    hashes: &Vec<u64>,
    starts: &Vec<usize>,
    b: usize,
    p: u64,
    s: usize,
) -> (ok: bool)
    requires
        starts_wf(starts@, starts@.len() - 1, hashes@.len() as int),
        b + 1 < starts@.len(),
        s > 0,
    ensures
        ok <==> pilot_distinct(hashes@, starts@, b as int, p, s),
{
    let ghost bi = b as int;
    let np = starts.len();
    let bstart = starts[b];
    proof {
        assert(starts@[bi] <= starts@[bi + 1]);
        assert(starts@[bi + 1] <= starts@[starts@.len() - 1]);
    }
    let bend = starts[b + 1];
    let hp = hash_pilot(p);
    let mut k = bstart;
    while k < bend
        invariant
            starts_wf(starts@, starts@.len() - 1, hashes@.len() as int),
            b + 1 < starts@.len(),
            s > 0,
            bi == b as int,
            bstart == starts@[bi],
            bend == starts@[bi + 1],
            bend <= hashes@.len(),
            bstart <= k <= bend,
            hp == spec_hash_pilot(p),
            forall|m1: int, m2: int|
                0 <= m1 < m2 < k - bstart ==> #[trigger] spec_bucket_pos(
                    hashes@,
                    starts@,
                    bi,
                    m1,
                    p,
                    s,
                ) != #[trigger] spec_bucket_pos(hashes@, starts@, bi, m2, p, s),
        decreases bend - k,
    {
        let j = position_in_part(hashes[k], hp, s);
        proof {
            assert(j == spec_bucket_pos(hashes@, starts@, bi, k - bstart, p, s));
        }
        let mut k2 = bstart;
        while k2 < k
            invariant
                starts_wf(starts@, starts@.len() - 1, hashes@.len() as int),
                b + 1 < starts@.len(),
                s > 0,
                bi == b as int,
                bstart == starts@[bi],
                bend == starts@[bi + 1],
                bend <= hashes@.len(),
                bstart <= k2 <= k < bend,
                hp == spec_hash_pilot(p),
                j == spec_bucket_pos(hashes@, starts@, bi, k - bstart, p, s),
                forall|m: int|
                    0 <= m < k2 - bstart ==> #[trigger] spec_bucket_pos(
                        hashes@,
                        starts@,
                        bi,
                        m,
                        p,
                        s,
                    ) != spec_bucket_pos(hashes@, starts@, bi, k - bstart, p, s),
            decreases k - k2,
        {
            let j2 = position_in_part(hashes[k2], hp, s);
            proof {
                assert(j2 == spec_bucket_pos(hashes@, starts@, bi, k2 - bstart, p, s));
            }
            if j2 == j {
                proof {
                    let m1 = k2 - bstart;
                    let m2 = k - bstart;
                    assert(0 <= m1 < m2 < blen(starts@, bi));
                    assert(spec_bucket_pos(hashes@, starts@, bi, m1, p, s) == spec_bucket_pos(
                        hashes@,
                        starts@,
                        bi,
                        m2,
                        p,
                        s,
                    ));
                }
                return false;
            }
            k2 += 1;
        }
        k += 1;
    }
    true
}

/// The eviction search: scan all pilots starting after the bucket's previous
/// one, score each candidate by the sum of the squared sizes of the buckets
/// it would evict, skip pilots that hit a recently moved bucket or map two
/// keys of `b` to one slot, and return the cheapest candidate.
fn best_evict_pilot(
    hashes: &Vec<u64>,
    starts: &Vec<usize>,
    b: usize,
    s: usize,
    nb: usize,
    slots: &Vec<usize>,
    recent: &Vec<usize>,
    p0: u64,
) -> (r: Option<u64>)
    requires
        starts_wf(starts@, nb as int, hashes@.len() as int),
        b < nb,
        s > 0,
        slots@.len() == s,
        forall|j: int| 0 <= j < s ==> #[trigger] slots@[j] <= nb,
        recent@.len() == 4,
        p0 <= KMAX,
    ensures
        match r {
            Some(p) => p < KMAX && pilot_distinct(hashes@, starts@, b as int, p, s),
            None => true,
        },
{
    let ghost bi = b as int;
    let np = starts.len();
    let bstart = starts[b];
    proof {
        assert(starts@[bi] <= starts@[bi + 1]);
        assert(starts@[bi + 1] <= starts@[nb as int]);
    }
    let bend = starts[b + 1];
    let b_len = bend - bstart;
    proof {
        lemma_mul_upper_bound(
            b_len as int,
            0xffff_ffff_ffff_ffff,
            b_len as int,
            0xffff_ffff_ffff_ffff,
        );
    }
    let min_score: u128 = (b_len as u128) * (b_len as u128);
    let mut best_score: u128 = u128::MAX;
    let mut best_p: u64 = 0;
    let mut found = false;
    let mut delta: u64 = 0;
    while delta < KMAX
        invariant
            starts_wf(starts@, nb as int, hashes@.len() as int),
            b < nb,
            s > 0,
            bi == b as int,
            bstart == starts@[bi],
            bend == starts@[bi + 1],
            bend <= hashes@.len(),
            slots@.len() == s,
            forall|j: int| 0 <= j < s ==> #[trigger] slots@[j] <= nb,
            recent@.len() == 4,
            p0 <= KMAX,
            delta <= KMAX,
            found ==> best_p < KMAX && pilot_distinct(hashes@, starts@, bi, best_p, s),
        decreases KMAX - delta,
    {
        let p = (p0 + delta) % KMAX;
        let hp = hash_pilot(p);
        let mut score: u128 = 0;
        let mut tabu = false;
        let mut k = bstart;
        while k < bend
            invariant
                starts_wf(starts@, nb as int, hashes@.len() as int),
                b < nb,
                s > 0,
                bi == b as int,
                bstart == starts@[bi],
                bend == starts@[bi + 1],
                bend <= hashes@.len(),
                slots@.len() == s,
                forall|j: int| 0 <= j < s ==> #[trigger] slots@[j] <= nb,
                recent@.len() == 4,
                bstart <= k <= bend,
                hp == spec_hash_pilot(p),
            decreases bend - k,
        {
            let j = position_in_part(hashes[k], hp, s);
            let owner = slots[j];
            if owner < nb {
                let mut t: usize = 0;
                while t < 4
                    invariant
                        recent@.len() == 4,
                        t <= 4,
                        tabu ==> true,
                    decreases 4 - t,
                {
                    if recent[t] == owner {
                        tabu = true;
                    }
                    t += 1;
                }
                if tabu {
                    break ;
                }
                proof {
                    assert(starts@[owner as int] <= starts@[owner as int + 1]);
                }
                let olen = starts[owner + 1] - starts[owner];
                proof {
                    lemma_mul_upper_bound(
                        olen as int,
                        0xffff_ffff_ffff_ffff,
                        olen as int,
                        0xffff_ffff_ffff_ffff,
                    );
                }
                score = score.saturating_add((olen as u128) * (olen as u128));
                if score >= best_score {
                    tabu = true;
                    break ;
                }
            }
            k += 1;
        }
        if !tabu && score < best_score {
            if check_pilot_distinct(hashes, starts, b, p, s) {
                best_score = score;
                best_p = p;
                found = true;
                if score <= min_score {
                    // one collision with a bucket of b's own size is the
                    // cheapest a colliding pilot can get: stop searching
                    return Some(best_p);
                }
            }
        }
        delta += 1;
    }
    if found {
        Some(best_p)
    } else {
        None
    }
}

/// Search fuel: how far the displacement counter still is from the runaway
/// cap.
pub open spec fn fuel_left(d: int, s: int, n: int) -> int {
    if d >= 10 * s + n {
        0
    } else {
        10 * s + n - d
    }
}

/// Run the displacement search over one part. On success the returned pilot
/// table solves the part (distinct slots within and across buckets), the
/// bitmap holds exactly the occupied slots, and the count reports the
/// displacements spent. `None` reports that the parameters could not place
/// the keys (the caller reseeds); it is also returned if a displacement
/// chain reaches ten times the slot count.
pub fn displace_part(
    hashes: &Vec<u64>,
    starts: &Vec<usize>,
    bucket_order: &Vec<usize>,
    s: usize,
) -> (r: Option<(Vec<u8>, TakenBits, u64)>)
    requires
        starts_wf(starts@, bucket_order@.len() as int, hashes@.len() as int),
        is_bucket_perm(bucket_order@, bucket_order@.len() as int),
        hashes@.len() < 0x1_0000_0000,
        s < 0x1000_0000_0000_0000,
    ensures
        hashes@.len() == 0 ==> r is Some,
        match r {
            Some(t) => {
                &&& t.0@.len() == bucket_order@.len()
                &&& part_solved(hashes@, starts@, t.0@, s)
                &&& taken_matches(hashes@, starts@, t.0@, s, bits_of(&t.1))
                &&& forall|b: int|
                    0 <= b < bucket_order@.len() && blen(starts@, b) == 0 ==> t.0@[b] == 0u8
            },
            None => true,
        },
{
    let nb = bucket_order.len();
    let n = hashes.len();
    if n > 0 && s == 0 {
        return None;
    }
    let mut pilots: Vec<u8> = Vec::new();
    let mut c: usize = 0;
    while c < nb
        invariant
            pilots@.len() == c,
            c <= nb,
            forall|x: int| 0 <= x < c ==> #[trigger] pilots@[x] == 0u8,
        decreases nb - c,
    {
        pilots.push(0);
        c += 1;
    }
    let mut slots: Vec<usize> = Vec::new();
    let mut c2: usize = 0;
    while c2 < s
        invariant
            slots@.len() == c2,
            c2 <= s,
            forall|x: int| 0 <= x < c2 ==> #[trigger] slots@[x] == nb,
        decreases s - c2,
    {
        slots.push(nb);
        c2 += 1;
    }
    let mut taken = TakenBits::new_false(s);
    let ghost mut placed: Set<int> = Set::empty();
    let mut total_d: u64 = 0;
    let mut i: usize = 0;
    while i < nb
        invariant
            starts_wf(starts@, nb as int, hashes@.len() as int),
            is_bucket_perm(bucket_order@, nb as int),
            nb == bucket_order@.len(),
            n == hashes@.len(),
            n < 0x1_0000_0000,
            s < 0x1000_0000_0000_0000,
            n > 0 ==> s > 0,
            i <= nb,
            engine_inv(
                hashes@,
                starts@,
                pilots@,
                slots@,
                bits_of(&taken),
                placed,
                s,
                nb as int,
                nb as int,
            ),
            forall|b2: int| 0 <= b2 < nb && blen(starts@, b2) == 0 ==> #[trigger] pilots@[b2]
                == 0u8,
            forall|idx: int| 0 <= idx < i ==> placed.contains(bucket_order@[idx] as int),
            forall|x: int|
                placed.contains(x) ==> exists|idx: int|
                    0 <= idx < i && #[trigger] bucket_order@[idx] == x,
        decreases nb - i,
    {
        let b = bucket_order[i];
        let ghost bi = b as int;
        proof {
            if placed.contains(bi) {
                let idx = choose|idx: int| 0 <= idx < i && #[trigger] bucket_order@[idx] == bi;
                assert(bucket_order@[idx] == bucket_order@[i as int]);
                assert(false);
            }
            assert(starts@[bi] <= starts@[bi + 1]);
            assert(starts@[bi + 1] <= starts@[nb as int]);
        }
        let bstart = starts[b];
        let bend = starts[b + 1];
        if bend == bstart {
            // an empty bucket keeps pilot zero and owns no slot
            proof {
                placed = placed.insert(bi);
                assert forall|idx: int| 0 <= idx < i + 1 implies placed.contains(
                    bucket_order@[idx] as int,
                ) by {}
            }
            i += 1;
            continue ;
        }
        let mut stack: Vec<usize> = Vec::new();
        stack.push(b);
        let mut recent: Vec<usize> = Vec::new();
        recent.push(b);
        recent.push(nb);
        recent.push(nb);
        recent.push(nb);
        let mut ridx: usize = 0;
        let mut d_this: u64 = 0;
        proof {
            assert(order_contains(stack@, bi)) by {
                assert(stack@[0] == b);
            }
        }
        while stack.len() > 0
            invariant
                starts_wf(starts@, nb as int, hashes@.len() as int),
                is_bucket_perm(bucket_order@, nb as int),
                nb == bucket_order@.len(),
                n == hashes@.len(),
                n < 0x1_0000_0000,
                s < 0x1000_0000_0000_0000,
                s > 0,
                i < nb,
                bi == b as int,
                recent@.len() == 4,
                ridx < 4,
                engine_inv(
                    hashes@,
                    starts@,
                    pilots@,
                    slots@,
                    bits_of(&taken),
                    placed,
                    s,
                    nb as int,
                    nb as int,
                ),
                stack_inv(stack@, placed, nb as int),
                n > 0,
                forall|b2: int|
                    0 <= b2 < nb && blen(starts@, b2) == 0 ==> #[trigger] pilots@[b2] == 0u8,
                forall|i2: int|
                    0 <= i2 < stack@.len() ==> blen(starts@, #[trigger] stack@[i2] as int) > 0,
                forall|idx: int|
                    0 <= idx <= i ==> placed.contains(bucket_order@[idx] as int)
                        || order_contains(stack@, bucket_order@[idx] as int),
                forall|x: int|
                    placed.contains(x) || order_contains(stack@, x) ==> exists|idx: int|
                        0 <= idx <= i && #[trigger] bucket_order@[idx] == x,
                d_this as int <= 10 * (s as int) + n as int,
            decreases fuel_left(d_this as int, s as int, n as int), stack@.len(),
        {
            if d_this >= 10 * (s as u64) {
                return None;
            }
            let ghost stack_full = stack@;
            let cur = stack.pop().unwrap();
            let ghost ci = cur as int;
            proof {
                assert(stack_full[stack_full.len() - 1] == cur);
                assert(!placed.contains(ci));
                assert(cur < nb);
                assert(!order_contains(stack@, ci)) by {
                    if order_contains(stack@, ci) {
                        let x = choose|x: int| 0 <= x < stack@.len() && #[trigger] stack@[x] == ci;
                        assert(stack_full[x] == cur);
                        assert(false);
                    }
                }
            }
            let found = find_pilot(hashes, starts, cur, s, &taken);
            let chosen: u64;
            let evict_path: bool;
            match found {
                Some(p) => {
                    chosen = p;
                    evict_path = false;
                },
                None => {
                    let p0 = pilots[cur] as u64 + 1;
                    match best_evict_pilot(hashes, starts, cur, s, nb, &slots, &recent, p0) {
                        Some(p) => {
                            chosen = p;
                            evict_path = true;
                        },
                        None => {
                            return None;
                        },
                    }
                },
            }
            let ghost placed_before = placed;
            let ghost stack_before = stack@;
            let (cnt, gp) = apply_pilot(
                hashes,
                starts,
                cur,
                chosen,
                s,
                nb,
                &mut pilots,
                &mut slots,
                &mut taken,
                &mut stack,
                Ghost(placed),
            );
            proof {
                placed = gp@;
                assert(blen(starts@, ci) <= n as int) by {
                    assert(starts@[ci + 1] <= starts@[nb as int]);
                    assert(starts@[0] <= starts@[ci]);
                }
                assert forall|idx: int|
                    0 <= idx <= i implies placed.contains(bucket_order@[idx] as int)
                    || order_contains(stack@, bucket_order@[idx] as int) by {
                    let x = bucket_order@[idx] as int;
                    if placed_before.contains(x) || order_contains(stack_full, x) {
                        if order_contains(stack_full, x) {
                            let w = choose|w: int|
                                0 <= w < stack_full.len() && #[trigger] stack_full[w] == x;
                            if w < stack_full.len() - 1 {
                                assert(stack_before[w] == x);
                                assert(order_contains(stack_before, x));
                            } else {
                                assert(x == ci);
                            }
                        }
                    }
                }
                assert forall|x: int|
                    placed.contains(x) || order_contains(stack@, x) implies exists|idx: int|
                    0 <= idx <= i && #[trigger] bucket_order@[idx] == x by {
                    if placed.contains(x) {
                        if !placed_before.contains(x) && x != ci {
                            assert(false);
                        }
                        if x == ci {
                            assert(order_contains(stack_full, ci)) by {
                                assert(stack_full[stack_full.len() - 1] == cur);
                            }
                        }
                    } else {
                        let w = choose|w: int| 0 <= w < stack@.len() && #[trigger] stack@[w] == x;
                        if order_contains(stack_before, x) {
                            let w2 = choose|w2: int|
                                0 <= w2 < stack_before.len() && #[trigger] stack_before[w2] == x;
                            assert(stack_full[w2] == x);
                            assert(order_contains(stack_full, x));
                        } else {
                            assert(placed_before.contains(x));
                        }
                    }
                }
            }
            d_this += cnt;
            if evict_path {
                ridx = (ridx + 1) % 4;
                recent.set(ridx, cur);
            }
        }
        proof {
            assert forall|idx: int| 0 <= idx < i + 1 implies placed.contains(
                bucket_order@[idx] as int,
            ) by {
                assert(!order_contains(stack@, bucket_order@[idx] as int));
            }
            assert forall|x: int| placed.contains(x) implies exists|idx: int|
                0 <= idx < i + 1 && #[trigger] bucket_order@[idx] == x by {}
        }
        total_d = total_d.saturating_add(d_this);
        i += 1;
    }
    proof {
        assert forall|b2: int| 0 <= b2 < nb implies placed.contains(b2) by {
            assert(order_contains(bucket_order@, b2));
            let idx = choose|idx: int|
                0 <= idx < bucket_order@.len() && #[trigger] bucket_order@[idx] == b2;
            assert(placed.contains(bucket_order@[idx] as int));
        }
        assert forall|b1: int, k1: int, b2: int, k2: int|
            0 <= b1 < nb && 0 <= b2 < nb && b1 != b2 && 0 <= k1 < blen(starts@, b1) && 0 <= k2
                < blen(starts@, b2) implies #[trigger] assigned_pos(
            hashes@,
            starts@,
            pilots@,
            s,
            b1,
            k1,
        ) != #[trigger] assigned_pos(hashes@, starts@, pilots@, s, b2, k2) by {
            if assigned_pos(hashes@, starts@, pilots@, s, b1, k1) == assigned_pos(
                hashes@,
                starts@,
                pilots@,
                s,
                b2,
                k2,
            ) {
                assert(slots@[assigned_pos(hashes@, starts@, pilots@, s, b1, k1)] == b1);
                assert(slots@[assigned_pos(hashes@, starts@, pilots@, s, b2, k2)] == b2);
                assert(false);
            }
        }
        assert forall|j: int| 0 <= j < s implies ((#[trigger] bits_of(&taken)[j]) <==> exists|
            b2: int,
            k2: int,
        |
            0 <= b2 < pilots@.len() && 0 <= k2 < blen(starts@, b2) && #[trigger] assigned_pos(
                hashes@,
                starts@,
                pilots@,
                s,
                b2,
                k2,
            ) == j) by {
            if bits_of(&taken)[j] {
                let b2 = slots@[j] as int;
                let k2 = choose|k2: int|
                    0 <= k2 < blen(starts@, b2) && #[trigger] assigned_pos(
                        hashes@,
                        starts@,
                        pilots@,
                        s,
                        b2,
                        k2,
                    ) == j;
                assert(0 <= b2 < pilots@.len() && 0 <= k2 < blen(starts@, b2) && assigned_pos(
                    hashes@,
                    starts@,
                    pilots@,
                    s,
                    b2,
                    k2,
                ) == j);
            } else {
                if exists|b2: int, k2: int|
                    0 <= b2 < pilots@.len() && 0 <= k2 < blen(starts@, b2) && #[trigger] assigned_pos(
                        hashes@,
                        starts@,
                        pilots@,
                        s,
                        b2,
                        k2,
                    ) == j {
                    let (b2, k2) = choose|b2: int, k2: int|
                        0 <= b2 < pilots@.len() && 0 <= k2 < blen(starts@, b2)
                            && #[trigger] assigned_pos(hashes@, starts@, pilots@, s, b2, k2) == j;
                    assert(slots@[j] == b2);
                    assert(false);
                }
            }
        }
    }
    Some((pilots, taken, total_d))
}

/// The read-only inputs of one part: its hashes grouped by bucket, the
/// bucket delimiters, and the processing order.
pub struct PartData {
    pub hashes: Vec<u64>,
    pub starts: Vec<usize>,
    pub order: Vec<usize>,
}

/// The part's arrays are consistent for `nb` buckets and small enough for
/// the engine's counters.
pub open spec fn part_wf(pd: PartData, nb: int) -> bool {
    &&& starts_wf(pd.starts@, nb, pd.hashes@.len() as int)
    &&& is_bucket_perm(pd.order@, nb)
    &&& pd.hashes@.len() < 0x1_0000_0000
}

/// Run the displacement search over every part in order. On success each
/// part's pilot table solves that part; the displacement count is summed
/// (saturating) for diagnostics. `None` reports the first part that the
/// parameters could not place.
pub fn displace(parts: &Vec<PartData>, nb: usize, s: usize) -> (r: Option<
    (Vec<Vec<u8>>, Vec<TakenBits>, u64),
>)
    requires
        forall|p: int| 0 <= p < parts@.len() ==> part_wf(#[trigger] parts@[p], nb as int),
        s < 0x1000_0000_0000_0000,
    ensures
        parts@.len() == 0 ==> r is Some,
        match r {
            Some(t) => {
                &&& t.0@.len() == parts@.len()
                &&& t.1@.len() == parts@.len()
                &&& forall|p: int|
                    0 <= p < parts@.len() ==> (#[trigger] t.0@[p])@.len() == nb && part_solved(
                        parts@[p].hashes@,
                        parts@[p].starts@,
                        t.0@[p]@,
                        s,
                    ) && taken_matches(
                        parts@[p].hashes@,
                        parts@[p].starts@,
                        t.0@[p]@,
                        s,
                        bits_of(&t.1@[p]),
                    )
                &&& forall|p: int, b: int|
                    0 <= p < parts@.len() && 0 <= b < nb && blen(parts@[p].starts@, b) == 0
                        ==> #[trigger] t.0@[p]@[b] == 0u8
            },
            None => true,
        },
{
    let mut all_pilots: Vec<Vec<u8>> = Vec::new();
    let mut all_taken: Vec<TakenBits> = Vec::new();
    let mut total: u64 = 0;
    let mut p: usize = 0;
    while p < parts.len()
        invariant
            forall|q: int| 0 <= q < parts@.len() ==> part_wf(#[trigger] parts@[q], nb as int),
            s < 0x1000_0000_0000_0000,
            p <= parts@.len(),
            all_pilots@.len() == p,
            all_taken@.len() == p,
            forall|q: int|
                0 <= q < p ==> (#[trigger] all_pilots@[q])@.len() == nb && part_solved(
                    parts@[q].hashes@,
                    parts@[q].starts@,
                    all_pilots@[q]@,
                    s,
                ) && taken_matches(
                    parts@[q].hashes@,
                    parts@[q].starts@,
                    all_pilots@[q]@,
                    s,
                    bits_of(&all_taken@[q]),
                ),
            forall|q: int, b: int|
                0 <= q < p && 0 <= b < nb && blen(parts@[q].starts@, b) == 0
                    ==> #[trigger] all_pilots@[q]@[b] == 0u8,
        decreases parts@.len() - p,
    {
        let pd = &parts[p];
        match displace_part(&pd.hashes, &pd.starts, &pd.order, s) {
            Some((pilots, taken, cnt)) => {
                proof {
                    assert(pilots@.len() == parts@[p as int].order@.len());
                }
                all_pilots.push(pilots);
                all_taken.push(taken);
                total = total.saturating_add(cnt);
            },
            None => {
                return None;
            },
        }
        p += 1;
    }
    Some((all_pilots, all_taken, total))
}

} // verus!
