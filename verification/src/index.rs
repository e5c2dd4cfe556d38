//! The build entry and the constant-time index evaluator.
//!
//! `construct` hashes the keys, splits them into parts, prepares each part
//! and runs the displacement search, reseeding on failure. The finished
//! `PtIndex` maps a key to its slot in two memory touches; for a minimal
//! index a remap table folds the raw range down to `[0, n)`.

use vstd::prelude::*;
use vstd::arithmetic::mul::{lemma_mul_inequality, lemma_mul_is_distributive_add_other_way, lemma_mul_upper_bound};
use vstd::arithmetic::div_mod::lemma_fundamental_div_mod_converse;
use crate::bits::TakenBits;
use crate::displace::{
    PartData, part_wf, displace, part_solved, taken_matches, assigned_pos, spec_position,
    spec_hash_pilot, hash_pilot, position_in_part,
};
use crate::partition::{
    HashKind, spec_key_hash, key_hash, spec_bucket_of, bucket_of, lemma_bucket_range,
    prepare_part, part_prepared, occurs_range, has_dup,
};
use crate::reduce::{fastrange, spec_fastrange, lemma_fastrange_in_range};

verus! {

/// The build parameters. `c100` is the bucket density times 100 (so 700
/// stands for 7.0 buckets-per-key density), `alpha1000` the load factor
/// times 1000 (990 stands for 0.99).
#[derive(Clone, Copy, Debug)]
pub struct Params {
    pub c100: u64,
    pub alpha1000: u64,
    pub keys_per_shard: usize,
    pub minimal: bool,
    pub seed: u64,
    pub kind: HashKind,
    pub max_seeds: u64,
}

/// Why a build failed.
#[derive(Clone, Copy, Debug, PartialEq, Eq, Structural)]
pub enum BuildError {
    /// Even after reseeding, the chosen density and load factor could not
    /// place the keys.
    ParamsExhausted,
    /// Two keys collided at all 64 hash bits: the key set holds duplicates,
    /// or the hasher is too weak for it.
    DuplicateKeys,
    /// An internal bookkeeping mismatch; reported rather than masked.
    InternalInvariant,
}

/// The conventional number of fresh seeds a build tries before giving up.
pub const MAX_SEEDS: u64 = 8;

/// A finished index: a pilot table per part plus the evaluation
/// parameters.
#[derive(Debug)]
pub struct PtIndex {
    pub kind: HashKind,
    pub seed: u64,
    pub parts: usize,
    pub buckets: usize,
    pub s: usize,
    pub n: usize,
    pub minimal: bool,
    pub pilots: Vec<Vec<u8>>,
    pub remap: Vec<usize>,
}

impl PtIndex {
    /// Structural well-formedness: the pilot table covers every bucket of
    /// every part, the counters are consistent, and the remap of a minimal
    /// index folds exactly the slots above `n` into `[0, n)`.
    pub open spec fn wf(self) -> bool {
        &&& self.pilots@.len() == self.parts
        &&& forall|p: int| 0 <= p < self.parts ==> (#[trigger] self.pilots@[p])@.len()
            == self.buckets
        &&& (self.n > 0 ==> self.parts >= 1 && 1 <= self.buckets < 0x1_0000_0000 && self.s >= 1)
        &&& self.parts as int * self.s as int <= usize::MAX
        &&& self.n as int <= self.parts as int * self.s as int
        &&& (self.minimal ==> self.remap@.len() == self.parts as int * self.s as int
            - self.n as int)
        &&& (self.minimal ==> forall|i: int|
            0 <= i < self.remap@.len() ==> #[trigger] self.remap@[i] < self.n)
    }

    /// The hash of a key under this index's hasher and seed.
    pub open spec fn key_hash_of(self, key: u64) -> u64 {
        spec_key_hash(self.kind, key, self.seed)
    }

    /// The slot a key reaches before any minimal remap: its part's base
    /// plus the pilot-displaced position within the part.
    pub open spec fn spec_raw_index(self, key: u64) -> int {
        let h = self.key_hash_of(key);
        let p = spec_fastrange(h, self.parts);
        let b = spec_bucket_of(h, self.buckets);
        let pilot = self.pilots@[p]@[b];
        p * self.s as int + spec_position(h, spec_hash_pilot(pilot as u64), self.s)
    }

    /// The final answer of a lookup, after the optional minimal remap.
    pub open spec fn spec_index(self, key: u64) -> int {
        let raw = self.spec_raw_index(key);
        if self.minimal && raw >= self.n {
            self.remap@[raw - self.n] as int
        } else {
            raw
        }
    }

    /// How many distinct outputs the index can produce.
    pub open spec fn output_range(self) -> int {
        if self.minimal {
            self.n as int
        } else {
            self.parts as int * self.s as int
        }
    }

    /// Evaluate the index on a key: `None` exactly when the index is
    /// empty, else the key's slot, always below the output range.
    pub fn index(&self, key: &u64) -> (r: Option<usize>)
        requires
            self.wf(),
        ensures
            r is None <==> self.n == 0,
            match r {
                Some(i) => i == self.spec_index(*key) && i < self.output_range(),
                None => true,
            },
    {
        if self.n == 0 {
            return None;
        }
        let h = key_hash(self.kind, *key, self.seed);
        let p = fastrange(h, self.parts);
        proof {
            lemma_bucket_range(h, self.buckets);
        }
        let b = bucket_of(h, self.buckets);
        let pilots_p = &self.pilots[p];
        let pilot = pilots_p[b];
        let hp = hash_pilot(pilot as u64);
        let slot = position_in_part(h, hp, self.s);
        proof {
            lemma_mul_inequality(p as int + 1, self.parts as int, self.s as int);
            lemma_mul_is_distributive_add_other_way(self.s as int, p as int, 1);
        }
        let raw = p * self.s + slot;
        if self.minimal && raw >= self.n {
            let v = self.remap[raw - self.n];
            Some(v)
        } else {
            Some(raw)
        }
    }

    /// Every pilot a build stores fits in one byte.
    pub proof fn lemma_pilot_bound(self, p: int, b: int)
        requires
            0 <= p < self.pilots@.len(),
            0 <= b < self.pilots@[p]@.len(),
        ensures
            self.pilots@[p]@[b] < 256,
    {
    }
}

/// The hashes of a key sequence under one hasher and seed.
pub open spec fn hashes_of(kind: HashKind, keys: Seq<u64>, seed: u64) -> Seq<u64> {
    Seq::new(keys.len(), |i: int| spec_key_hash(kind, keys[i], seed))
}

/// The per-part hash lists cover the key hashes: every hash sits in the
/// part the multiply-shift assigns it.
pub open spec fn parts_split_ok(kh: Seq<u64>, pvs: Seq<Vec<u64>>, np: usize) -> bool {
    &&& pvs.len() == np
    &&& forall|i: int|
        0 <= i < kh.len() ==> pvs[spec_fastrange(#[trigger] kh[i], np)]@.contains(kh[i])
}

/// Split the hashed keys into `np` per-part lists.
fn split_parts(kh: &Vec<u64>, np: usize) -> (pvs: Vec<Vec<u64>>)
    requires
        np >= 1,
    ensures
        parts_split_ok(kh@, pvs@, np),
        forall|p: int| 0 <= p < np ==> (#[trigger] pvs@[p])@.len() <= kh@.len(),
        forall|p: int|
            0 <= p < np ==> (has_dup((#[trigger] pvs@[p])@) ==> has_dup(kh@)),
        forall|i: int, j: int|
            0 <= i < j < kh@.len() && #[trigger] kh@[i] == #[trigger] kh@[j] ==> has_dup(
                pvs@[spec_fastrange(kh@[i], np)]@,
            ),
{
    let n = kh.len();
    let mut pvs: Vec<Vec<u64>> = Vec::new();
    let mut p: usize = 0;
    while p < np
        invariant
            np >= 1,
            n == kh@.len(),
            p <= np,
            pvs@.len() == p,
            forall|p2: int| 0 <= p2 < p ==> (#[trigger] pvs@[p2])@.len() <= n,
            forall|p2: int| 0 <= p2 < p ==> (has_dup((#[trigger] pvs@[p2])@) ==> has_dup(kh@)),
            forall|i2: int, j2: int|
                0 <= i2 < j2 < n && #[trigger] kh@[i2] == #[trigger] kh@[j2] && spec_fastrange(
                    kh@[i2],
                    np,
                ) < p ==> has_dup(pvs@[spec_fastrange(kh@[i2], np)]@),
            forall|i: int|
                0 <= i < n && spec_fastrange(#[trigger] kh@[i], np) < p ==> pvs@[spec_fastrange(
                    kh@[i],
                    np,
                )]@.contains(kh@[i]),
        decreases np - p,
    {
        let mut v: Vec<u64> = Vec::new();
        let ghost mut vsrc: Seq<int> = Seq::empty();
        let ghost mut dm: Map<int, int> = Map::empty();
        let mut i: usize = 0;
        while i < n
            invariant
                np >= 1,
                n == kh@.len(),
                p < np,
                i <= n,
                v@.len() <= i,
                vsrc.len() == v@.len(),
                forall|t: int|
                    0 <= t < vsrc.len() ==> 0 <= #[trigger] vsrc[t] < i && v@[t] == kh@[vsrc[t]],
                forall|t1: int, t2: int| 0 <= t1 < t2 < vsrc.len() ==> vsrc[t1] < vsrc[t2],
                forall|i2: int|
                    #[trigger] dm.dom().contains(i2) <==> (0 <= i2 < i && spec_fastrange(
                        kh@[i2],
                        np,
                    ) == p),
                forall|i2: int|
                    #[trigger] dm.dom().contains(i2) ==> 0 <= dm[i2] < v@.len() && v@[dm[i2]]
                        == kh@[i2],
                forall|i1: int, i2: int|
                    dm.dom().contains(i1) && dm.dom().contains(i2) && i1 != i2 ==> #[trigger] dm[i1]
                        != #[trigger] dm[i2],
                forall|i2: int|
                    0 <= i2 < i && spec_fastrange(#[trigger] kh@[i2], np) == p ==> v@.contains(
                        kh@[i2],
                    ),
            decreases n - i,
        {
            let h = kh[i];
            if fastrange(h, np) == p {
                let ghost vlen = v@.len() as int;
                let ghost v_old = v@;
                v.push(h);
                proof {
                    dm = dm.insert(i as int, vlen);
                    vsrc = vsrc.push(i as int);
                    assert(v@[vlen] == h);
                    assert forall|i2: int|
                        0 <= i2 < i + 1 && spec_fastrange(#[trigger] kh@[i2], np) == p
                        implies v@.contains(kh@[i2]) by {
                        if i2 < i {
                            let w = choose|w: int| 0 <= w < v_old.len() && v_old[w] == kh@[i2];
                            assert(v@[w] == kh@[i2]);
                        } else {
                            assert(v@[vlen] == kh@[i2]);
                        }
                    }
                }
            }
            i += 1;
        }
        proof {
            // two equal keys of this part occupy two distinct entries
            assert forall|i2: int, j2: int|
                0 <= i2 < j2 < n && #[trigger] kh@[i2] == #[trigger] kh@[j2] && spec_fastrange(
                    kh@[i2],
                    np,
                ) == p as int implies has_dup(v@) by {
                assert(dm.dom().contains(i2));
                assert(dm.dom().contains(j2));
                let t1 = dm[i2];
                let t2 = dm[j2];
                assert(v@[t1] == v@[t2] && t1 != t2);
                if t1 < t2 {
                    assert(has_dup(v@)) by {
                        assert(v@[t1] == v@[t2]);
                    }
                } else {
                    assert(has_dup(v@)) by {
                        assert(v@[t2] == v@[t1]);
                    }
                }
            }
            // two equal entries of this part trace back to two distinct key
            // positions with equal hashes
            if has_dup(v@) {
                let (t1, t2) = choose|t1: int, t2: int|
                    0 <= t1 < t2 < v@.len() && #[trigger] v@[t1] == #[trigger] v@[t2];
                assert(kh@[vsrc[t1]] == kh@[vsrc[t2]] && vsrc[t1] < vsrc[t2]);
                assert(has_dup(kh@)) by {
                    assert(kh@[vsrc[t1]] == kh@[vsrc[t2]]);
                }
            }
        }
        let ghost pvs_old = pvs@;
        pvs.push(v);
        proof {
            assert forall|p2: int|
                0 <= p2 < p + 1 implies (has_dup((#[trigger] pvs@[p2])@) ==> has_dup(kh@)) by {
                if p2 < p {
                    assert(pvs@[p2] == pvs_old[p2]);
                }
            }
            assert forall|i2: int, j2: int|
                0 <= i2 < j2 < n && #[trigger] kh@[i2] == #[trigger] kh@[j2] && spec_fastrange(
                    kh@[i2],
                    np,
                ) < p + 1 implies has_dup(pvs@[spec_fastrange(kh@[i2], np)]@) by {
                let p2 = spec_fastrange(kh@[i2], np);
                if p2 < p {
                    assert(pvs@[p2] == pvs_old[p2]);
                } else {
                    assert(pvs@[p2]@ == v@);
                }
            }
            assert forall|i2: int|
                0 <= i2 < n && spec_fastrange(#[trigger] kh@[i2], np) < p + 1 implies pvs@[
            spec_fastrange(kh@[i2], np)]@.contains(kh@[i2]) by {
                let p2 = spec_fastrange(kh@[i2], np);
                if p2 < p {
                    assert(pvs_old[p2]@.contains(kh@[i2]));
                    assert(pvs@[p2] == pvs_old[p2]);
                }
            }
        }
        p += 1;
    }
    proof {
        assert forall|i: int| 0 <= i < kh@.len() implies pvs@[spec_fastrange(
            #[trigger] kh@[i],
            np,
        )]@.contains(kh@[i]) by {
            lemma_fastrange_in_range(kh@[i], np);
        }
        assert forall|i: int, j: int|
            0 <= i < j < kh@.len() && #[trigger] kh@[i] == #[trigger] kh@[j] implies has_dup(
            pvs@[spec_fastrange(kh@[i], np)]@,
        ) by {
            lemma_fastrange_in_range(kh@[i], np);
        }
    }
    pvs
}

/// The floor of the base-two logarithm; at least 1.
fn floor_log2(x: usize) -> (r: u64)
    ensures
        1 <= r <= 64,
{
    let mut v = x;
    let mut k: u64 = 0;
    while v > 1 && k < 64
        invariant
            k <= 64,
        decreases v,
    {
        v = v / 2;
        k += 1;
    }
    if k < 1 {
        1
    } else {
        k
    }
}

/// Build an index over the given distinct keys. On success the index is
/// well-formed, remembers the key count, and sends any two keys with
/// distinct hashes to distinct raw slots (the uniqueness of the map;
/// exact 64-bit hash collisions are rejected during the build as
/// `DuplicateKeys`). `ParamsExhausted` reports that no tried seed could
/// place the keys under the given density and load factor.
pub fn construct(keys: &Vec<u64>, params: Params) -> (r: Result<PtIndex, BuildError>)
    requires
        keys@.len() < 0xffff_ffff,
        1 <= params.alpha1000 <= 1000,
        1 <= params.c100 <= 100_000,
        params.keys_per_shard >= 1,
    ensures
        keys@.len() == 0 ==> r is Ok,
        (r matches Err(e) && e == BuildError::DuplicateKeys) ==> exists|a: u64|
            a < params.max_seeds && #[trigger] has_dup(
                hashes_of(params.kind, keys@, params.seed.wrapping_add(a)),
            ),
        match r {
            Ok(idx) => {
                &&& idx.wf()
                &&& idx.n == keys@.len()
                &&& idx.minimal == params.minimal
                &&& idx.kind == params.kind
                &&& forall|i: int, j: int|
                    0 <= i < j < keys@.len() && idx.key_hash_of(#[trigger] keys@[i])
                        != idx.key_hash_of(#[trigger] keys@[j]) ==> idx.spec_raw_index(keys@[i])
                        != idx.spec_raw_index(keys@[j])
                &&& forall|i: int, j: int|
                    0 <= i < j < keys@.len() && idx.key_hash_of(#[trigger] keys@[i])
                        != idx.key_hash_of(#[trigger] keys@[j]) ==> idx.spec_index(keys@[i])
                        != idx.spec_index(keys@[j])
                &&& forall|i: int, j: int|
                    0 <= i < j < keys@.len() ==> idx.key_hash_of(#[trigger] keys@[i])
                        != idx.key_hash_of(#[trigger] keys@[j])
                &&& forall|i: int, j: int|
                    0 <= i < j < keys@.len() ==> idx.spec_index(#[trigger] keys@[i])
                        != idx.spec_index(#[trigger] keys@[j])
            },
            Err(e) => true,
        },
{
    let n = keys.len();
    if n == 0 {
        let idx = PtIndex {
            kind: params.kind,
            seed: params.seed,
            parts: 0,
            buckets: 1,
            s: 0,
            n: 0,
            minimal: params.minimal,
            pilots: Vec::new(),
            remap: Vec::new(),
        };
        return Ok(idx);
    }
    // shape: parts, buckets per part, slots per part
    proof {
        vstd::arithmetic::div_mod::lemma_div_nonincreasing(
            (n - 1) as int,
            params.keys_per_shard as int,
        );
    }
    let np = (n - 1) / params.keys_per_shard + 1;
    proof {
        vstd::arithmetic::div_mod::lemma_div_nonincreasing((n - 1) as int, np as int);
    }
    let nper = (n - 1) / np + 1;
    let l2 = floor_log2(nper);
    proof {
        lemma_mul_upper_bound(params.c100 as int, 100_000, nper as int, 0xffff_fffe);
    }
    let mut nb_u64: u64 = (params.c100 * (nper as u64)) / (100 * l2) + 1;
    if nb_u64 >= 0x1_0000_0000 {
        nb_u64 = 0xffff_ffff;
    }
    let nb: usize = nb_u64 as usize;
    let s_u64: u64 = ((nper as u64) * 1000) / params.alpha1000 + 1;
    if s_u64 > (usize::MAX as u64) || s_u64 >= 0x1000_0000_0000_0000 {
        return Err(BuildError::ParamsExhausted);
    }
    let s: usize = s_u64 as usize;
    let total = match np.checked_mul(s) {
        Some(t) => t,
        None => {
            return Err(BuildError::ParamsExhausted);
        },
    };
    if total < n {
        return Err(BuildError::ParamsExhausted);
    }
    let mut attempt: u64 = 0;
    while attempt < params.max_seeds
        invariant
            n == keys@.len(),
            0 < n < 0xffff_ffff,
            np >= 1,
            1 <= nb < 0x1_0000_0000,
            1 <= s < 0x1000_0000_0000_0000,
            total == np * s,
            total >= n,
            attempt <= params.max_seeds,
        decreases params.max_seeds - attempt,
    {
        let seed = params.seed.wrapping_add(attempt);
        // hash every key under this seed
        let mut kh: Vec<u64> = Vec::new();
        let mut i: usize = 0;
        while i < n
            invariant
                n == keys@.len(),
                i <= n,
                kh@.len() == i,
                forall|i2: int|
                    0 <= i2 < i ==> #[trigger] kh@[i2] == spec_key_hash(
                        params.kind,
                        keys@[i2],
                        seed,
                    ),
            decreases n - i,
        {
            let h = key_hash(params.kind, keys[i], seed);
            kh.push(h);
            i += 1;
        }
        let pvs = split_parts(&kh, np);
        // prepare every part
        let mut parts: Vec<PartData> = Vec::new();
        let mut p: usize = 0;
        let mut dup = false;
        while p < np
            invariant
                1 <= nb < 0x1_0000_0000,
                kh@.len() == n < 0xffff_ffff,
                pvs@.len() == np,
                forall|p2: int| 0 <= p2 < np ==> (#[trigger] pvs@[p2])@.len() <= n,
                forall|p2: int|
                    0 <= p2 < np ==> (has_dup((#[trigger] pvs@[p2])@) ==> has_dup(kh@)),
                p <= np,
                !dup ==> parts@.len() == p,
                dup ==> has_dup(kh@),
                !dup ==> forall|p2: int|
                    0 <= p2 < p ==> part_prepared((#[trigger] pvs@[p2])@, parts@[p2], nb),
                !dup ==> forall|p2: int| 0 <= p2 < p ==> !has_dup((#[trigger] pvs@[p2])@),
            decreases np - p,
        {
            match prepare_part(&pvs[p], nb) {
                Some(pd) => {
                    parts.push(pd);
                },
                None => {
                    dup = true;
                    proof {
                        assert(has_dup(pvs@[p as int]@));
                    }
                },
            }
            p += 1;
        }
        if dup {
            proof {
                assert(kh@ =~= hashes_of(params.kind, keys@, seed));
                assert(has_dup(hashes_of(params.kind, keys@, params.seed.wrapping_add(attempt))));
            }
            return Err(BuildError::DuplicateKeys);
        }
        proof {
            assert forall|p2: int| 0 <= p2 < parts@.len() implies part_wf(
                #[trigger] parts@[p2],
                nb as int,
            ) by {
                assert(part_prepared((pvs@[p2])@, parts@[p2], nb));
            }
        }
        match displace(&parts, nb, s) {
            Some((pilots, takens, _cnt)) => {
                proof {
                    assert forall|p2: int|
                        0 <= p2 < np implies crate::bits::bits_of(&#[trigger] takens@[p2]).len()
                        == s by {
                        assert(taken_matches(
                            parts@[p2].hashes@,
                            parts@[p2].starts@,
                            pilots@[p2]@,
                            s,
                            crate::bits::bits_of(&takens@[p2]),
                        ));
                    }
                }
                let remap = if params.minimal {
                    match build_remap(&takens, np, s, n, total) {
                        Some(rm) => rm,
                        None => {
                            return Err(BuildError::InternalInvariant);
                        },
                    }
                } else {
                    Vec::new()
                };
                let ghost rm0 = remap@;
                let idx = PtIndex {
                    kind: params.kind,
                    seed,
                    parts: np,
                    buckets: nb,
                    s,
                    n,
                    minimal: params.minimal,
                    pilots,
                    remap,
                };
                proof {
                    lemma_construct_unique(idx, keys@, kh@, pvs@, parts@, np, nb, s);
                    // every part was prepared, so no two keys share a hash
                    assert(!has_dup(kh@)) by {
                        if has_dup(kh@) {
                            let (i, j) = choose|i: int, j: int|
                                0 <= i < j < kh@.len() && #[trigger] kh@[i] == #[trigger] kh@[j];
                            lemma_fastrange_in_range(kh@[i], np);
                            assert(has_dup(pvs@[spec_fastrange(kh@[i], np)]@));
                            assert(false);
                        }
                    }
                    assert forall|i: int, j: int|
                        0 <= i < j < keys@.len() implies idx.key_hash_of(#[trigger] keys@[i])
                        != idx.key_hash_of(#[trigger] keys@[j]) by {
                        if idx.key_hash_of(keys@[i]) == idx.key_hash_of(keys@[j]) {
                            assert(kh@[i] == kh@[j]);
                            assert(has_dup(kh@)) by {
                                assert(kh@[i] == kh@[j]);
                            }
                        }
                    }
                    // the minimal remap keeps the map injective: occupied
                    // slots below n stay put, occupied slots above n move to
                    // pairwise distinct free slots below n
                    assert forall|i: int, j: int|
                        0 <= i < j < keys@.len() && idx.key_hash_of(#[trigger] keys@[i])
                            != idx.key_hash_of(#[trigger] keys@[j]) implies idx.spec_index(
                        keys@[i],
                    ) != idx.spec_index(keys@[j]) by {
                        lemma_key_raw_taken(
                            idx, keys@, kh@, pvs@, parts@, takens@, np, nb, s, i,
                        );
                        lemma_key_raw_taken(
                            idx, keys@, kh@, pvs@, parts@, takens@, np, nb, s, j,
                        );
                        let ri = idx.spec_raw_index(keys@[i]);
                        let rj = idx.spec_raw_index(keys@[j]);
                        assert(ri != rj);
                        if idx.minimal {
                            assert(idx.remap@ == rm0);
                            if ri >= n && rj >= n {
                                assert(taken_at(takens@, s, n + (ri - n)));
                                assert(taken_at(takens@, s, n + (rj - n)));
                                if ri < rj {
                                    assert(rm0[ri - n] != rm0[rj - n]);
                                } else {
                                    assert(rm0[rj - n] != rm0[ri - n]);
                                }
                            } else if ri < n && rj >= n {
                                assert(taken_at(takens@, s, n + (rj - n)));
                                assert(!taken_at(takens@, s, rm0[rj - n] as int));
                                assert(taken_at(takens@, s, ri));
                            } else if rj < n && ri >= n {
                                assert(taken_at(takens@, s, n + (ri - n)));
                                assert(!taken_at(takens@, s, rm0[ri - n] as int));
                                assert(taken_at(takens@, s, rj));
                            }
                        }
                    }
                }
                return Ok(idx);
            },
            None => {},
        }
        attempt += 1;
    }
    Err(BuildError::ParamsExhausted)
}

/// Build the minimal remap: walk the raw slots above `n` that are
/// occupied and give each the next free slot below `n`. `None` reports a
/// bookkeeping mismatch between occupied and free slots.
/// Whether raw slot `raw` (numbered part-major) is occupied.
pub open spec fn taken_at(takens: Seq<TakenBits>, s: usize, raw: int) -> bool {
    crate::bits::bits_of(&takens[raw / (s as int)])[raw % (s as int)]
}

fn build_remap(takens: &Vec<TakenBits>, np: usize, s: usize, n: usize, total: usize) -> (r:
    Option<Vec<usize>>)
    requires
        takens@.len() == np,
        total == np * s,
        n <= total,
        forall|p: int|
            0 <= p < np ==> crate::bits::bits_of(&#[trigger] takens@[p]).len() == s,
        n >= 1,
    ensures
        match r {
            Some(rm) => {
                &&& rm@.len() == total - n
                &&& forall|i: int| 0 <= i < rm@.len() ==> #[trigger] rm@[i] < n
                &&& forall|i: int|
                    0 <= i < rm@.len() && #[trigger] taken_at(takens@, s, n + i) ==> !taken_at(
                        takens@,
                        s,
                        rm@[i] as int,
                    )
                &&& forall|i: int, j: int|
                    0 <= i < j < rm@.len() && #[trigger] taken_at(takens@, s, n + i)
                        && #[trigger] taken_at(takens@, s, n + j) ==> rm@[i] != rm@[j]
            },
            None => true,
        },
{
    // collect the free slots below n
    let mut free: Vec<usize> = Vec::new();
    let mut raw: usize = 0;
    while raw < n
        invariant
            takens@.len() == np,
            total == np * s,
            n <= total,
            forall|p: int|
                0 <= p < np ==> crate::bits::bits_of(&#[trigger] takens@[p]).len() == s,
            raw <= n,
            forall|i: int|
                0 <= i < free@.len() ==> #[trigger] free@[i] < raw && !taken_at(
                    takens@,
                    s,
                    free@[i] as int,
                ),
            forall|i: int, j: int| 0 <= i < j < free@.len() ==> free@[i] < free@[j],
        decreases n - raw,
    {
        proof {
            if s > 0 {
                assert(raw / s < np) by {
                    vstd::arithmetic::div_mod::lemma_multiply_divide_lt(
                        raw as int,
                        s as int,
                        np as int,
                    );
                }
                assert(raw % s < s) by {
                    vstd::arithmetic::div_mod::lemma_mod_bound(raw as int, s as int);
                }
            }
        }
        if s == 0 {
            return None;
        }
        let t = takens[raw / s].get(raw % s);
        proof {
            assert(t == taken_at(takens@, s, raw as int));
        }
        if !t {
            free.push(raw);
        }
        raw += 1;
    }
    // assign each occupied high slot the next free low slot
    let mut rm: Vec<usize> = Vec::new();
    let ghost mut assigned: Seq<int> = Seq::empty();
    let mut next: usize = 0;
    let mut raw2: usize = n;
    while raw2 < total
        invariant
            takens@.len() == np,
            total == np * s,
            n <= total,
            s >= 1,
            n >= 1,
            forall|p: int|
                0 <= p < np ==> crate::bits::bits_of(&#[trigger] takens@[p]).len() == s,
            n <= raw2 <= total,
            rm@.len() == raw2 - n,
            assigned.len() == rm@.len(),
            next <= free@.len(),
            forall|i: int|
                0 <= i < free@.len() ==> #[trigger] free@[i] < n && !taken_at(
                    takens@,
                    s,
                    free@[i] as int,
                ),
            forall|i: int, j: int| 0 <= i < j < free@.len() ==> free@[i] < free@[j],
            forall|i: int| 0 <= i < rm@.len() ==> #[trigger] rm@[i] < n,
            forall|i: int|
                0 <= i < rm@.len() && #[trigger] taken_at(takens@, s, n + i) ==> 0 <= assigned[i]
                    < next && rm@[i] == free@[assigned[i]],
            forall|i: int, j: int|
                0 <= i < j < rm@.len() && #[trigger] taken_at(takens@, s, n + i)
                    && #[trigger] taken_at(takens@, s, n + j) ==> assigned[i] < assigned[j],
        decreases total - raw2,
    {
        proof {
            assert(raw2 / s < np) by {
                vstd::arithmetic::div_mod::lemma_multiply_divide_lt(
                    raw2 as int,
                    s as int,
                    np as int,
                );
            }
            assert(raw2 % s < s) by {
                vstd::arithmetic::div_mod::lemma_mod_bound(raw2 as int, s as int);
            }
        }
        let t = takens[raw2 / s].get(raw2 % s);
        proof {
            assert(t == taken_at(takens@, s, raw2 as int));
        }
        if t {
            if next >= free.len() {
                return None;
            }
            rm.push(free[next]);
            proof {
                assigned = assigned.push(next as int);
            }
            next += 1;
        } else {
            rm.push(0);
            proof {
                assigned = assigned.push(-1);
            }
        }
        raw2 += 1;
    }
    proof {
        assert forall|i: int|
            0 <= i < rm@.len() && #[trigger] taken_at(takens@, s, n + i) implies !taken_at(
            takens@,
            s,
            rm@[i] as int,
        ) by {
            assert(rm@[i] == free@[assigned[i]]);
        }
        assert forall|i: int, j: int|
            0 <= i < j < rm@.len() && #[trigger] taken_at(takens@, s, n + i) && #[trigger] taken_at(
            takens@,
            s,
            n + j,
        ) implies rm@[i] != rm@[j] by {
            assert(free@[assigned[i]] < free@[assigned[j]]);
        }
    }
    Some(rm)
}

/// Every key's raw slot lies in the table and is marked occupied: the key's
/// hash occurs in its bucket, the displacement search placed that bucket,
/// and the occupancy bitmap records the landing slot.
proof fn lemma_key_raw_taken(
    idx: PtIndex,
    keys: Seq<u64>,
    kh: Seq<u64>,
    pvs: Seq<Vec<u64>>,
    parts: Seq<PartData>,
    takens: Seq<TakenBits>,
    np: usize,
    nb: usize,
    s: usize,
    i: int,
)
    requires
        idx.parts == np,
        idx.buckets == nb,
        idx.s == s,
        np >= 1,
        1 <= nb < 0x1_0000_0000,
        s >= 1,
        kh.len() == keys.len(),
        forall|i2: int| 0 <= i2 < keys.len() ==> #[trigger] kh[i2] == idx.key_hash_of(keys[i2]),
        parts_split_ok(kh, pvs, np),
        parts.len() == np,
        forall|p2: int| 0 <= p2 < np ==> part_prepared((#[trigger] pvs[p2])@, parts[p2], nb),
        idx.pilots@.len() == np,
        forall|p2: int|
            0 <= p2 < np ==> (#[trigger] idx.pilots@[p2])@.len() == nb && part_solved(
                parts[p2].hashes@,
                parts[p2].starts@,
                idx.pilots@[p2]@,
                s,
            ),
        takens.len() == np,
        forall|p2: int|
            0 <= p2 < np ==> taken_matches(
                parts[p2].hashes@,
                parts[p2].starts@,
                (#[trigger] idx.pilots@[p2])@,
                s,
                crate::bits::bits_of(&takens[p2]),
            ),
        0 <= i < keys.len(),
    ensures
        0 <= idx.spec_raw_index(keys[i]) < np as int * s as int,
        taken_at(takens, s, idx.spec_raw_index(keys[i])),
{
    let h = idx.key_hash_of(keys[i]);
    lemma_fastrange_in_range(h, np);
    let p = spec_fastrange(h, np);
    lemma_bucket_range(h, nb);
    let b = spec_bucket_of(h, nb);
    let pd = parts[p];
    let pilots = idx.pilots@[p]@;
    assert(kh[i] == h);
    assert(pvs[p]@.contains(h));
    assert(occurs_range(pd.hashes@, pd.starts@[b] as int, pd.starts@[b + 1] as int, h));
    let t = choose|t: int| pd.starts@[b] <= t < pd.starts@[b + 1] && pd.hashes@[t] == h;
    let k = t - pd.starts@[b];
    let slot = assigned_pos(pd.hashes@, pd.starts@, pilots, s, b, k);
    assert(slot == spec_position(h, spec_hash_pilot(pilots[b] as u64), s));
    assert(0 <= slot < s);
    assert(crate::bits::bits_of(&takens[p])[slot]) by {
        assert(assigned_pos(pd.hashes@, pd.starts@, pilots, s, b, k) == slot);
    }
    let raw = p * s as int + slot;
    assert(idx.spec_raw_index(keys[i]) == raw);
    lemma_fundamental_div_mod_converse(raw, s as int, p, slot);
    assert(raw / (s as int) == p && raw % (s as int) == slot);
    assert(taken_at(takens, s, raw));
    lemma_mul_inequality(p + 1, np as int, s as int);
    lemma_mul_is_distributive_add_other_way(s as int, p, 1);
}

/// The uniqueness of the finished map: two keys whose hashes differ reach
/// distinct raw slots, because the displacement search gave every bucket
/// of every part pairwise distinct, non-overlapping positions.
proof fn lemma_construct_unique(
    idx: PtIndex,
    keys: Seq<u64>,
    kh: Seq<u64>,
    pvs: Seq<Vec<u64>>,
    parts: Seq<PartData>,
    np: usize,
    nb: usize,
    s: usize,
)
    requires
        idx.parts == np,
        idx.buckets == nb,
        idx.s == s,
        np >= 1,
        1 <= nb < 0x1_0000_0000,
        s >= 1,
        kh.len() == keys.len(),
        forall|i: int| 0 <= i < keys.len() ==> #[trigger] kh[i] == idx.key_hash_of(keys[i]),
        parts_split_ok(kh, pvs, np),
        parts.len() == np,
        forall|p2: int| 0 <= p2 < np ==> part_prepared((#[trigger] pvs[p2])@, parts[p2], nb),
        idx.pilots@.len() == np,
        forall|p2: int|
            0 <= p2 < np ==> (#[trigger] idx.pilots@[p2])@.len() == nb && part_solved(
                parts[p2].hashes@,
                parts[p2].starts@,
                idx.pilots@[p2]@,
                s,
            ),
    ensures
        forall|i: int, j: int|
            0 <= i < j < keys.len() && idx.key_hash_of(#[trigger] keys[i]) != idx.key_hash_of(
                #[trigger] keys[j],
            ) ==> idx.spec_raw_index(keys[i]) != idx.spec_raw_index(keys[j]),
{
    assert forall|i: int, j: int|
        0 <= i < j < keys.len() && idx.key_hash_of(#[trigger] keys[i]) != idx.key_hash_of(
            #[trigger] keys[j],
        ) implies idx.spec_raw_index(keys[i]) != idx.spec_raw_index(keys[j]) by {
        let h1 = idx.key_hash_of(keys[i]);
        let h2 = idx.key_hash_of(keys[j]);
        let p1 = spec_fastrange(h1, np);
        let p2 = spec_fastrange(h2, np);
        lemma_fastrange_in_range(h1, np);
        lemma_fastrange_in_range(h2, np);
        if p1 == p2 {
            let pd = parts[p1];
            let pilots = idx.pilots@[p1]@;
            let b1 = spec_bucket_of(h1, nb);
            let b2 = spec_bucket_of(h2, nb);
            lemma_bucket_range(h1, nb);
            lemma_bucket_range(h2, nb);
            // locate each hash in its bucket's range
            assert(kh[i] == h1 && kh[j] == h2);
            assert(pvs[p1]@.contains(h1));
            assert(pvs[p2]@.contains(h2));
            let a1 = choose|a: int| 0 <= a < pvs[p1]@.len() && pvs[p1]@[a] == h1;
            let a2 = choose|a: int| 0 <= a < pvs[p1]@.len() && pvs[p1]@[a] == h2;
            assert(occurs_range(
                pd.hashes@,
                pd.starts@[b1] as int,
                pd.starts@[b1 + 1] as int,
                h1,
            ));
            assert(occurs_range(
                pd.hashes@,
                pd.starts@[b2] as int,
                pd.starts@[b2 + 1] as int,
                h2,
            ));
            let t1 = choose|t: int|
                pd.starts@[b1] <= t < pd.starts@[b1 + 1] && pd.hashes@[t] == h1;
            let t2 = choose|t: int|
                pd.starts@[b2] <= t < pd.starts@[b2 + 1] && pd.hashes@[t] == h2;
            let k1 = t1 - pd.starts@[b1];
            let k2 = t2 - pd.starts@[b2];
            assert(assigned_pos(pd.hashes@, pd.starts@, pilots, s, b1, k1) == spec_position(
                h1,
                spec_hash_pilot(pilots[b1] as u64),
                s,
            ));
            assert(assigned_pos(pd.hashes@, pd.starts@, pilots, s, b2, k2) == spec_position(
                h2,
                spec_hash_pilot(pilots[b2] as u64),
                s,
            ));
            if b1 == b2 {
                assert(k1 != k2);
                assert(assigned_pos(pd.hashes@, pd.starts@, pilots, s, b1, k1) != assigned_pos(
                    pd.hashes@,
                    pd.starts@,
                    pilots,
                    s,
                    b2,
                    k2,
                ));
            } else {
                assert(assigned_pos(pd.hashes@, pd.starts@, pilots, s, b1, k1) != assigned_pos(
                    pd.hashes@,
                    pd.starts@,
                    pilots,
                    s,
                    b2,
                    k2,
                ));
            }
            assert(idx.spec_raw_index(keys[i]) == p1 * s as int + assigned_pos(
                pd.hashes@,
                pd.starts@,
                pilots,
                s,
                b1,
                k1,
            ));
            assert(idx.spec_raw_index(keys[j]) == p1 * s as int + assigned_pos(
                pd.hashes@,
                pd.starts@,
                pilots,
                s,
                b2,
                k2,
            ));
        } else {
            // different parts live in disjoint slot ranges
            let pda = parts[p1];
            let pilots1 = idx.pilots@[p1]@;
            let pilots2 = idx.pilots@[p2]@;
            let b1 = spec_bucket_of(h1, nb);
            let b2 = spec_bucket_of(h2, nb);
            lemma_bucket_range(h1, nb);
            lemma_bucket_range(h2, nb);
            lemma_fastrange_in_range(h1 ^ spec_hash_pilot(pilots1[b1] as u64), s);
            lemma_fastrange_in_range(h2 ^ spec_hash_pilot(pilots2[b2] as u64), s);
            assert(0 <= spec_position(h1, spec_hash_pilot(pilots1[b1] as u64), s) < s);
            assert(0 <= spec_position(h2, spec_hash_pilot(pilots2[b2] as u64), s) < s);
            if p1 < p2 {
                lemma_mul_inequality(p1 + 1, p2, s as int);
                lemma_mul_is_distributive_add_other_way(s as int, p1, 1);
            } else {
                lemma_mul_inequality(p2 + 1, p1, s as int);
                lemma_mul_is_distributive_add_other_way(s as int, p2, 1);
            }
        }
    }
}

} // verus!