use ptrhash_core::index::{construct, Params, BuildError};
use ptrhash_core::partition::HashKind;
use rand::{Rng, SeedableRng};

fn params(c100: u64, alpha1000: u64, kind: HashKind, seed: u64, minimal: bool) -> Params {
    Params {
        c100,
        alpha1000,
        keys_per_shard: 1 << 20,
        minimal,
        seed,
        kind,
        max_seeds: ptrhash_core::index::MAX_SEEDS,
    }
}

#[test]
fn empty_index_rejects_every_key() {
    let keys: Vec<u64> = Vec::new();
    let idx = construct(&keys, params(700, 1000, HashKind::Mul, 0, true)).unwrap();
    assert_eq!(idx.index(&0), None);
    assert_eq!(idx.index(&12345), None);
}

#[test]
fn single_key_gets_a_slot() {
    let keys = vec![42u64];
    let idx = construct(&keys, params(700, 1000, HashKind::Mul, 0, true)).unwrap();
    let i = idx.index(&42).unwrap();
    assert_eq!(i, 0);
}

#[test]
fn tiny_deterministic_minimal() {
    // n = 16, keys 0..16, c = 7.0, alpha = 1.0, MulHash, seed 0, minimal
    let keys: Vec<u64> = (0..16).collect();
    let idx = construct(&keys, params(700, 1000, HashKind::Mul, 0, true)).unwrap();
    let mut seen = vec![false; 16];
    for k in &keys {
        let i = idx.index(k).unwrap();
        assert!(i < 16);
        assert!(!seen[i], "two keys share index {i}");
        seen[i] = true;
    }
    assert!(seen.iter().all(|&s| s));
}

#[test]
fn medium_load_murmur() {
    // n = 100_000 random keys, c = 9.0, alpha = 0.99, Murmur, seed 0
    let mut rng = rand::rngs::StdRng::seed_from_u64(0xCAFE);
    let mut keys: Vec<u64> = (0..100_000).map(|_| rng.gen()).collect();
    keys.sort_unstable();
    keys.dedup();
    let n = keys.len();
    let idx = construct(&keys, params(900, 990, HashKind::Murmur64, 0, false)).unwrap();
    let mut outs: Vec<usize> = keys.iter().map(|k| idx.index(k).unwrap()).collect();
    outs.sort_unstable();
    for w in outs.windows(2) {
        assert!(w[0] != w[1], "collision in the index");
    }
    assert_eq!(outs.len(), n);
}

#[test]
fn reseed_retry_low_density() {
    // n = 1024, c = 3.0 (deliberately low), alpha = 1.0: succeeds after
    // reseeding or reports clean exhaustion
    let keys: Vec<u64> = (0..1024u64).map(|k| k.wrapping_mul(0x9E3779B97F4A7C15)).collect();
    match construct(&keys, params(300, 1000, HashKind::Murmur64, 0, false)) {
        Ok(idx) => {
            let mut outs: Vec<usize> = keys.iter().map(|k| idx.index(k).unwrap()).collect();
            outs.sort_unstable();
            for w in outs.windows(2) {
                assert!(w[0] != w[1]);
            }
        }
        Err(e) => assert_eq!(e, BuildError::ParamsExhausted),
    }
}

#[test]
fn runaway_aborts_cleanly() {
    // n = 10_000, c = 1.5: far too few buckets; a clean error, not a hang
    let keys: Vec<u64> = (0..10_000u64).map(|k| k.wrapping_mul(0x9E3779B97F4A7C15)).collect();
    let mut p = params(150, 1000, HashKind::Murmur64, 0, false);
    p.max_seeds = 1;
    match construct(&keys, p) {
        Ok(idx) => {
            // if the search squeezes through, the result must still be a
            // valid perfect map
            let mut outs: Vec<usize> = keys.iter().map(|k| idx.index(k).unwrap()).collect();
            outs.sort_unstable();
            for w in outs.windows(2) {
                assert!(w[0] != w[1]);
            }
        }
        Err(e) => assert_eq!(e, BuildError::ParamsExhausted),
    }
}

#[test]
fn degenerate_hasher_single_bucket() {
    // all keys share their low 32 bits, so the identity hasher drops them
    // into one bucket: small pilots or clean exhaustion
    let keys: Vec<u64> = (1..=50u64).map(|k| k << 32).collect();
    match construct(&keys, params(700, 1000, HashKind::Identity, 0, false)) {
        Ok(idx) => {
            let mut outs: Vec<usize> = keys.iter().map(|k| idx.index(k).unwrap()).collect();
            outs.sort_unstable();
            for w in outs.windows(2) {
                assert!(w[0] != w[1]);
            }
        }
        Err(e) => assert_eq!(e, BuildError::ParamsExhausted),
    }
}

#[test]
fn tight_alpha_small_n() {
    // alpha = 1.0 with n = 100: tight placement and eviction cascades
    let keys: Vec<u64> = (0..100u64).map(|k| k.wrapping_mul(0xA24BAED4963EE407)).collect();
    let idx = construct(&keys, params(900, 1000, HashKind::Murmur64, 0, true)).unwrap();
    let mut seen = vec![false; 100];
    for k in &keys {
        let i = idx.index(k).unwrap();
        assert!(i < 100);
        assert!(!seen[i]);
        seen[i] = true;
    }
}

#[test]
fn duplicate_keys_detected() {
    let keys = vec![1u64, 2, 3, 3];
    let r = construct(&keys, params(700, 1000, HashKind::Mul, 0, false));
    assert_eq!(r.unwrap_err(), BuildError::DuplicateKeys);
}

#[test]
fn pilots_fit_one_byte() {
    let keys: Vec<u64> = (0..1000u64).map(|k| k.wrapping_mul(0x9E3779B97F4A7C15)).collect();
    let idx = construct(&keys, params(700, 990, HashKind::Murmur64, 0, false)).unwrap();
    // pilots are stored as one byte per bucket
    assert_eq!(idx.pilots.len(), idx.parts);
    for part in &idx.pilots {
        assert_eq!(part.len(), idx.buckets);
    }
}

#[test]
fn order_independent_mapping() {
    // reordering the input key stream does not change the mapping
    let mut rng = rand::rngs::StdRng::seed_from_u64(7);
    let mut keys: Vec<u64> = (0..1000).map(|_| rng.gen()).collect();
    keys.sort_unstable();
    keys.dedup();
    let p = params(800, 990, HashKind::Murmur64, 0, false);
    let idx1 = construct(&keys, p).unwrap();
    let mut rev = keys.clone();
    rev.reverse();
    let idx2 = construct(&rev, p).unwrap();
    for k in &keys {
        assert_eq!(idx1.index(k), idx2.index(k));
    }
    assert_eq!(idx1.pilots, idx2.pilots);
}

#[test]
fn deterministic_rebuild() {
    // the same seed, parameters and key set give byte-identical pilots
    let keys: Vec<u64> = (0..5000u64).map(|k| k.wrapping_mul(0x2545F4914F6CDD1D) ^ 99).collect();
    let p = params(800, 990, HashKind::Murmur64, 3, true);
    let a = construct(&keys, p).unwrap();
    let b = construct(&keys, p).unwrap();
    assert_eq!(a.pilots, b.pilots);
    assert_eq!(a.remap, b.remap);
    assert_eq!(a.seed, b.seed);
}

#[test]
fn prepared_part_is_sorted() {
    // the bucket layout is sorted even when the hashes arrive reversed
    let kh: Vec<u64> = (0..64u64).rev().map(|k| k.wrapping_mul(0x9E3779B97F4A7C15)).collect();
    let pd = ptrhash_core::partition::prepare_part(&kh, 1).unwrap();
    assert_eq!(pd.hashes.len(), 64);
    for w in pd.hashes.windows(2) {
        assert!(w[0] < w[1]);
    }
    assert_eq!(pd.starts, vec![0, 64]);
    assert_eq!(pd.order, vec![0]);
}

#[test]
fn zero_seed_budget_is_exhausted() {
    // with no seed to try, the build reports exhaustion at once
    let keys = vec![1u64, 2, 3];
    let mut p = params(700, 1000, HashKind::Mul, 0, false);
    p.max_seeds = 0;
    assert_eq!(construct(&keys, p).unwrap_err(), BuildError::ParamsExhausted);
}

#[test]
fn skewed_bucket_exact_values() {
    // the low end of the hash range maps to the lower 0.6 of the buckets
    assert_eq!(ptrhash_core::partition::bucket_of(0, 10), 0);
    // the very top of the range maps to the last bucket
    assert_eq!(ptrhash_core::partition::bucket_of(0xFFFF_FFFF, 10), 9);
    // the split point starts the upper piece
    assert_eq!(ptrhash_core::partition::bucket_of(0x4CCC_CCCD, 10), 6);
    for h in [0u64, 1, 0x4CCC_CCCC, 0x4CCC_CCCD, 0x8000_0000, 0xFFFF_FFFF] {
        assert!(ptrhash_core::partition::bucket_of(h, 7) < 7);
    }
}
