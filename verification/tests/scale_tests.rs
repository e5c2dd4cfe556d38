use ptrhash_core::index::{construct, Params};
use ptrhash_core::partition::HashKind;
use ptrhash_core::displace::displace_part;
use ptrhash_core::partition::{prepare_part, key_hash};
use ptrhash_core::reduce::fastrange;
use rand::{Rng, SeedableRng};

#[test]
fn sharded_build_matches_repeat_build() {
    // n = 1_000_000 keys in ~10 parts; a rebuild is byte-identical, so the
    // merged pilot table does not depend on which part finished first
    let mut rng = rand::rngs::StdRng::seed_from_u64(0xBEEF);
    let mut keys: Vec<u64> = (0..1_000_000).map(|_| rng.gen()).collect();
    keys.sort_unstable();
    keys.dedup();
    let p = Params {
        c100: 900,
        alpha1000: 990,
        keys_per_shard: 100_000,
        minimal: false,
        seed: 0,
        kind: HashKind::Murmur64,
        max_seeds: 8,
    };
    let a = construct(&keys, p).unwrap();
    let b = construct(&keys, p).unwrap();
    assert!(a.parts >= 10);
    assert_eq!(a.pilots, b.pilots);
}

#[test]
fn query_throughput_smoke() {
    // after building a million keys, ten million lookups of random keys
    // all land inside the output range
    let mut rng = rand::rngs::StdRng::seed_from_u64(0xFEED);
    let mut keys: Vec<u64> = (0..1_000_000).map(|_| rng.gen()).collect();
    keys.sort_unstable();
    keys.dedup();
    let p = Params {
        c100: 900,
        alpha1000: 990,
        keys_per_shard: 100_000,
        minimal: false,
        seed: 0,
        kind: HashKind::Murmur64,
        max_seeds: 8,
    };
    let idx = construct(&keys, p).unwrap();
    let range = idx.parts * idx.s;
    let mut count: usize = 0;
    let mut min = usize::MAX;
    let mut max = 0usize;
    for _ in 0..10_000_000u64 {
        let q: u64 = rng.gen();
        let i = idx.index(&q).unwrap();
        count += 1;
        if i < min {
            min = i;
        }
        if i > max {
            max = i;
        }
    }
    assert_eq!(count, 10_000_000);
    assert!(max < range);
}

#[test]
fn part_order_does_not_matter() {
    // processing the parts back to front gives the same per-part pilot
    // tables: each part's search reads nothing of any other part, which is
    // what lets a thread pool run them concurrently
    let mut rng = rand::rngs::StdRng::seed_from_u64(0xABCD);
    let mut keys: Vec<u64> = (0..50_000).map(|_| rng.gen()).collect();
    keys.sort_unstable();
    keys.dedup();
    let np = 5usize;
    let nb = 7000usize;
    let s = 10_500usize;
    let hashes: Vec<u64> = keys.iter().map(|k| key_hash(HashKind::Murmur64, *k, 7)).collect();
    let mut pvs: Vec<Vec<u64>> = vec![Vec::new(); np];
    for h in &hashes {
        pvs[fastrange(*h, np)].push(*h);
    }
    let forward: Vec<Vec<u8>> = pvs
        .iter()
        .map(|kh| {
            let pd = prepare_part(kh, nb).unwrap();
            displace_part(&pd.hashes, &pd.starts, &pd.order, s).unwrap().0
        })
        .collect();
    let mut backward: Vec<Vec<u8>> = pvs
        .iter()
        .rev()
        .map(|kh| {
            let pd = prepare_part(kh, nb).unwrap();
            displace_part(&pd.hashes, &pd.starts, &pd.order, s).unwrap().0
        })
        .collect();
    backward.reverse();
    assert_eq!(forward, backward);
}
