use ptrhash_core::hash::{Hasher, Murmur, XorHash, MulHash, NoHash, M_64};
use ptrhash_core::reduce::{FastReduce, MaskReduce};

#[test]
fn hash_new_get_roundtrip() {
    let h = ptrhash_core::hash::Hash::new(0xDEAD_BEEF_1234_5678);
    assert_eq!(h.get(), 0xDEAD_BEEF_1234_5678);
}

#[test]
fn hash_high_low_split() {
    let h = ptrhash_core::hash::Hash::new(0xDEAD_BEEF_1234_5678);
    assert_eq!(h.get_low(), 0x1234_5678);
    assert_eq!(h.get_high(), 0xDEAD_BEEF);
}

#[test]
fn hash_xor_combines() {
    let a = ptrhash_core::hash::Hash::new(0xFF00FF00FF00FF00);
    let b = ptrhash_core::hash::Hash::new(0x0F0F0F0F0F0F0F0F);
    assert_eq!(a.xor(b).get(), 0xF00FF00FF00FF00F);
}

#[test]
fn fastrange_reduces_into_range() {
    let d = FastReduce::new(100);
    assert_eq!(ptrhash_core::hash::Hash::new(u64::MAX).reduce(d), 99);
    assert_eq!(ptrhash_core::hash::Hash::new(0).reduce(d), 0);
    for k in 0..1000u64 {
        let r = ptrhash_core::hash::Hash::new(k.wrapping_mul(M_64)).reduce(d);
        assert!(r < 100);
    }
}

#[test]
fn mask_reduce_keeps_low_bits() {
    let d = MaskReduce::new(64);
    assert_eq!(ptrhash_core::hash::Hash::new(0x12345).reduce(d), 0x12345 & 63);
    assert_eq!(ptrhash_core::hash::Hash::new(63).reduce(d), 63);
    assert_eq!(ptrhash_core::hash::Hash::new(64).reduce(d), 0);
}

#[test]
fn mul_hash_exact_value() {
    let h = MulHash::hash(&5, 12345);
    assert_eq!(h.get(), 5u64.wrapping_mul(M_64));
}

#[test]
fn xor_hash_exact_value() {
    let h = XorHash::hash(&0xAAAA, 0x5555);
    assert_eq!(h.get(), 0xAAAA ^ 0x5555);
}

#[test]
fn no_hash_is_identity() {
    assert_eq!(NoHash::hash(&42, 7).get(), 42);
}

#[test]
fn murmur_mixes_its_input() {
    // the digest is not the key handed back unchanged
    let h = Murmur::hash(&0, 0);
    assert_ne!(h.get(), 0);
    // deterministic: the same key and seed give the same digest
    assert_eq!(Murmur::hash(&123, 9).get(), Murmur::hash(&123, 9).get());
    // the seed matters
    assert_ne!(Murmur::hash(&123, 9).get(), Murmur::hash(&123, 10).get());
}

#[test]
fn taken_bits_set_and_get() {
    let mut t = ptrhash_core::bits::TakenBits::new_false(100);
    assert_eq!(t.len(), 100);
    assert!(!t.get(42));
    t.set(42, true);
    assert!(t.get(42));
    assert!(!t.get(41));
    t.set(42, false);
    assert!(!t.get(42));
}
