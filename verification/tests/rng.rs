//! The random stream.

use lob::rng::SplitMix64;

#[test]
fn deterministic_stream() {
    let mut a = SplitMix64::new(1);
    let mut b = SplitMix64::new(1);
    for _ in 0..1000 {
        assert_eq!(a.next_u64(), b.next_u64());
    }
}

#[test]
fn distinct_seeds_diverge() {
    let mut a = SplitMix64::new(1);
    let mut b = SplitMix64::new(2);
    assert_ne!(a.next_u64(), b.next_u64());
}

#[test]
fn below_is_in_range() {
    let mut r = SplitMix64::new(42);
    for _ in 0..1000 {
        assert!(r.below(10) < 10);
    }
}

#[test]
fn values_of_distinct_seeds_are_distinct() {
    let mut seen: Vec<u64> = (0..2_000u64)
        .map(|k| SplitMix64::new(k.wrapping_mul(0x0101_0101_0101_0101)).next_u64())
        .collect();
    seen.sort_unstable();
    seen.dedup();
    assert_eq!(seen.len(), 2_000);
    assert_eq!(SplitMix64::new(0).next_u64(), 0xE220_A839_7B1D_CDAF);
}
