//! Deterministic entropy.
use wasmalloc::testing::rng::{mix64, ByteSource, Entropy, Rng};

#[test]
fn rng_is_deterministic_and_seed_sensitive() {
    let mut r1 = Rng::new(42);
    let mut r2 = Rng::new(42);
    let mut r3 = Rng::new(43);
    let v1: Vec<u64> = (0..8).map(|_| r1.next_u64()).collect();
    let v2: Vec<u64> = (0..8).map(|_| r2.next_u64()).collect();
    let v3: Vec<u64> = (0..8).map(|_| r3.next_u64()).collect();
    assert_eq!(v1, v2);
    assert_ne!(v1, v3);
    // The zero seed is not degenerate.
    let mut z = Rng::new(0);
    assert_ne!(z.next_u64(), z.next_u64());
}

#[test]
fn below_and_range_stay_in_bounds() {
    let mut r = Rng::new(7);
    for _ in 0..10_000 {
        assert!(r.below(3).unwrap() < 3);
        let x = r.range(10, 12).unwrap();
        assert!((10..=12).contains(&x));
        assert_eq!(r.range(5, 5).unwrap(), 5);
    }
}

#[test]
fn weighted_never_picks_zero_weight_and_hits_every_positive_weight() {
    let mut r = Rng::new(1);
    let mut hits = [0usize; 4];
    for _ in 0..20_000 {
        hits[r.weighted(&[1, 0, 3, 4]).unwrap()] += 1;
    }
    assert_eq!(hits[1], 0);
    assert!(hits[0] > 0 && hits[2] > hits[0] && hits[3] > hits[2]);
}

#[test]
fn byte_source_runs_dry_on_short_tail() {
    let mut s = ByteSource::new(&[1, 0, 0, 0, 2, 0, 0, 0, 9, 9]);
    assert_eq!(s.next_u32(), Some(1));
    assert_eq!(s.next_u32(), Some(2));
    assert_eq!(s.remaining(), 2);
    assert_eq!(s.next_u32(), None);
    assert_eq!(s.below(10), None);
}

/// The first values of splitmix64 seeded with 0.
#[test]
fn rng_is_splitmix64() {
    let mut r = Rng::new(0);
    assert_eq!(r.next_u64(), 0xE220_A839_7B1D_CDAF);
    assert_eq!(r.next_u64(), 0x6E78_9E6A_A1B9_65F4);
    assert_eq!(mix64(0), 0);
    assert_ne!(mix64(1), mix64(2));
}

/// A draw is the high part of the product of a word and the bound.
#[test]
fn draws_scale_the_next_word() {
    let mut s = ByteSource::new(&[0, 0, 0, 0x80, 0xFF, 0xFF, 0xFF, 0xFF]);
    assert_eq!(s.below(10), Some(5));
    assert_eq!(s.below(10), Some(9));
    assert_eq!(s.below(10), None);
    let mut s = ByteSource::new(&[0xFF, 0xFF, 0xFF, 0xFF, 0, 0, 0, 0, 0, 0, 0, 0x40]);
    assert_eq!(s.weighted(&[3, 0, 1]), Some(2));
    assert_eq!(s.weighted(&[0, 2]), Some(1));
    assert_eq!(s.range(8, 11), Some(9));
}
