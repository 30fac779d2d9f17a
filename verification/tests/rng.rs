//! The deterministic random streams.

use claimlands::rng::{stream, Rng, SeedDomain, SplitMix64};

#[test]
fn splitmix64_matches_reference_vectors() {
    // Reference output for seed 0. Pinned: changing these changes every
    // world ever generated.
    let mut m = SplitMix64::new(0);
    assert_eq!(m.next(), 0xe220_a839_7b1d_cdaf);
    assert_eq!(m.next(), 0x6e78_9e6a_a1b9_65f4);
    assert_eq!(m.next(), 0x06c4_5d18_8009_454f);
}

#[test]
fn same_inputs_give_the_same_stream() {
    let a: Vec<u64> = (0..8)
        .scan(stream(42, SeedDomain::Terrain, 3, 7), |r, _| Some(r.next_u64()))
        .collect();
    let b: Vec<u64> = (0..8)
        .scan(stream(42, SeedDomain::Terrain, 3, 7), |r, _| Some(r.next_u64()))
        .collect();
    assert_eq!(a, b);
}

/// Streams are independent, so adding a new domain cannot disturb an
/// existing one.
#[test]
fn domains_are_independent() {
    let mut terrain = stream(42, SeedDomain::Terrain, 0, 0);
    let mut forest = stream(42, SeedDomain::ForestSpread, 0, 0);
    let mut ai = stream(42, SeedDomain::AiJitter, 0, 0);
    let t: Vec<u64> = (0..4).map(|_| terrain.next_u64()).collect();
    let f: Vec<u64> = (0..4).map(|_| forest.next_u64()).collect();
    let a: Vec<u64> = (0..4).map(|_| ai.next_u64()).collect();
    assert_ne!(t, f);
    assert_ne!(f, a);
    assert_ne!(t, a);
}

#[test]
fn adjacent_turns_do_not_correlate() {
    let mut a = stream(1, SeedDomain::ForestSpread, 100, 0);
    let mut b = stream(1, SeedDomain::ForestSpread, 101, 0);
    assert_ne!(a.next_u64(), b.next_u64());
}

#[test]
fn below_stays_in_range_and_covers_it() {
    let mut r = Rng::seed_from_u64(9);
    let mut seen = [false; 6];
    for _ in 0..2_000 {
        let v = r.below(6);
        assert!(v < 6);
        seen[v as usize] = true;
    }
    assert!(seen.iter().all(|&s| s), "every outcome should appear");
}

#[test]
fn chance_percent_honours_the_extremes() {
    let mut r = Rng::seed_from_u64(3);
    assert!(!r.chance_percent(0));
    assert!(r.chance_percent(100));
    assert!(r.chance_percent(200));
}

#[test]
fn chance_percent_is_roughly_calibrated() {
    let mut r = Rng::seed_from_u64(11);
    let hits = (0..10_000).filter(|_| r.chance_percent(25)).count();
    assert!((2_200..2_800).contains(&hits), "got {hits} hits, expected ~2500");
}

#[test]
fn below_of_one_or_zero_draws_nothing() {
    let mut a = Rng::seed_from_u64(5);
    let mut b = Rng::seed_from_u64(5);
    assert_eq!(a.below(1), 0);
    assert_eq!(a.below(0), 0);
    assert_eq!(a.next_u64(), b.next_u64(), "no draw was consumed");
}

#[test]
fn pick_from_nothing_is_none() {
    let mut r = Rng::seed_from_u64(5);
    let empty: [u32; 0] = [];
    assert_eq!(r.pick(&empty), None);
    let one = [7u32];
    assert_eq!(r.pick(&one), Some(&7));
}
