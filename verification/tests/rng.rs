//! The load balancer's random draws.
use plecto::rng::{mix, seed, SeedCounter, SplitMix64, GOLDEN_GAMMA};
use std::collections::HashSet;

#[test]
fn below_stays_in_range() {
    let mut rng = SplitMix64::for_worker(&mut SeedCounter { next: 1 });
    for n in [1u32, 2, 3, 7, 10, 1000] {
        for _ in 0..10_000 {
            assert!(rng.below(n) < n, "below({n}) must be < {n}");
        }
    }
}

#[test]
fn two_distinct_are_distinct_and_in_range() {
    let mut rng = SplitMix64::for_worker(&mut SeedCounter { next: 2 });
    for n in [2u32, 3, 5, 10] {
        for _ in 0..10_000 {
            let (i, j) = rng.two_distinct_below(n);
            assert!(i < n && j < n, "both indices in [0,{n})");
            assert_ne!(i, j, "the two picks must differ");
        }
    }
}

#[test]
fn below_covers_the_range_roughly_uniformly() {
    // A coarse uniformity smoke test: every bucket of a small range is hit, and none is wildly
    // over-represented. Not a statistical test — just a guard against a stuck or biased draw.
    let mut rng = SplitMix64::for_worker(&mut SeedCounter { next: 3 });
    let n = 8u32;
    let mut counts = [0u32; 8];
    let trials = 80_000;
    for _ in 0..trials {
        counts[rng.below(n) as usize] += 1;
    }
    let expected = trials / n;
    for (b, &c) in counts.iter().enumerate() {
        assert!(c > 0, "bucket {b} was never hit");
        assert!(
            c < expected * 2 && c > expected / 2,
            "bucket {b} count {c} is far from the expected {expected}"
        );
    }
}

#[test]
fn two_distinct_covers_both_orders() {
    // Over many draws from n=2 we must see both (0,1) and (1,0) — the skip trick must not pin
    // the order.
    let mut rng = SplitMix64::for_worker(&mut SeedCounter { next: 4 });
    let mut seen = HashSet::new();
    for _ in 0..1000 {
        seen.insert(rng.two_distinct_below(2));
    }
    assert!(seen.contains(&(0, 1)) && seen.contains(&(1, 0)));
}

#[test]
fn the_known_stream_from_zero() {
    let mut rng = SplitMix64::new(0);
    assert_eq!(rng.next_u64(), 0xe220_a839_7b1d_cdaf);
    assert_eq!(rng.next_u64(), 0x6e78_9e6a_a1b9_65f4);
    assert_eq!(rng.next_u64(), 0x06c4_5d18_8009_454f);
    assert_eq!(rng.state, GOLDEN_GAMMA.wrapping_mul(3));
}

#[test]
fn a_bounded_draw_takes_the_high_word() {
    let mut rng = SplitMix64::new(0);
    let word: u64 = 0xe220_a839_7b1d_cdaf;
    assert_eq!(rng.below(1000), ((word as u128 * 1000) >> 64) as u32);
    assert_eq!(rng.state, GOLDEN_GAMMA);
    assert_eq!(SplitMix64::new(0).below(1), 0);
    assert!(SplitMix64::new(0).below(u32::MAX) < u32::MAX);
}

#[test]
fn equal_states_give_equal_draws() {
    let mut a = SplitMix64::new(42);
    let mut b = SplitMix64::new(42);
    for n in 1..200u32 {
        assert_eq!(a.below(n), b.below(n));
    }
}

#[test]
fn neighbouring_workers_have_different_seeds() {
    let seeds: HashSet<u64> = (0..1000).map(|counter| seed(77, counter)).collect();
    assert_eq!(seeds.len(), 1000);
    assert_eq!(seed(77, 0), mix(77));
    assert_eq!(seed(77, 1), mix(77 ^ GOLDEN_GAMMA));
}

#[test]
fn the_finalizer_separates_neighbours() {
    let mixed: HashSet<u64> = (0..1000).map(mix).collect();
    assert_eq!(mixed.len(), 1000);
    assert_eq!(mix(0), 0);
}

#[test]
fn workers_are_numbered_one_after_the_other() {
    let mut counter = SeedCounter::new();
    assert_eq!(counter.seed_at(77), seed(77, 0));
    assert_eq!(counter.seed_at(77), seed(77, 1));
    let a = SplitMix64::for_worker(&mut counter);
    let b = SplitMix64::for_worker(&mut counter);
    assert_eq!(counter.next, 4);
    assert_ne!(a.state, b.state);
    let mut last = SeedCounter { next: u64::MAX };
    assert_eq!(last.seed_at(5), seed(5, u64::MAX));
    assert_eq!(last.next, 0);
}

#[test]
fn no_word_comes_twice_early_on() {
    let mut rng = SplitMix64::new(12_345);
    let words: HashSet<u64> = (0..100_000).map(|_| rng.next_u64()).collect();
    assert_eq!(words.len(), 100_000);
}
