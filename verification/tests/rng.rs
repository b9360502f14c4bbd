use red_republic_sim::rng::Rng;

/// The tripwire on the generator itself: xoshiro256++ seeded by SplitMix64
/// from seed 1961.
#[test]
fn known_answers_for_a_pinned_seed() {
    let mut rng = Rng::from_seed(1961);
    let got: Vec<u64> = (0..6).map(|_| rng.next_u64()).collect();
    assert_eq!(
        got,
        vec![
            7_156_055_288_471_504_377,
            12_830_646_930_243_714_415,
            10_772_675_645_828_591_914,
            13_532_795_614_754_902_491,
            2_803_697_848_528_527_378,
            1_317_598_663_084_940_546,
        ]
    );
}

#[test]
fn the_same_seed_replays_the_same_stream() {
    let mut a = Rng::from_seed(42);
    let mut b = Rng::from_seed(42);
    for _ in 0..1_000 {
        assert_eq!(a.next_u64(), b.next_u64());
    }
}

#[test]
fn different_seeds_diverge_immediately() {
    let mut a = Rng::from_seed(1);
    let mut b = Rng::from_seed(2);
    assert_ne!(a.next_u64(), b.next_u64());
}

/// The save contract: restoring the seed is not enough, the position has to
/// come back too.
#[test]
fn a_saved_position_resumes_the_same_future() {
    let mut live = Rng::from_seed(7);
    for _ in 0..500 {
        live.next_u64();
    }
    let saved = live.state();
    let expected: Vec<u64> = (0..100).map(|_| live.next_u64()).collect();

    let mut restored = Rng::from_seed(0);
    restored.set_state(saved);
    let actual: Vec<u64> = (0..100).map(|_| restored.next_u64()).collect();
    assert_eq!(actual, expected);
}

#[test]
fn bounded_draws_stay_in_range_and_reach_both_ends() {
    let mut rng = Rng::from_seed(5);
    let mut seen_low = false;
    let mut seen_high = false;
    for _ in 0..10_000 {
        let x = rng.next_bounded(7);
        assert!(x < 7);
        seen_low |= x == 0;
        seen_high |= x == 6;
    }
    assert!(
        seen_low && seen_high,
        "bounded draws did not cover the range"
    );
}

#[test]
fn bounded_of_one_is_always_zero() {
    let mut rng = Rng::from_seed(3);
    for _ in 0..100 {
        assert_eq!(rng.next_bounded(1), 0);
    }
}

/// A bounded draw is the next accepted word reduced, and takes exactly one
/// word from the stream when the first word is accepted.
#[test]
fn a_bounded_draw_is_the_next_word_reduced() {
    let mut a = Rng::from_seed(11);
    let mut b = Rng::from_seed(11);
    // A bound of a power of two rejects nothing: 2^64 mod 8 is zero.
    let x = a.next_bounded(8);
    assert_eq!(x, b.next_u64() % 8);
    assert_eq!(a.next_u64(), b.next_u64());
}

/// Not a quality test — a smoke test that the distribution is not visibly
/// broken.
#[test]
fn bounded_draws_are_roughly_uniform_across_buckets() {
    let mut rng = Rng::from_seed(2024);
    let mut buckets = [0u32; 10];
    const N: u32 = 200_000;
    for _ in 0..N {
        buckets[rng.next_bounded(10) as usize] += 1;
    }
    let expected = N / 10;
    for (i, &count) in buckets.iter().enumerate() {
        let drift = (count as i64 - expected as i64).abs();
        assert!(
            drift < expected as i64 / 10,
            "bucket {i} held {count}, expected about {expected}"
        );
    }
}

#[test]
fn no_seed_starts_the_generator_at_all_zero() {
    for seed in [0u64, 1, 2, 1961, u64::MAX, 0x9E37_79B9_7F4A_7C15u64.wrapping_neg()] {
        assert_ne!(Rng::from_seed(seed).state().0, [0u64; 4], "seed {seed}");
    }
}
