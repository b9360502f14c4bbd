use red_republic_sim::founding::{candidate_seed, CANDIDATE_STRIDE};

#[test]
fn candidate_zero_is_the_shelf_seed_itself() {
    assert_eq!(candidate_seed(0xDEAD_BEEF, 0), 0xDEAD_BEEF);
}

#[test]
fn candidates_on_a_shelf_are_spread_by_the_stride() {
    let shelf = 0x0123_4567_89AB_CDEF_u64;
    assert_eq!(candidate_seed(shelf, 1), shelf ^ CANDIDATE_STRIDE);
    assert_eq!(candidate_seed(shelf, 3), shelf ^ 3u64.wrapping_mul(CANDIDATE_STRIDE));
    let seeds: Vec<u64> = (0..6).map(|i| candidate_seed(shelf, i)).collect();
    for i in 0..seeds.len() {
        for j in 0..i {
            assert_ne!(seeds[i], seeds[j], "two candidates share a seed");
        }
    }
}

#[test]
fn a_candidate_is_the_same_candidate_every_time() {
    assert_eq!(candidate_seed(42, 5), candidate_seed(42, 5));
}
