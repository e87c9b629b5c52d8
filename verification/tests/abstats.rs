use mouse_testing::abstats::{n_choose_k, primary_for, Primary, XorShift64, PERM_EXHAUSTIVE_MAX};

#[test]
fn binomial_coefficients_are_exact_where_they_fit() {
    assert_eq!(n_choose_k(5, 2), 10);
    assert_eq!(n_choose_k(5, 0), 1);
    assert_eq!(n_choose_k(5, 5), 1);
    assert_eq!(n_choose_k(0, 0), 1);
    assert_eq!(n_choose_k(20, 10), 184_756);
    assert_eq!(n_choose_k(60, 30), 118_264_581_564_861_424);
    assert_eq!(n_choose_k(67, 33), 14_226_520_737_620_288_370);
}

#[test]
fn picking_more_than_there_are_is_zero() {
    assert_eq!(n_choose_k(3, 4), 0);
    assert_eq!(n_choose_k(0, 1), 0);
}

#[test]
fn picking_k_is_picking_the_rest() {
    for n in 0..30u64 {
        for k in 0..=n {
            assert_eq!(n_choose_k(n, k), n_choose_k(n, n - k));
        }
    }
}

#[test]
fn a_coefficient_past_sixty_four_bits_saturates() {
    assert_eq!(n_choose_k(68, 34), u64::MAX);
    assert_eq!(n_choose_k(100, 50), u64::MAX);
    assert_eq!(n_choose_k(u64::MAX, 2), u64::MAX);
}

#[test]
fn small_pooled_samples_are_walked_exhaustively() {
    // 20 choose 10 partitions fit under the cap; 30 choose 15 do not.
    assert!(n_choose_k(20, 10) <= PERM_EXHAUSTIVE_MAX);
    assert!(n_choose_k(30, 15) > PERM_EXHAUSTIVE_MAX);
}

#[test]
fn the_paired_analysis_is_primary_only_for_an_interleaved_run_with_every_pair() {
    assert_eq!(primary_for(8, 8, true), Primary::Paired);
    assert_eq!(primary_for(8, 7, true), Primary::Unpaired);
    assert_eq!(primary_for(8, 8, false), Primary::Unpaired);
}

#[test]
fn seeds_are_mixed_before_the_xorshift_steps() {

    let mut r = XorShift64::seeded(0);
    assert_eq!(r.next_u64(), 7_377_219_508_542_733_812);
    assert_eq!(r.below(10), 3_375_351_177_031_125_519 % 10);
    let mut s = XorShift64::seeded(1);
    assert_eq!(s.next_u64(), 8_247_328_468_710_148_152);
}

#[test]
fn neighbouring_seeds_give_different_streams() {

    let firsts: Vec<u64> = (0..8u64).map(|seed| XorShift64::seeded(seed).next_u64()).collect();
    for i in 0..firsts.len() {
        for j in (i + 1)..firsts.len() {
            assert_ne!(firsts[i], firsts[j], "seeds {i} and {j} alias");
        }
    }
}
