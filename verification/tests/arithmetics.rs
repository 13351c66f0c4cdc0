use market_square::arithmetics::{
    gen_add_msb_masked, gen_dist_msb_masked, gen_gt_msb_masked, gen_gte_msb_masked,
    gen_lt_msb_masked, gen_lte_msb_masked, MSB,
};

const LAST: u64 = 0x7fff_ffff_ffff_ffff;

#[test]
fn distances_go_round() {
    assert_eq!(gen_dist_msb_masked(7, 5), 2);
    assert_eq!(gen_dist_msb_masked(5, 5), 0);
    assert_eq!(gen_dist_msb_masked(1, LAST), 2);
    assert_eq!(gen_dist_msb_masked(5, 7), LAST - 1);
}

#[test]
fn sums_go_round() {
    assert_eq!(gen_add_msb_masked(5, 7), 12);
    assert_eq!(gen_add_msb_masked(LAST, 1), 0);
    assert_eq!(gen_add_msb_masked(LAST - 1, 5), 3);
    // Adding a distance leads from the one to the other.
    for (a, b) in [(7, 5), (1, LAST), (0, 0), (5, 7)] {
        assert_eq!(gen_add_msb_masked(b, gen_dist_msb_masked(a, b)), a);
    }
}

#[test]
fn the_flag_is_ignored_in_sums_and_distances() {
    assert_eq!(gen_dist_msb_masked(7 | MSB, 5), 2);
    assert_eq!(gen_dist_msb_masked(7, 5 | MSB), 2);
    assert_eq!(gen_add_msb_masked(5 | MSB, 7), 12);
}

#[test]
fn comparisons_hold_across_the_end_of_the_range() {
    assert!(gen_gte_msb_masked(5, 5));
    assert!(gen_gte_msb_masked(6, 5));
    assert!(!gen_gte_msb_masked(5, 6));
    assert!(gen_gte_msb_masked(3, LAST));
    assert!(!gen_gte_msb_masked(LAST, 3));
    assert!(gen_lte_msb_masked(LAST, 3));
    assert!(gen_gt_msb_masked(3, LAST));
    assert!(gen_lt_msb_masked(LAST, 3));
    assert!(!gen_gt_msb_masked(5, 5));
    assert!(!gen_lt_msb_masked(5, 5));
}

#[test]
fn a_generation_is_ahead_up_to_a_quarter_of_the_word() {
    let quarter = 0x3fff_ffff_ffff_ffff;
    assert!(gen_gte_msb_masked(quarter, 0));
    assert!(!gen_gte_msb_masked(quarter + 1, 0));
    assert!(!gen_gte_msb_masked(0, quarter + 1));
}
