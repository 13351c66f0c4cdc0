use market_square::area::{
    gen_with_suspended_bit, gen_without_suspended_bit, is_suspended, ReserveError, ResumeError,
    SetGenError, SuspendError, SUSPENDED_BIT,
};
use market_square::steps::{
    available_slots, is_empty_range, plan_best_effort, plan_reserve, plan_resume, plan_resume_at,
    plan_seed, plan_segments, plan_set_gen, plan_suspend, plan_sweep, ring_index, Sweep,
};

const LAST: u64 = 0x7fff_ffff_ffff_ffff;

#[test]
fn the_suspended_bit_is_the_highest() {
    assert_eq!(gen_with_suspended_bit(5), 5 + SUSPENDED_BIT);
    assert_eq!(gen_with_suspended_bit(5 + SUSPENDED_BIT), 5 + SUSPENDED_BIT);
    assert_eq!(gen_without_suspended_bit(5 + SUSPENDED_BIT), 5);
    assert!(is_suspended(SUSPENDED_BIT));
    assert!(!is_suspended(LAST));
}

#[test]
fn places_in_the_ring() {
    assert_eq!(ring_index(0, 20), 0);
    assert_eq!(ring_index(41, 20), 1);
}

#[test]
fn room_for_reservations() {
    assert_eq!(available_slots(16, 3, 5), 14);
    assert_eq!(available_slots(16, 3, 19), 0);
    // The free generation has not caught up yet.
    assert_eq!(available_slots(16, 3, 30), 0);
    assert_eq!(available_slots(16, LAST, 2), 13);

    assert_eq!(plan_reserve(16, 14, 3, 5), Ok((5, 19)));
    assert_eq!(plan_reserve(16, 15, 3, 5), Err(ReserveError::NoSpace));
    assert_eq!(plan_reserve(16, 4, LAST, LAST), Ok((LAST, 3)));

    assert_eq!(plan_best_effort(16, 5, 3, 5), 5);
    assert_eq!(plan_best_effort(16, 50, 3, 5), 14);
    assert_eq!(plan_best_effort(16, 50, 3, 19), 0);
    assert_eq!(plan_best_effort(16, 0, 3, 5), 0);

    assert!(is_empty_range(5, 5));
    assert!(is_empty_range(6, 5));
    assert!(!is_empty_range(5, 6));
}

#[test]
fn reader_moves() {
    assert_eq!(plan_set_gen(5, 6), Ok(6));
    assert_eq!(plan_set_gen(5, 5), Err(SetGenError::InvalidGeneration));
    assert_eq!(plan_set_gen(5, 4), Err(SetGenError::InvalidGeneration));
    assert_eq!(plan_set_gen(5 + SUSPENDED_BIT, 6), Err(SetGenError::ReaderSuspended));
    assert_eq!(plan_set_gen(LAST, 1), Ok(1));

    assert_eq!(plan_suspend(5), Ok(5 + SUSPENDED_BIT));
    assert_eq!(plan_suspend(5 + SUSPENDED_BIT), Err(SuspendError::AlreadySuspended));

    assert_eq!(plan_resume(5), None);
    assert_eq!(plan_resume(5 + SUSPENDED_BIT), Some(5));

    assert_eq!(plan_resume_at(5, 9), Ok(None));
    assert_eq!(plan_resume_at(5 + SUSPENDED_BIT, 9), Ok(Some(9)));
    assert_eq!(plan_resume_at(5 + SUSPENDED_BIT, 5), Ok(Some(5)));
    assert_eq!(plan_resume_at(5 + SUSPENDED_BIT, 4), Err(ResumeError::GenerationTooOld));
}

#[test]
fn seeds_become_keys() {
    assert_eq!(plan_seed(0), 1);
    assert_eq!(plan_seed(SUSPENDED_BIT), 1);
    assert_eq!(plan_seed(7), 7);
    assert_eq!(plan_seed(7 + SUSPENDED_BIT), 7);
}

#[test]
fn what_a_cleanup_does_at_a_slot() {
    // An active reader is heeded.
    assert_eq!(plan_sweep(10, 7), Sweep::Keep(7));
    assert_eq!(plan_sweep(10, 10), Sweep::Keep(10));
    assert_eq!(plan_sweep(10, 12), Sweep::Keep(10));
    // A suspended one is moved forward.
    assert_eq!(plan_sweep(10, 7 + SUSPENDED_BIT), Sweep::Force(10 + SUSPENDED_BIT));
    assert_eq!(plan_sweep(10, 10 + SUSPENDED_BIT), Sweep::Keep(10));
    assert_eq!(plan_sweep(10, 12 + SUSPENDED_BIT), Sweep::Keep(10));
}

#[test]
fn segments_of_the_ring() {
    assert_eq!(plan_segments(3, 5, 16), (3, 5, 0));
    assert_eq!(plan_segments(14, 5, 16), (14, 2, 3));
    assert_eq!(plan_segments(30, 2, 16), (14, 2, 0));
    assert_eq!(plan_segments(5, 16, 16), (5, 11, 5));
    assert_eq!(plan_segments(5, 0, 16), (5, 0, 0));
}
