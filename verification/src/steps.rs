//! The decisions of the area.
//!
//! Every operation on an area alternates between looking at the shared numbers and deciding what
//! to do next. The deciding is done here, on the numbers that were seen, so that it is the same
//! no matter who moves the shared numbers in between.
use crate::area::{
    self, gen_with_suspended_bit, gen_without_suspended_bit, is_suspended, ReserveError,
    ResumeError, SetGenError, SuspendError,
};
use crate::arithmetics::{
    self, gen_add_msb_masked, gen_dist_msb_masked, gen_gt_msb_masked, gen_gte_msb_masked,
    gen_lt_msb_masked, gen_lte_msb_masked, NumericType,
};
use crate::bits;
use vstd::prelude::*;

verus! {

/// The place in a ring buffer of the given capacity where a generation is stored.
pub open spec fn slot_index(generation: NumericType, capacity: nat) -> int {
    (generation as usize) as int % capacity as int
}

/// The number of generations after which the ring buffer starts again at its first place,
/// whatever its capacity.
pub open spec fn index_period() -> int {
    if bits::usize_span() < arithmetics::gen_period() {
        bits::usize_span()
    } else {
        arithmetics::gen_period()
    }
}

/// The number of slots that can be reserved when `write` and `free` are the generations of the
/// next slot to hand out and of the oldest slot in use.
pub open spec fn available(capacity: nat, free: NumericType, write: NumericType) -> int {
    let used = arithmetics::gen_dist(write, free);
    if used < capacity {
        capacity - used
    } else {
        0
    }
}

/// The range that a reservation of `n` slots is to take.
pub open spec fn reserve_plan(
    capacity: nat,
    n: int,
    free: NumericType,
    write: NumericType,
) -> Result<(NumericType, NumericType), ReserveError> {
    if n > available(capacity, free, write) {
        Err(ReserveError::NoSpace)
    } else {
        Ok((write, arithmetics::gen_add(write, n)))
    }
}

/// The number of slots that a reservation of up to `n` slots is to take.
pub open spec fn best_effort(capacity: nat, n: int, free: NumericType, write: NumericType) -> int {
    let most = available(capacity, free, write);
    if n < most {
        n
    } else {
        most
    }
}

/// The new generation of a reader that moves from `current` to `new_generation`.
pub open spec fn set_gen_plan(current: NumericType, new_generation: NumericType) -> Result<
    NumericType,
    SetGenError,
> {
    if area::suspended(current) {
        Err(SetGenError::ReaderSuspended)
    } else if arithmetics::gen_gte(current, new_generation) {
        Err(SetGenError::InvalidGeneration)
    } else {
        Ok(new_generation)
    }
}

/// The new generation of a reader that suspends itself.
pub open spec fn suspend_plan(current: NumericType) -> Result<NumericType, SuspendError> {
    if area::suspended(current) {
        Err(SuspendError::AlreadySuspended)
    } else {
        Ok(area::suspended_at(current))
    }
}

/// The new generation of a reader that comes back, if it was away.
pub open spec fn resume_plan(current: NumericType) -> Option<NumericType> {
    if area::suspended(current) {
        Some(arithmetics::gen_of(current as int))
    } else {
        None
    }
}

/// The new generation of a reader that comes back at `entry_generation`, if it was away.
pub open spec fn resume_at_plan(current: NumericType, entry_generation: NumericType) -> Result<
    Option<NumericType>,
    ResumeError,
> {
    if !area::suspended(current) {
        Ok(None)
    } else if arithmetics::gen_gt(arithmetics::gen_of(current as int), entry_generation) {
        Err(ResumeError::GenerationTooOld)
    } else {
        Ok(Some(arithmetics::gen_of(entry_generation as int)))
    }
}

/// The key from which the search for a free reader slot starts.
pub open spec fn seed_key(seed: NumericType) -> NumericType {
    if arithmetics::gen_of(seed as int) == 0 {
        1
    } else {
        arithmetics::gen_of(seed as int)
    }
}

/// What a cleanup does at the slot of a reader.
#[derive(Debug, Clone, Copy, PartialEq, Eq)]
pub enum Sweep {
    /// Nobody is there: try to move the slot forward to this value.
    Force(NumericType),
    /// Leave the slot as it is. Everything from this generation on must be kept.
    Keep(NumericType),
}

/// What a cleanup that must keep everything from `min_held` on does at a slot with the value
/// `reader_gen`.
pub open spec fn sweep_plan(min_held: NumericType, reader_gen: NumericType) -> Sweep {
    if area::suspended(reader_gen) {
        if arithmetics::gen_gt(min_held, arithmetics::gen_of(reader_gen as int)) {
            Sweep::Force(area::suspended_at(min_held))
        } else {
            Sweep::Keep(min_held)
        }
    } else if arithmetics::gen_gte(min_held, reader_gen) {
        Sweep::Keep(reader_gen)
    } else {
        Sweep::Keep(min_held)
    }
}

/// The place in a ring buffer of the given capacity where a generation is stored.
#[inline]
pub fn ring_index(generation: NumericType, capacity: usize) -> (index: usize)
    requires
        capacity > 0,
    ensures
        index == slot_index(generation, capacity as nat),
        index < capacity,
{
    (generation as usize) % capacity
}

/// The number of slots that can be reserved.
///
/// If current_write - current_free > capacity, that's because current_free hasn't caught up yet,
/// since writers are never allowed to lap readers by more than the capacity. In that case, be
/// conservative and report 0 available slots.
pub fn available_slots(
    capacity: usize,
    current_free: NumericType,
    current_write: NumericType,
) -> (n: NumericType)
    ensures
        n == available(capacity as nat, current_free, current_write),
{
    let used = gen_dist_msb_masked(current_write, current_free);
    if used < capacity as NumericType {
        capacity as NumericType - used
    } else {
        0
    }
}

/// Decide which range to try and take for a reservation of `n` slots.
///
/// The free generation must have been looked at before the write generation, to be conservative
/// about free spots being available.
pub fn plan_reserve(
    capacity: usize,
    n: usize,
    current_free: NumericType,
    current_write: NumericType,
) -> (plan: Result<(NumericType, NumericType), ReserveError>)
    ensures
        plan == reserve_plan(capacity as nat, n as int, current_free, current_write),
{
    if n as NumericType > available_slots(capacity, current_free, current_write) {
        return Err(ReserveError::NoSpace);
    }
    Ok((current_write, gen_add_msb_masked(current_write, n as NumericType)))
}

/// Decide how many slots to try and take for a reservation of up to `n` slots.
pub fn plan_best_effort(
    capacity: usize,
    n: usize,
    current_free: NumericType,
    current_write: NumericType,
) -> (actual_n: usize)
    ensures
        actual_n == best_effort(capacity as nat, n as int, current_free, current_write),
{
    let most = available_slots(capacity, current_free, current_write);
    if (n as NumericType) < most {
        n
    } else {
        most as usize
    }
}

/// Whether a range to be published holds anything.
#[inline]
pub fn is_empty_range(start_generation: NumericType, end_generation: NumericType) -> (r: bool)
    ensures
        r == arithmetics::gen_gte(start_generation, end_generation),
{
    gen_gte_msb_masked(start_generation, end_generation)
}

/// Decide what a reader's generation becomes when it moves to `new_generation`; fails if the
/// reader is suspended or if the new generation is older or equal to the current one.
pub fn plan_set_gen(current: NumericType, new_generation: NumericType) -> (plan: Result<
    NumericType,
    SetGenError,
>)
    ensures
        plan == set_gen_plan(current, new_generation),
{
    // If suspended, the reader does not own the slot anymore (a cleanup might be updating it).
    if is_suspended(current) {
        return Err(SetGenError::ReaderSuspended);
    }
    // A reader acknowledges that generations older than its stated one may not exist anymore.
    if gen_lte_msb_masked(new_generation, current) {
        return Err(SetGenError::InvalidGeneration);
    }
    Ok(new_generation)
}

/// Decide what a reader's generation becomes when it suspends itself.
pub fn plan_suspend(current: NumericType) -> (plan: Result<NumericType, SuspendError>)
    ensures
        plan == suspend_plan(current),
{
    // If it is suspended, a cleanup might own it and be in the process of updating it.
    if is_suspended(current) {
        return Err(SuspendError::AlreadySuspended);
    }
    Ok(gen_with_suspended_bit(current))
}

/// Decide what a reader's generation becomes when it resumes; `None` if it is not suspended.
pub fn plan_resume(current: NumericType) -> (plan: Option<NumericType>)
    ensures
        plan == resume_plan(current),
{
    if !is_suspended(current) {
        return None;
    }
    Some(gen_without_suspended_bit(current))
}

/// Decide what a reader's generation becomes when it resumes at `entry_generation`; `None` if it
/// is not suspended. Fails if entry_generation is older than the current forced minimum.
pub fn plan_resume_at(current: NumericType, entry_generation: NumericType) -> (plan: Result<
    Option<NumericType>,
    ResumeError,
>)
    ensures
        plan == resume_at_plan(current, entry_generation),
{
    if !is_suspended(current) {
        return Ok(None);
    }
    let current_gen_without_suspend = gen_without_suspended_bit(current);
    if gen_lt_msb_masked(entry_generation, current_gen_without_suspend) {
        return Err(ResumeError::GenerationTooOld);
    }
    Ok(Some(gen_without_suspended_bit(entry_generation)))
}

/// Make a usable key of a reader seed: no MSB, and not zero.
pub fn plan_seed(seed: NumericType) -> (key: NumericType)
    ensures
        key == seed_key(seed),
{
    let key = gen_without_suspended_bit(seed);
    if key == 0 {
        1
    } else {
        key
    }
}

/// Decide what a cleanup does at a slot: a reader that is there is heeded, a slot without one is
/// moved forward, so that nobody can enter it at a generation that is about to go away.
pub fn plan_sweep(min_held: NumericType, reader_gen: NumericType) -> (plan: Sweep)
    ensures
        plan == sweep_plan(min_held, reader_gen),
{
    if is_suspended(reader_gen) {
        if gen_gt_msb_masked(min_held, gen_without_suspended_bit(reader_gen)) {
            Sweep::Force(gen_with_suspended_bit(min_held))
        } else {
            Sweep::Keep(min_held)
        }
    } else if gen_gte_msb_masked(min_held, reader_gen) {
        Sweep::Keep(reader_gen)
    } else {
        Sweep::Keep(min_held)
    }
}

/// Where a range of messages lies in a ring buffer: the index of the first one, the number of
/// messages from there on, and the number of those that follow at the start of the buffer.
pub fn plan_segments(start_generation: NumericType, len: usize, capacity: usize) -> (segments: (
    usize,
    usize,
    usize,
))
    requires
        0 < capacity,
        len <= capacity,
    ensures
        ({
            let (start, first, second) = segments;
            &&& start == slot_index(start_generation, capacity as nat)
            &&& first + second == len
            &&& start + first <= capacity
            &&& second > 0 ==> start + first == capacity && second <= start
        }),
{
    let start = ring_index(start_generation, capacity);
    if len <= capacity - start {
        (start, len, 0)
    } else {
        let first = capacity - start;
        (start, first, len - first)
    }
}

} // verus!
