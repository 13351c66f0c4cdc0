//! The operations of an area as they are carried out while others carry out theirs.
//!
//! Each operation is a task that goes from stage to stage. A stage says what to do next with the
//! shared numbers, one load, one exchange or one change at a time, and what comes of it decides on
//! the next stage. Who carries a task out has nothing to decide.
use crate::area::{
    gen_without_suspended_bit, CleanupError, CleanupResult, ReadError, ReserveError, ResumeError,
};
use crate::arithmetics::{
    self, gen_add_msb_masked, gen_dist_msb_masked, gen_gte_msb_masked, gen_lte_msb_masked,
    NumericType,
};
use crate::bits;
use crate::map::{ends_at_lost_claim, probe_slot, Probe};
use crate::steps::{self, Sweep};
use vstd::arithmetic::power2::*;
use vstd::prelude::*;

verus! {

/// What came of doing what a task asked for.
#[derive(Debug, Clone, Copy, PartialEq, Eq)]
pub enum Event {
    /// The number was loaded, and is this.
    Loaded(NumericType),
    /// The number was the expected one, and was exchanged.
    Exchanged,
    /// The number was this one and not the expected one, and was left alone.
    Changed(NumericType),
    /// It was done.
    Done,
}

/// What comes of an exchange.
pub open spec fn exchange_event(actual: NumericType, expected: NumericType) -> Event {
    if actual == expected {
        Event::Exchanged
    } else {
        Event::Changed(actual)
    }
}

/// Exchange a number that nobody else has access to.
#[inline]
pub fn exchange(number: &mut NumericType, expected: NumericType, desired: NumericType) -> (event:
    Event)
    ensures
        event == exchange_event(*old(number), expected),
        *final(number) == (if *old(number) == expected {
            desired
        } else {
            *old(number)
        }),
{
    if *number == expected {
        *number = desired;
        Event::Exchanged
    } else {
        Event::Changed(*number)
    }
}

/// An exchange succeeds if and only if the number is the expected one, and otherwise tells what it
/// is.
pub proof fn law_an_exchange_succeeds_if_nobody_was_faster(
    actual: NumericType,
    expected: NumericType,
)
    ensures
        match exchange_event(actual, expected) {
            Event::Exchanged => actual == expected,
            Event::Changed(now) => now == actual && actual != expected,
            _ => false,
        },
{
}

/// A reservation of slots: of exactly `n`, or of as many as possible up to `n`.
#[derive(Debug, Clone, Copy, PartialEq, Eq)]
pub struct Request {
    /// The capacity of the ring buffer
    pub capacity: usize,
    /// The number of slots
    pub n: usize,
    /// Fewer slots will do
    pub best_effort: bool,
}

/// The stages of a reservation.
#[derive(Debug, Clone, Copy, PartialEq, Eq)]
pub enum ReserveTask {
    /// Load the free generation. This must come first, to be conservative about free spots being
    /// available.
    Start,
    /// Load the write generation.
    SawFree { free: NumericType },
    /// Exchange the write generation, from the first number to the second. Who is the only writer
    /// can store it.
    Planned { start: NumericType, end: NumericType, count: usize },
    /// The range was reserved, or could not be.
    Ended(Result<(NumericType, NumericType, usize), ReserveError>),
}

/// The stage of a reservation that comes next.
pub open spec fn reserve_next(request: Request, task: ReserveTask, event: Event) -> ReserveTask {
    match (task, event) {
        (ReserveTask::Start, Event::Loaded(free)) => ReserveTask::SawFree { free },
        (ReserveTask::SawFree { free }, Event::Loaded(write)) => if request.best_effort {
            let actual = steps::best_effort(
                request.capacity as nat,
                request.n as int,
                free,
                write,
            );
            if actual == 0 {
                ReserveTask::Ended(Ok((0, 0, 0)))
            } else {
                ReserveTask::Planned {
                    start: write,
                    end: arithmetics::gen_add(write, actual),
                    count: actual as usize,
                }
            }
        } else {
            match steps::reserve_plan(request.capacity as nat, request.n as int, free, write) {
                Ok((start, end)) => ReserveTask::Planned { start, end, count: request.n },
                Err(err) => ReserveTask::Ended(Err(err)),
            }
        },
        (ReserveTask::Planned { start, end, count }, Event::Exchanged) => ReserveTask::Ended(
            Ok((start, end, count)),
        ),
        (ReserveTask::Planned { .. }, Event::Changed(_)) => ReserveTask::Ended(
            Err(ReserveError::FailedGrab),
        ),
        _ => task,
    }
}

impl ReserveTask {
    /// Go on to the next stage.
    pub fn next(self, request: Request, event: Event) -> (task: ReserveTask)
        ensures
            task == reserve_next(request, self, event),
    {
        match (self, event) {
            (ReserveTask::Start, Event::Loaded(free)) => ReserveTask::SawFree { free },
            (ReserveTask::SawFree { free }, Event::Loaded(write)) => if request.best_effort {
                let actual = steps::plan_best_effort(request.capacity, request.n, free, write);
                if actual == 0 {
                    ReserveTask::Ended(Ok((0, 0, 0)))
                } else {
                    let end = gen_add_msb_masked(write, actual as NumericType);
                    ReserveTask::Planned { start: write, end, count: actual }
                }
            } else {
                match steps::plan_reserve(request.capacity, request.n, free, write) {
                    Ok((start, end)) => ReserveTask::Planned { start, end, count: request.n },
                    Err(err) => ReserveTask::Ended(Err(err)),
                }
            },
            (ReserveTask::Planned { start, end, count }, Event::Exchanged) => ReserveTask::Ended(
                Ok((start, end, count)),
            ),
            (ReserveTask::Planned { .. }, Event::Changed(_)) => ReserveTask::Ended(
                Err(ReserveError::FailedGrab),
            ),
            _ => self,
        }
    }
}

/// The stages of a cleanup.
#[derive(Debug, Clone, Copy, PartialEq, Eq)]
pub enum CleanupTask {
    /// Load the last valid generation.
    Start,
    /// Load the read generation.
    SawLast { last_valid: NumericType },
    /// Load the reader slot `index`. Everything from `min_held` on must be kept.
    AtSlot { last_valid: NumericType, min_held: NumericType, index: usize },
    /// Exchange the reader slot `index`, from `seen` to `min_held` with the suspended bit.
    Forcing { last_valid: NumericType, min_held: NumericType, index: usize, seen: NumericType },
    /// Exchange the last valid generation, from `last_valid` to `min_held`. Who is the only cleaner
    /// can store it.
    Claiming { last_valid: NumericType, min_held: NumericType },
    /// Drop the message of the generation that comes `done` after `last_valid`.
    Dropping { last_valid: NumericType, min_held: NumericType, done: NumericType },
    /// Exchange the free generation, from `last_valid` to `min_held`, as often as it takes. Who is
    /// the only cleaner can store it.
    Freeing { last_valid: NumericType, min_held: NumericType },
    /// Something was cleaned, or there was nothing to clean.
    Ended(Result<CleanupResult, CleanupError>),
}

/// The stage of a cleanup that has yet to go to the reader slots from `index` on.
pub open spec fn cleanup_at(
    last_valid: NumericType,
    min_held: NumericType,
    index: int,
    slots: usize,
) -> CleanupTask {
    if index < slots {
        CleanupTask::AtSlot { last_valid, min_held, index: index as usize }
    } else {
        cleanup_claim(last_valid, min_held)
    }
}

/// The stage of a cleanup that has been at all reader slots.
pub open spec fn cleanup_claim(last_valid: NumericType, min_held: NumericType) -> CleanupTask {
    if arithmetics::gen_gte(last_valid, min_held) {
        CleanupTask::Ended(Err(CleanupError::NothingToClean))
    } else {
        CleanupTask::Claiming { last_valid, min_held }
    }
}

/// The stage of a cleanup that sees `reader_gen` in a reader slot.
pub open spec fn cleanup_visit(
    last_valid: NumericType,
    min_held: NumericType,
    index: usize,
    reader_gen: NumericType,
    slots: usize,
) -> CleanupTask {
    match steps::sweep_plan(min_held, reader_gen) {
        Sweep::Force(_) => CleanupTask::Forcing { last_valid, min_held, index, seen: reader_gen },
        Sweep::Keep(held) => cleanup_at(last_valid, held, index + 1, slots),
    }
}

/// The stage of a cleanup that has dropped some of what it has claimed.
pub open spec fn cleanup_drop(
    last_valid: NumericType,
    min_held: NumericType,
    done: int,
) -> CleanupTask {
    if done < arithmetics::gen_dist(min_held, last_valid) {
        CleanupTask::Dropping { last_valid, min_held, done: done as NumericType }
    } else {
        CleanupTask::Freeing { last_valid, min_held }
    }
}

/// The stage of a cleanup that comes next, where there are as many reader slots.
pub open spec fn cleanup_next(slots: usize, task: CleanupTask, event: Event) -> CleanupTask {
    match (task, event) {
        (CleanupTask::Start, Event::Loaded(last_valid)) => CleanupTask::SawLast { last_valid },
        (CleanupTask::SawLast { last_valid }, Event::Loaded(read_gen)) => if arithmetics::gen_gte(
            last_valid,
            read_gen,
        ) {
            CleanupTask::Ended(Err(CleanupError::NothingToClean))
        } else {
            cleanup_at(last_valid, read_gen, 0, slots)
        },
        (
            CleanupTask::AtSlot { last_valid, min_held, index },
            Event::Loaded(reader_gen),
        ) => cleanup_visit(last_valid, min_held, index, reader_gen, slots),
        (
            CleanupTask::Forcing { last_valid, min_held, index, .. },
            Event::Exchanged,
        ) => cleanup_at(last_valid, min_held, index + 1, slots),
        (
            CleanupTask::Forcing { last_valid, min_held, index, .. },
            Event::Changed(reader_gen),
        ) => cleanup_visit(last_valid, min_held, index, reader_gen, slots),
        (
            CleanupTask::Claiming { last_valid, min_held },
            Event::Exchanged,
        ) => cleanup_drop(last_valid, min_held, 0),
        (CleanupTask::Claiming { min_held, .. }, Event::Changed(actual)) => cleanup_claim(
            actual,
            min_held,
        ),
        (
            CleanupTask::Dropping { last_valid, min_held, done },
            Event::Done,
        ) => cleanup_drop(last_valid, min_held, done + 1),
        (CleanupTask::Freeing { last_valid, min_held }, Event::Exchanged) => CleanupTask::Ended(
            Ok(
                CleanupResult {
                    old_last_valid: last_valid,
                    new_last_valid: min_held,
                    slots_cleaned: arithmetics::gen_dist(min_held, last_valid) as NumericType,
                },
            ),
        ),
        _ => task,
    }
}

/// How far a cleanup that nobody else disturbs is from its end.
pub open spec fn cleanup_rank(task: CleanupTask, slots: usize) -> int {
    match task {
        CleanupTask::Start => 2 * slots + arithmetics::gen_period() + 5,
        CleanupTask::SawLast { .. } => 2 * slots + arithmetics::gen_period() + 4,
        CleanupTask::AtSlot { index, .. } => 2 * (slots - index) + arithmetics::gen_period() + 3,
        CleanupTask::Forcing { index, .. } => 2 * (slots - index) + arithmetics::gen_period() + 2,
        CleanupTask::Claiming { .. } => arithmetics::gen_period() + 2,
        CleanupTask::Dropping { done, .. } => arithmetics::gen_period() + 1 - done,
        CleanupTask::Freeing { .. } => 1,
        CleanupTask::Ended(_) => 0,
    }
}

impl CleanupTask {
    fn at(last_valid: NumericType, min_held: NumericType, index: usize, slots: usize) -> (task:
        CleanupTask)
        ensures
            task == cleanup_at(last_valid, min_held, index as int, slots),
    {
        if index < slots {
            CleanupTask::AtSlot { last_valid, min_held, index }
        } else {
            Self::claim(last_valid, min_held)
        }
    }

    fn claim(last_valid: NumericType, min_held: NumericType) -> (task: CleanupTask)
        ensures
            task == cleanup_claim(last_valid, min_held),
    {
        if gen_lte_msb_masked(min_held, last_valid) {
            // Either there was nothing to clean, or others have cleaned everything we wanted to
            // clean.
            CleanupTask::Ended(Err(CleanupError::NothingToClean))
        } else {
            CleanupTask::Claiming { last_valid, min_held }
        }
    }

    fn visit(
        last_valid: NumericType,
        min_held: NumericType,
        index: usize,
        reader_gen: NumericType,
        slots: usize,
    ) -> (task: CleanupTask)
        requires
            index < slots,
        ensures
            task == cleanup_visit(last_valid, min_held, index, reader_gen, slots),
    {
        match steps::plan_sweep(min_held, reader_gen) {
            Sweep::Force(_) => CleanupTask::Forcing {
                last_valid,
                min_held,
                index,
                seen: reader_gen,
            },
            Sweep::Keep(held) => Self::at(last_valid, held, index + 1, slots),
        }
    }

    fn drop_from(last_valid: NumericType, min_held: NumericType, done: NumericType) -> (task:
        CleanupTask)
        ensures
            task == cleanup_drop(last_valid, min_held, done as int),
    {
        if done < gen_dist_msb_masked(min_held, last_valid) {
            CleanupTask::Dropping { last_valid, min_held, done }
        } else {
            CleanupTask::Freeing { last_valid, min_held }
        }
    }

    /// The task is at a slot that there is, and has not dropped more than it could count.
    pub open spec fn wf(self, slots: usize) -> bool {
        match self {
            CleanupTask::AtSlot { index, .. } => index < slots,
            CleanupTask::Forcing { index, .. } => index < slots,
            CleanupTask::Dropping { last_valid, min_held, done } => done < arithmetics::gen_dist(
                min_held,
                last_valid,
            ),
            _ => true,
        }
    }

    /// Go on to the next stage.
    pub fn next(self, slots: usize, event: Event) -> (task: CleanupTask)
        requires
            self.wf(slots),
        ensures
            task == cleanup_next(slots, self, event),
            task.wf(slots),
    {
        match (self, event) {
            (CleanupTask::Start, Event::Loaded(last_valid)) => CleanupTask::SawLast { last_valid },
            (CleanupTask::SawLast { last_valid }, Event::Loaded(read_gen)) => {
                if gen_gte_msb_masked(last_valid, read_gen) {
                    CleanupTask::Ended(Err(CleanupError::NothingToClean))
                } else {
                    Self::at(last_valid, read_gen, 0, slots)
                }
            },
            (
                CleanupTask::AtSlot { last_valid, min_held, index },
                Event::Loaded(reader_gen),
            ) => Self::visit(last_valid, min_held, index, reader_gen, slots),
            // If we succeed in forcing the update, we are done with this slot.
            (
                CleanupTask::Forcing { last_valid, min_held, index, .. },
                Event::Exchanged,
            ) => Self::at(last_valid, min_held, index + 1, slots),
            // If we fail in forcing the update, either the reader was unsuspended and we need to
            // treat it as normal, or the reader is still suspended and we can retry.
            (
                CleanupTask::Forcing { last_valid, min_held, index, .. },
                Event::Changed(reader_gen),
            ) => Self::visit(last_valid, min_held, index, reader_gen, slots),
            (
                CleanupTask::Claiming { last_valid, min_held },
                Event::Exchanged,
            ) => Self::drop_from(last_valid, min_held, 0),
            // Try advancing further
            (CleanupTask::Claiming { min_held, .. }, Event::Changed(actual)) => Self::claim(
                actual,
                min_held,
            ),
            (
                CleanupTask::Dropping { last_valid, min_held, done },
                Event::Done,
            ) => Self::drop_from(last_valid, min_held, done + 1),
            (CleanupTask::Freeing { last_valid, min_held }, Event::Exchanged) => {
                CleanupTask::Ended(
                    Ok(
                        CleanupResult {
                            old_last_valid: last_valid,
                            new_last_valid: min_held,
                            slots_cleaned: gen_dist_msb_masked(min_held, last_valid),
                        },
                    ),
                )
            },
            // Another cleanup is still working: try again.
            _ => self,
        }
    }
}

/// The stages of resuming a reader, where it is or at an entry generation.
#[derive(Debug, Clone, Copy, PartialEq, Eq)]
pub enum ResumeTask {
    /// Load the reader slot.
    Start,
    /// Exchange the reader slot, from the first number to the second.
    Resuming { expected: NumericType, desired: NumericType },
    /// The reader is not suspended anymore, and was or was not before; or it could not resume.
    Ended(Result<bool, ResumeError>),
}

/// The stage of resuming that comes next.
pub open spec fn resume_next(
    entry_generation: Option<NumericType>,
    task: ResumeTask,
    event: Event,
) -> ResumeTask {
    match (task, event) {
        (ResumeTask::Start, Event::Loaded(current)) => {
            let plan = match entry_generation {
                Some(entry) => steps::resume_at_plan(current, entry),
                None => Ok(steps::resume_plan(current)),
            };
            match plan {
                Ok(Some(desired)) => ResumeTask::Resuming { expected: current, desired },
                Ok(None) => ResumeTask::Ended(Ok(false)),
                Err(err) => ResumeTask::Ended(Err(err)),
            }
        },
        (ResumeTask::Resuming { .. }, Event::Exchanged) => ResumeTask::Ended(Ok(true)),
        (ResumeTask::Resuming { .. }, Event::Changed(_)) => ResumeTask::Start,
        _ => task,
    }
}

impl ResumeTask {
    /// Go on to the next stage.
    pub fn next(self, entry_generation: Option<NumericType>, event: Event) -> (task: ResumeTask)
        ensures
            task == resume_next(entry_generation, self, event),
    {
        match (self, event) {
            (ResumeTask::Start, Event::Loaded(current)) => {
                let plan = match entry_generation {
                    Some(entry) => steps::plan_resume_at(current, entry),
                    None => Ok(steps::plan_resume(current)),
                };
                match plan {
                    Ok(Some(desired)) => ResumeTask::Resuming { expected: current, desired },
                    Ok(None) => ResumeTask::Ended(Ok(false)),
                    Err(err) => ResumeTask::Ended(Err(err)),
                }
            },
            (ResumeTask::Resuming { .. }, Event::Exchanged) => ResumeTask::Ended(Ok(true)),
            // A cleanup has moved the slot: look again.
            (ResumeTask::Resuming { .. }, Event::Changed(_)) => ResumeTask::Start,
            _ => self,
        }
    }
}

/// What there is to read: everything from `start` up to `end`.
#[derive(Debug, Clone, Copy, PartialEq, Eq)]
pub struct Readable {
    /// The generation of the first message
    pub start: NumericType,
    /// The generation after that of the last message
    pub end: NumericType,
    /// The reader is to advance once it has read
    pub armed: bool,
}

/// The stages of reading with a check for writers.
#[derive(Debug, Clone, Copy, PartialEq, Eq)]
pub enum ReadTask {
    /// Load the reader slot.
    Start,
    /// Load the read generation.
    At { start: NumericType },
    /// Load the number of writers: there was nothing to read.
    LookingForWriters { start: NumericType },
    /// Load the reader slot once more: there were no writers, but messages may have been posted
    /// before the last one left.
    Again,
    /// Load the read generation once more.
    AgainAt { start: NumericType },
    /// There is something to read, or there may be later, or there are no writers anymore.
    Ended(Result<Readable, ReadError>),
}

/// There is nothing from one generation up to another.
pub open spec fn nothing_between(start: NumericType, end: NumericType) -> bool {
    arithmetics::gen_dist(end, start) as usize == 0
}

/// The stage of reading that comes next.
pub open spec fn read_next(task: ReadTask, event: Event) -> ReadTask {
    match (task, event) {
        (ReadTask::Start, Event::Loaded(slot)) => ReadTask::At {
            start: arithmetics::gen_of(slot as int),
        },
        (ReadTask::At { start }, Event::Loaded(end)) => if nothing_between(start, end) {
            ReadTask::LookingForWriters { start }
        } else {
            ReadTask::Ended(Ok(Readable { start, end, armed: true }))
        },
        (ReadTask::LookingForWriters { start }, Event::Loaded(writers)) => if writers == 0 {
            ReadTask::Again
        } else {
            ReadTask::Ended(Ok(Readable { start, end: start, armed: false }))
        },
        (ReadTask::Again, Event::Loaded(slot)) => ReadTask::AgainAt {
            start: arithmetics::gen_of(slot as int),
        },
        (ReadTask::AgainAt { start }, Event::Loaded(end)) => if nothing_between(start, end) {
            ReadTask::Ended(Err(ReadError))
        } else {
            ReadTask::Ended(Ok(Readable { start, end, armed: true }))
        },
        _ => task,
    }
}

impl ReadTask {
    /// Go on to the next stage.
    pub fn next(self, event: Event) -> (task: ReadTask)
        ensures
            task == read_next(self, event),
    {
        match (self, event) {
            (ReadTask::Start, Event::Loaded(slot)) => ReadTask::At {
                start: gen_without_suspended_bit(slot),
            },
            (ReadTask::At { start }, Event::Loaded(end)) => {
                if gen_dist_msb_masked(end, start) as usize == 0 {
                    ReadTask::LookingForWriters { start }
                } else {
                    ReadTask::Ended(Ok(Readable { start, end, armed: true }))
                }
            },
            (ReadTask::LookingForWriters { start }, Event::Loaded(writers)) => if writers == 0 {
                ReadTask::Again
            } else {
                ReadTask::Ended(Ok(Readable { start, end: start, armed: false }))
            },
            (ReadTask::Again, Event::Loaded(slot)) => ReadTask::AgainAt {
                start: gen_without_suspended_bit(slot),
            },
            (ReadTask::AgainAt { start }, Event::Loaded(end)) => {
                if gen_dist_msb_masked(end, start) as usize == 0 {
                    ReadTask::Ended(Err(ReadError))
                } else {
                    ReadTask::Ended(Ok(Readable { start, end, armed: true }))
                }
            },
            _ => self,
        }
    }
}

/// A reader is told that nobody writes anymore if and only if there was nothing to read, then no
/// writer, and then still nothing to read: what was posted before the last writer left, it gets to
/// read first.
pub proof fn law_the_end_is_told_after_the_last_message(
    slot: NumericType,
    read_gen: NumericType,
    writers: NumericType,
    slot_again: NumericType,
    read_gen_again: NumericType,
)
    ensures
        ({
            let first = read_next(
                read_next(ReadTask::Start, Event::Loaded(slot)),
                Event::Loaded(read_gen),
            );
            let checked = read_next(first, Event::Loaded(writers));
            let last = read_next(
                read_next(checked, Event::Loaded(slot_again)),
                Event::Loaded(read_gen_again),
            );
            last == ReadTask::Ended(Err(ReadError)) <==> {
                &&& nothing_between(arithmetics::gen_of(slot as int), read_gen)
                &&& writers == 0
                &&& nothing_between(arithmetics::gen_of(slot_again as int), read_gen_again)
            }
        }),
{
}

/// A search for a key in a map, or for a slot to put it in.
#[derive(Debug, Clone, Copy, PartialEq, Eq)]
pub struct Search {
    /// The key, which has no flag
    pub key: u64,
    /// The offset at which the search begins
    pub placement_offset: usize,
    /// The number of slots to look at, at most
    pub limit: usize,
    /// The number of slots of the map, a power of two
    pub capacity: usize,
    /// Claim a slot if the key is not there
    pub insert: bool,
    /// Claim a slot in any case, under a key of its own
    pub fold: bool,
}

/// What a search has found.
#[derive(Debug, Clone, Copy, PartialEq, Eq)]
pub struct SearchResult {
    /// The slot was claimed by the search
    pub is_new: bool,
    /// The number of steps that it took
    pub delta: usize,
    /// The key of the slot, with its flag
    pub key: u64,
    /// The slot
    pub index: usize,
}

/// The stages of a search.
#[derive(Debug, Clone, Copy, PartialEq, Eq)]
pub enum SearchTask {
    /// Load the key of the slot `index`, which is reached after `i` steps.
    At { i: usize, index: usize },
    /// Exchange the key of the slot `index`, from empty to `key`.
    Claiming { i: usize, index: usize, key: u64 },
    /// A slot was found, or was not.
    Ended(Option<SearchResult>),
}

/// The stage of a search that comes to its `i`-th slot.
pub open spec fn search_at(search: Search, i: int) -> SearchTask {
    if i < search.limit {
        let index = crate::map::probe_index(
            search.key,
            search.placement_offset,
            i,
            search.capacity as nat,
        );
        SearchTask::At { i: i as usize, index: index as usize }
    } else {
        SearchTask::Ended(None)
    }
}

/// The stage of a search that comes next.
pub open spec fn search_next(search: Search, task: SearchTask, event: Event) -> SearchTask {
    match (task, event) {
        (SearchTask::At { i, index }, Event::Loaded(k)) => if search.insert && k
            == crate::map::EMPTY {
            SearchTask::Claiming {
                i,
                index,
                key: crate::map::claimed_key(
                    search.key,
                    search.placement_offset,
                    i as int,
                    search.capacity as nat,
                    search.fold,
                ),
            }
        } else if !search.fold && crate::map::logical_key(k) == search.key {
            SearchTask::Ended(Some(SearchResult { is_new: false, delta: i, key: k, index }))
        } else {
            search_at(search, i + 1)
        },
        (SearchTask::Claiming { i, index, key }, Event::Exchanged) => SearchTask::Ended(
            Some(SearchResult { is_new: true, delta: i, key, index }),
        ),
        (SearchTask::Claiming { i, index, .. }, Event::Changed(actual)) => if !search.fold && actual
            != crate::map::EMPTY && crate::map::logical_key(actual) == search.key {
            SearchTask::Ended(Some(SearchResult { is_new: false, delta: i, key: actual, index }))
        } else {
            search_at(search, i + 1)
        },
        _ => task,
    }
}

/// How far a search that nobody else disturbs is from its end.
pub open spec fn search_rank(search: Search, task: SearchTask) -> int {
    match task {
        SearchTask::At { i, .. } => 2 * (search.limit - i) + 1,
        SearchTask::Claiming { i, .. } => 2 * (search.limit - i),
        SearchTask::Ended(_) => 0,
    }
}

impl Search {
    /// The map can be searched like this.
    pub open spec fn wf(self) -> bool {
        &&& self.key < crate::map::IN_PROGRESS
        &&& is_pow2(self.capacity as int)
        &&& (self.key as usize) + self.placement_offset <= usize::MAX
    }
}

impl SearchTask {
    /// The task is at the slot that it comes to after as many steps.
    pub open spec fn wf(self, search: Search) -> bool {
        match self {
            SearchTask::At { i, index } => i < search.limit && index == crate::map::probe_index(
                search.key,
                search.placement_offset,
                i as int,
                search.capacity as nat,
            ),
            SearchTask::Claiming { i, index, .. } => i < search.limit && index
                == crate::map::probe_index(
                search.key,
                search.placement_offset,
                i as int,
                search.capacity as nat,
            ),
            _ => true,
        }
    }

    /// Begin to search.
    pub fn start(search: Search) -> (task: SearchTask)
        requires
            search.wf(),
        ensures
            task == search_at(search, 0),
            task.wf(search),
    {
        if search.limit == 0 {
            return SearchTask::Ended(None);
        }
        proof {
            bits::lemma_mask_is_remainder(
                (search.key as usize + search.placement_offset) as usize,
                search.capacity,
            );
        }
        let index = (search.key as usize + search.placement_offset) & (search.capacity - 1);
        proof {
            vstd::arithmetic::div_mod::lemma_small_mod(index as nat, search.capacity as nat);
        }
        SearchTask::At { i: 0, index }
    }

    fn advance(search: Search, i: usize, index: usize) -> (task: SearchTask)
        requires
            search.wf(),
            i < search.limit,
            index == crate::map::probe_index(
                search.key,
                search.placement_offset,
                i as int,
                search.capacity as nat,
            ),
        ensures
            task == search_at(search, i + 1),
            task.wf(search),
    {
        if i + 1 >= search.limit {
            return SearchTask::Ended(None);
        }
        proof {
            let capacity = search.capacity as nat;
            bits::lemma_power_divides(search.capacity);
            crate::map::lemma_probe_in_range(
                search.key,
                search.placement_offset,
                i as int,
                capacity,
            );
            crate::map::lemma_probe_advances(
                search.key,
                search.placement_offset,
                i as int,
                capacity,
            );
            bits::lemma_mask_is_remainder((index + 1) as usize, search.capacity);
        }
        let index = (index + 1) & (search.capacity - 1);
        SearchTask::At { i: i + 1, index }
    }

    /// Go on to the next stage.
    pub fn next(self, search: Search, event: Event) -> (task: SearchTask)
        requires
            search.wf(),
            self.wf(search),
        ensures
            task == search_next(search, self, event),
            task.wf(search),
    {
        match (self, event) {
            (SearchTask::At { i, index }, Event::Loaded(k)) => match probe_slot(
                search.key,
                search.placement_offset,
                i,
                search.capacity,
                k,
                search.insert,
                search.fold,
            ) {
                Probe::Claim(key) => SearchTask::Claiming { i, index, key },
                Probe::Found => SearchTask::Ended(
                    Some(SearchResult { is_new: false, delta: i, key: k, index }),
                ),
                Probe::Next => Self::advance(search, i, index),
            },
            (SearchTask::Claiming { i, index, key }, Event::Exchanged) => SearchTask::Ended(
                Some(SearchResult { is_new: true, delta: i, key, index }),
            ),
            (SearchTask::Claiming { i, index, .. }, Event::Changed(actual)) => {
                // Slot changed under us; if it became our key, just use it.
                if ends_at_lost_claim(search.key, actual, search.fold) {
                    SearchTask::Ended(
                        Some(SearchResult { is_new: false, delta: i, key: actual, index }),
                    )
                } else {
                    Self::advance(search, i, index)
                }
            },
            _ => self,
        }
    }
}

/// The stages of leaving an area. A writer begins at `LeavingWriters`, a reader at `Entering`.
#[derive(Debug, Clone, Copy, PartialEq, Eq)]
pub enum LeaveTask {
    /// Take one off the number of writers, and load what it was.
    LeavingWriters,
    /// Add one to the keep-alloc tickets.
    Entering,
    /// Unregister the reader.
    Unregistering,
    /// Load the key of the reader slot `index`, to see whether there are other readers.
    LookingAround { index: usize },
    /// Add one to the stage tickets: there are no other readers that do not leave already.
    Applying,
    /// Take one off the keep-alloc tickets.
    Releasing { competing: bool },
    /// Load the keep-alloc tickets, until there are none.
    Waiting,
    /// Take one off the stage tickets, and load what they were.
    Competing,
    /// Take one off the destroy stages, and load what they were.
    Staging,
    /// This was the last one there of all, or was not.
    Ended { last: bool },
}

/// The stage of looking for other readers that comes to the slot `index`.
pub open spec fn leave_look(slots: usize, index: int) -> LeaveTask {
    if index < slots {
        LeaveTask::LookingAround { index: index as usize }
    } else {
        LeaveTask::Applying
    }
}

/// The stage of leaving that comes next, where there are as many reader slots.
pub open spec fn leave_next(slots: usize, task: LeaveTask, event: Event) -> LeaveTask {
    match (task, event) {
        (LeaveTask::LeavingWriters, Event::Loaded(writers)) => if writers == 1 {
            LeaveTask::Staging
        } else {
            LeaveTask::Ended { last: false }
        },
        (LeaveTask::Entering, Event::Done) => LeaveTask::Unregistering,
        (LeaveTask::Unregistering, Event::Done) => leave_look(slots, 0),
        (LeaveTask::LookingAround { index }, Event::Loaded(key)) => if key != crate::map::EMPTY {
            LeaveTask::Releasing { competing: false }
        } else {
            leave_look(slots, index + 1)
        },
        (LeaveTask::Applying, Event::Done) => LeaveTask::Releasing { competing: true },
        (LeaveTask::Releasing { competing }, Event::Done) => if competing {
            LeaveTask::Waiting
        } else {
            LeaveTask::Ended { last: false }
        },
        (LeaveTask::Waiting, Event::Loaded(tickets)) => if tickets == 0 {
            LeaveTask::Competing
        } else {
            LeaveTask::Waiting
        },
        (LeaveTask::Competing, Event::Loaded(tickets)) => if tickets == 1 {
            LeaveTask::Staging
        } else {
            LeaveTask::Ended { last: false }
        },
        (LeaveTask::Staging, Event::Loaded(stages)) => LeaveTask::Ended { last: stages == 1 },
        _ => task,
    }
}

/// How far leaving, where nobody else disturbs it, is from its end.
pub open spec fn leave_rank(task: LeaveTask, slots: usize) -> int {
    match task {
        LeaveTask::LeavingWriters => 2,
        LeaveTask::Entering => slots + 8,
        LeaveTask::Unregistering => slots + 7,
        LeaveTask::LookingAround { index } => slots - index + 6,
        LeaveTask::Applying => 6,
        LeaveTask::Releasing { .. } => 5,
        LeaveTask::Waiting => 4,
        LeaveTask::Competing => 3,
        LeaveTask::Staging => 2,
        LeaveTask::Ended { .. } => 0,
    }
}

impl LeaveTask {
    /// The task is at a slot that there is.
    pub open spec fn wf(self, slots: usize) -> bool {
        self matches LeaveTask::LookingAround { index } ==> index < slots
    }

    /// Go on to the next stage.
    pub fn next(self, slots: usize, event: Event) -> (task: LeaveTask)
        requires
            self.wf(slots),
        ensures
            task == leave_next(slots, self, event),
            task.wf(slots),
    {
        match (self, event) {
            // The last writer takes the writers' stage.
            (LeaveTask::LeavingWriters, Event::Loaded(writers)) => if writers == 1 {
                LeaveTask::Staging
            } else {
                LeaveTask::Ended { last: false }
            },
            (LeaveTask::Entering, Event::Done) => LeaveTask::Unregistering,
            (LeaveTask::Unregistering, Event::Done) => Self::look(slots, 0),
            (LeaveTask::LookingAround { index }, Event::Loaded(key)) => {
                if key != crate::map::EMPTY {
                    LeaveTask::Releasing { competing: false }
                } else {
                    Self::look(slots, index + 1)
                }
            },
            (LeaveTask::Applying, Event::Done) => LeaveTask::Releasing { competing: true },
            (LeaveTask::Releasing { competing }, Event::Done) => if competing {
                LeaveTask::Waiting
            } else {
                LeaveTask::Ended { last: false }
            },
            // Let those who do not compete leave first.
            (LeaveTask::Waiting, Event::Loaded(tickets)) => if tickets == 0 {
                LeaveTask::Competing
            } else {
                LeaveTask::Waiting
            },
            // The last competitor takes the readers' stage.
            (LeaveTask::Competing, Event::Loaded(tickets)) => if tickets == 1 {
                LeaveTask::Staging
            } else {
                LeaveTask::Ended { last: false }
            },
            (LeaveTask::Staging, Event::Loaded(stages)) => LeaveTask::Ended { last: stages == 1 },
            _ => self,
        }
    }

    fn look(slots: usize, index: usize) -> (task: LeaveTask)
        ensures
            task == leave_look(slots, index as int),
            task.wf(slots),
    {
        if index < slots {
            LeaveTask::LookingAround { index }
        } else {
            LeaveTask::Applying
        }
    }
}

} // verus!
