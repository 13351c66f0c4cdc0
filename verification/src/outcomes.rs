//! What the tasks come to: which of their stages follow on which, and what they may report.
use crate::area::{ReadError, ReserveError, SetGenError};
use crate::arithmetics::{self, NumericType};
use crate::steps::{self, Sweep};
use crate::tasks::{
    self, CleanupTask, Event, LeaveTask, ReadTask, Readable, Request, ReserveTask, ResumeTask,
    Search, SearchResult, SearchTask,
};
use vstd::prelude::*;

verus! {

/// A reader moves to the generation that it asks for, unless it is suspended or that generation is
/// not ahead of it.
pub proof fn law_a_reader_moves_only_ahead(current: NumericType, generation: NumericType)
    ensures
        match steps::set_gen_plan(current, generation) {
            Ok(now) => {
                &&& now == generation
                &&& current < 0x8000_0000_0000_0000
                &&& arithmetics::gen_dist(current, generation) >= 0x4000_0000_0000_0000
            },
            Err(SetGenError::ReaderSuspended) => current >= 0x8000_0000_0000_0000,
            Err(SetGenError::InvalidGeneration) => {
                &&& current < 0x8000_0000_0000_0000
                &&& arithmetics::gen_dist(current, generation) < 0x4000_0000_0000_0000
            },
            Err(SetGenError::ReaderNotFound) => false,
        },
{
}

/// Suspending and resuming undo each other, and each of them works only where the other has left
/// off.
pub proof fn law_suspending_and_resuming_take_turns(current: NumericType)
    ensures
        match steps::suspend_plan(current) {
            Ok(now) => {
                &&& current < 0x8000_0000_0000_0000
                &&& now == current + 0x8000_0000_0000_0000
                &&& steps::resume_plan(now) == Some(current)
                &&& steps::resume_plan(current) is None
            },
            Err(err) => {
                &&& err is AlreadySuspended
                &&& current >= 0x8000_0000_0000_0000
                &&& steps::resume_plan(current) == Some((current - 0x8000_0000_0000_0000) as u64)
            },
        },
{
}

/// A suspended reader resumes at exactly the generation that it asks for, unless it has been moved
/// ahead of that one. One that is not suspended has nothing to resume.
pub proof fn law_a_reader_resumes_at_what_it_asks_for(current: NumericType, entry: NumericType)
    requires
        entry < 0x8000_0000_0000_0000,
    ensures
        match steps::resume_at_plan(current, entry) {
            Ok(Some(now)) => {
                &&& current >= 0x8000_0000_0000_0000
                &&& now == entry
                &&& current == entry + 0x8000_0000_0000_0000 || arithmetics::gen_dist(
                    current,
                    entry,
                ) >= 0x4000_0000_0000_0000
            },
            Ok(None) => current < 0x8000_0000_0000_0000,
            Err(err) => {
                &&& err is GenerationTooOld
                &&& current >= 0x8000_0000_0000_0000
                &&& current != entry + 0x8000_0000_0000_0000
                &&& arithmetics::gen_dist(current, entry) < 0x4000_0000_0000_0000
            },
        },
{
    let position = arithmetics::gen_of(current as int);
    assert(arithmetics::gen_dist(position, entry) == arithmetics::gen_dist(current, entry)) by {
        arithmetics::law_msb_is_ignored(current, entry, 0);
    }
}

/// A cleanup moves a slot only if nobody is there and it is behind what must be kept: to exactly
/// where that begins. A reader that is there and behind makes more to be kept, from where it is on;
/// nobody else makes a difference.
pub proof fn law_a_cleanup_heeds_who_is_there(min_held: NumericType, reader_gen: NumericType)
    requires
        min_held < 0x8000_0000_0000_0000,
    ensures
        ({
            let away = reader_gen >= 0x8000_0000_0000_0000;
            let behind = arithmetics::gen_dist(min_held, reader_gen) < 0x4000_0000_0000_0000;
            let here = arithmetics::gen_dist(min_held, reader_gen) == 0;
            match steps::sweep_plan(min_held, reader_gen) {
                Sweep::Force(now) => {
                    &&& away && behind && !here
                    &&& now == min_held + 0x8000_0000_0000_0000
                },
                Sweep::Keep(held) => {
                    &&& away ==> (!behind || here) && held == min_held
                    &&& !away && behind ==> held == reader_gen
                    &&& !away && !behind ==> held == min_held
                },
            }
        }),
{
    let position = arithmetics::gen_of(reader_gen as int);
    assert(arithmetics::gen_dist(min_held, position) == arithmetics::gen_dist(
        min_held,
        reader_gen,
    )) by {
        arithmetics::law_msb_is_ignored(min_held, reader_gen, 0);
    }
}

/// A seed leads to a usable key: the seed itself without its most significant bit, or 1 where
/// nothing is left of it.
pub proof fn law_a_seed_is_its_own_key(seed: NumericType)
    ensures
        0 < steps::seed_key(seed) < 0x8000_0000_0000_0000,
        arithmetics::gen_dist(seed, 0) != 0 ==> arithmetics::gen_dist(steps::seed_key(seed), seed)
            == 0,
        arithmetics::gen_dist(seed, 0) == 0 ==> steps::seed_key(seed) == 1,
{
}

/// A reservation is planned by the two numbers that were loaded: from the write generation on, as
/// many slots as were asked for, or as many as there is room for where fewer will do.
pub proof fn law_a_reservation_is_planned_by_what_was_seen(
    request: Request,
    free: NumericType,
    write: NumericType,
)
    requires
        request.n > 0,
        request.capacity < 0x8000_0000_0000_0000,
    ensures
        tasks::reserve_next(request, ReserveTask::Start, Event::Loaded(free))
            == (ReserveTask::SawFree { free }),
        ({
            let used = arithmetics::gen_dist(write, free);
            match tasks::reserve_next(
                request,
                ReserveTask::SawFree { free },
                Event::Loaded(write),
            ) {
                ReserveTask::Planned { start, end, count } => {
                    &&& start == write
                    &&& end < 0x8000_0000_0000_0000
                    &&& arithmetics::gen_dist(end, start) == count
                    &&& 0 < count <= request.n
                    &&& used + count <= request.capacity
                    &&& count < request.n ==> request.best_effort && used + count
                        == request.capacity
                },
                ReserveTask::Ended(Ok(none)) => {
                    &&& request.best_effort
                    &&& used >= request.capacity
                    &&& none == (0u64, 0u64, 0usize)
                },
                ReserveTask::Ended(Err(err)) => {
                    &&& !request.best_effort
                    &&& used + request.n > request.capacity
                    &&& err is NoSpace
                },
                _ => false,
            }
        }),
{
    let n = request.n as int;
    crate::effects::law_a_reservation_gets_what_there_is_room_for(
        request.capacity as nat,
        n,
        free,
        write,
    );
    let some = steps::best_effort(request.capacity as nat, n, free, write);
    assert(arithmetics::gen_dist(arithmetics::gen_add(write, some), write) == some) by {
        arithmetics::law_distance_after_add(write, some);
    }
}

/// A reservation is reported if and only if the exchange of the write generation has succeeded: who
/// was too late is told so. Once it is reported, nothing changes it anymore.
pub proof fn law_a_reservation_is_reported_if_it_was_made(
    request: Request,
    start: NumericType,
    end: NumericType,
    count: usize,
    actual: NumericType,
    result: Result<(NumericType, NumericType, usize), ReserveError>,
    event: Event,
)
    ensures
        tasks::reserve_next(
            request,
            ReserveTask::Planned { start, end, count },
            Event::Exchanged,
        ) == ReserveTask::Ended(Ok((start, end, count))),
        tasks::reserve_next(
            request,
            ReserveTask::Planned { start, end, count },
            Event::Changed(actual),
        ) == ReserveTask::Ended(Err(ReserveError::FailedGrab)),
        tasks::reserve_next(request, ReserveTask::Ended(result), event) == ReserveTask::Ended(
            result,
        ),
{
}

/// A cleanup begins by looking at how far messages are valid and published, and ends there if
/// everything that is published was cleaned already. Otherwise it goes to the reader slots, from the
/// first one on.
pub proof fn law_a_cleanup_begins_with_what_is_published(
    slots: usize,
    last_valid: NumericType,
    read_gen: NumericType,
)
    requires
        slots > 0,
    ensures
        tasks::cleanup_next(slots, CleanupTask::Start, Event::Loaded(last_valid))
            == (CleanupTask::SawLast { last_valid }),
        ({
            let next = tasks::cleanup_next(
                slots,
                CleanupTask::SawLast { last_valid },
                Event::Loaded(read_gen),
            );
            if arithmetics::gen_dist(last_valid, read_gen) < 0x4000_0000_0000_0000 {
                next matches CleanupTask::Ended(Err(_))
            } else {
                next == (CleanupTask::AtSlot { last_valid, min_held: read_gen, index: 0 })
            }
        }),
{
}

/// A cleanup goes to each reader slot in turn. It tries to move a slot by what it has last seen in
/// it, and looks again if somebody else was faster. After the last one it claims what comes before
/// the oldest generation that must be kept, if there is anything.
pub proof fn law_a_cleanup_goes_from_slot_to_slot(
    slots: usize,
    last_valid: NumericType,
    min_held: NumericType,
    index: usize,
    seen: NumericType,
    reader_gen: NumericType,
)
    requires
        index < slots,
    ensures
        ({
            let at = tasks::cleanup_next(
                slots,
                CleanupTask::AtSlot { last_valid, min_held, index },
                Event::Loaded(reader_gen),
            );
            let again = tasks::cleanup_next(
                slots,
                CleanupTask::Forcing { last_valid, min_held, index, seen },
                Event::Changed(reader_gen),
            );
            let forced = tasks::cleanup_next(
                slots,
                CleanupTask::Forcing { last_valid, min_held, index, seen },
                Event::Exchanged,
            );
            let on = |held: NumericType|
                if index + 1 < slots {
                    CleanupTask::AtSlot { last_valid, min_held: held, index: (index + 1) as usize }
                } else if arithmetics::gen_dist(last_valid, held) < 0x4000_0000_0000_0000 {
                    CleanupTask::Ended(Err(crate::area::CleanupError::NothingToClean))
                } else {
                    CleanupTask::Claiming { last_valid, min_held: held }
                };
            &&& again == at
            &&& forced == on(min_held)
            &&& match steps::sweep_plan(min_held, reader_gen) {
                Sweep::Force(_) => at == (CleanupTask::Forcing {
                    last_valid,
                    min_held,
                    index,
                    seen: reader_gen,
                }),
                Sweep::Keep(held) => at == on(held),
            }
        }),
{
}

/// A cleanup that has claimed a range drops its messages one after the other, frees their slots
/// when all are dropped, as often as it takes, and reports exactly that range. One that was too late
/// to claim it tries for what is left.
pub proof fn law_a_cleanup_drops_what_it_claims(
    slots: usize,
    last_valid: NumericType,
    min_held: NumericType,
    done: NumericType,
    actual: NumericType,
)
    requires
        done < arithmetics::gen_dist(min_held, last_valid),
    ensures
        ({
            let n = arithmetics::gen_dist(min_held, last_valid);
            let freeing = CleanupTask::Freeing { last_valid, min_held };
            &&& tasks::cleanup_next(
                slots,
                CleanupTask::Claiming { last_valid, min_held },
                Event::Exchanged,
            ) == (CleanupTask::Dropping { last_valid, min_held, done: 0 })
            &&& tasks::cleanup_next(
                slots,
                CleanupTask::Dropping { last_valid, min_held, done },
                Event::Done,
            ) == (if done + 1 < n {
                CleanupTask::Dropping { last_valid, min_held, done: (done + 1) as NumericType }
            } else {
                freeing
            })
            &&& tasks::cleanup_next(slots, freeing, Event::Changed(actual)) == freeing
            &&& tasks::cleanup_next(slots, freeing, Event::Exchanged) matches CleanupTask::Ended(
                Ok(r),
            ) && r.old_last_valid == last_valid && r.new_last_valid == min_held && r.slots_cleaned
                == n
            &&& tasks::cleanup_next(
                slots,
                CleanupTask::Claiming { last_valid, min_held },
                Event::Changed(actual),
            ) == (if arithmetics::gen_dist(actual, min_held) < 0x4000_0000_0000_0000 {
                CleanupTask::Ended(Err(crate::area::CleanupError::NothingToClean))
            } else {
                CleanupTask::Claiming { last_valid: actual, min_held }
            })
        }),
{
}

/// A reader has resumed if and only if the exchange of its slot has succeeded; where a cleanup was
/// faster, it looks again.
pub proof fn law_a_reader_has_resumed_if_its_slot_was_exchanged(
    entry: Option<NumericType>,
    current: NumericType,
    expected: NumericType,
    desired: NumericType,
    actual: NumericType,
)
    ensures
        tasks::resume_next(entry, ResumeTask::Resuming { expected, desired }, Event::Exchanged)
            == ResumeTask::Ended(Ok(true)),
        tasks::resume_next(entry, ResumeTask::Resuming { expected, desired }, Event::Changed(actual))
            == ResumeTask::Start,
        match tasks::resume_next(entry, ResumeTask::Start, Event::Loaded(current)) {
            ResumeTask::Resuming { expected, desired } => {
                &&& current >= 0x8000_0000_0000_0000
                &&& expected == current
                &&& desired < 0x8000_0000_0000_0000
                &&& entry matches Some(e) ==> arithmetics::gen_dist(desired, e) == 0
                &&& entry is None ==> arithmetics::gen_dist(desired, current) == 0
            },
            ResumeTask::Ended(Ok(was_away)) => !was_away && current < 0x8000_0000_0000_0000,
            ResumeTask::Ended(Err(err)) => {
                &&& err is GenerationTooOld
                &&& current >= 0x8000_0000_0000_0000
                &&& entry is Some
            },
            ResumeTask::Start => false,
        },
{
    if entry is Some {
        crate::effects::law_the_flag_is_apart_from_the_generation(entry->0);
    }
    crate::effects::law_the_flag_is_apart_from_the_generation(current);
}

/// What there is to read goes from where the reader is to where what is published ends. Where there
/// is nothing, the reader looks for writers; it gets an empty slice while there are any, and looks
/// once more when there are none.
pub proof fn law_reading_goes_up_to_what_is_published(
    slot: NumericType,
    start: NumericType,
    end: NumericType,
    writers: NumericType,
)
    requires
        end != start ==> 0 < arithmetics::gen_dist(end, start) <= usize::MAX,
    ensures
        tasks::read_next(ReadTask::Start, Event::Loaded(slot)) matches ReadTask::At { start: at }
            && at < 0x8000_0000_0000_0000 && arithmetics::gen_dist(at, slot) == 0,
        tasks::read_next(ReadTask::Again, Event::Loaded(slot)) matches ReadTask::AgainAt {
            start: at,
        } && at < 0x8000_0000_0000_0000 && arithmetics::gen_dist(at, slot) == 0,
        tasks::read_next(ReadTask::At { start }, Event::Loaded(end)) == (if end != start {
            ReadTask::Ended(Ok(Readable { start, end, armed: true }))
        } else {
            ReadTask::LookingForWriters { start }
        }),
        tasks::read_next(ReadTask::AgainAt { start }, Event::Loaded(end)) == (if end != start {
            ReadTask::Ended(Ok(Readable { start, end, armed: true }))
        } else {
            ReadTask::Ended(Err(ReadError))
        }),
        tasks::read_next(ReadTask::LookingForWriters { start }, Event::Loaded(writers)) == (if writers
            > 0 {
            ReadTask::Ended(Ok(Readable { start, end: start, armed: false }))
        } else {
            ReadTask::Again
        }),
{
    crate::effects::law_the_flag_is_apart_from_the_generation(slot);
}

/// A search that comes to a slot claims it if it may and the slot is free, ends there if it finds
/// its key, and otherwise goes on to the slot after it, until it has looked at as many as it may.
pub proof fn law_a_search_goes_from_slot_to_slot(search: Search, i: usize, index: usize, k: u64)
    requires
        search.wf(),
        i < search.limit,
        index == (search.key as usize + search.placement_offset + i) % search.capacity as int,
    ensures
        ({
            let at = tasks::search_next(search, SearchTask::At { i, index }, Event::Loaded(k));
            let found = SearchTask::Ended(
                Some(SearchResult { is_new: false, delta: i, key: k, index }),
            );
            let holds = k == search.key || k == search.key + 0x8000_0000_0000_0000;
            if search.insert && k == 0 {
                at matches SearchTask::Claiming { i: steps, index: there, .. } && steps == i && there
                    == index
            } else if !search.fold && holds {
                at == found
            } else if i + 1 < search.limit {
                at matches SearchTask::At { i: steps, index: there } && steps == i + 1 && there == (
                index + 1) % search.capacity as int
            } else {
                at == SearchTask::Ended(None)
            }
        }),
{
    let capacity = search.capacity as nat;
    crate::bits::lemma_power_divides(search.capacity);
    let here = search.key as usize as int + search.placement_offset;
    vstd::arithmetic::div_mod::lemma_add_mod_noop_right(i as int, here, capacity as int);
    assert(index == crate::map::probe_index(
        search.key,
        search.placement_offset,
        i as int,
        capacity,
    ));
    crate::map::lemma_probe_advances(search.key, search.placement_offset, i as int, capacity);
    crate::map::lemma_probe_in_range(search.key, search.placement_offset, i + 1, capacity);
}

/// A search has claimed a slot if and only if the exchange of its key has succeeded. Where somebody
/// else was faster, it ends there only if that one has put its own key there.
pub proof fn law_a_search_has_claimed_what_it_exchanged(
    search: Search,
    i: usize,
    index: usize,
    key: u64,
    actual: u64,
)
    requires
        search.wf(),
        search.key > 0,
    ensures
        tasks::search_next(search, SearchTask::Claiming { i, index, key }, Event::Exchanged)
            == SearchTask::Ended(Some(SearchResult { is_new: true, delta: i, key, index })),
        ({
            let lost = tasks::search_next(
                search,
                SearchTask::Claiming { i, index, key },
                Event::Changed(actual),
            );
            let holds = actual == search.key || actual == search.key + 0x8000_0000_0000_0000;
            if !search.fold && holds {
                lost == SearchTask::Ended(
                    Some(SearchResult { is_new: false, delta: i, key: actual, index }),
                )
            } else {
                lost == tasks::search_at(search, i + 1)
            }
        }),
{
}

/// Of the writers only the one who was the last of them goes on to take a stage; of those who take
/// a stage, only the one who takes the last of them was the last one there of all.
pub proof fn law_the_last_one_takes_the_last_stage(slots: usize, number: NumericType)
    ensures
        tasks::leave_next(slots, LeaveTask::LeavingWriters, Event::Loaded(number)) == (if number
            == 1 {
            LeaveTask::Staging
        } else {
            LeaveTask::Ended { last: false }
        }),
        tasks::leave_next(slots, LeaveTask::Competing, Event::Loaded(number)) == (if number == 1 {
            LeaveTask::Staging
        } else {
            LeaveTask::Ended { last: false }
        }),
        tasks::leave_next(slots, LeaveTask::Staging, Event::Loaded(number)) == (LeaveTask::Ended {
            last: number == 1,
        }),
{
}

/// A reader that leaves gives up its slot, looks at all slots, and competes for the stage only if it
/// has found nobody at any of them; and only when nobody who is about to leave has yet to do so.
pub proof fn law_a_reader_competes_if_it_finds_nobody(
    slots: usize,
    index: usize,
    key: NumericType,
    tickets: NumericType,
)
    requires
        index < slots,
    ensures
        tasks::leave_next(slots, LeaveTask::Entering, Event::Done) == LeaveTask::Unregistering,
        tasks::leave_next(slots, LeaveTask::Unregistering, Event::Done)
            == (LeaveTask::LookingAround { index: 0 }),
        tasks::leave_next(slots, LeaveTask::LookingAround { index }, Event::Loaded(key)) == (if key
            != 0 {
            LeaveTask::Releasing { competing: false }
        } else if index + 1 < slots {
            LeaveTask::LookingAround { index: (index + 1) as usize }
        } else {
            LeaveTask::Applying
        }),
        tasks::leave_next(slots, LeaveTask::Applying, Event::Done) == (LeaveTask::Releasing {
            competing: true,
        }),
        tasks::leave_next(slots, LeaveTask::Releasing { competing: true }, Event::Done)
            == LeaveTask::Waiting,
        tasks::leave_next(slots, LeaveTask::Releasing { competing: false }, Event::Done)
            == (LeaveTask::Ended { last: false }),
        tasks::leave_next(slots, LeaveTask::Waiting, Event::Loaded(tickets)) == (if tickets == 0 {
            LeaveTask::Competing
        } else {
            LeaveTask::Waiting
        }),
{
}

} // verus!
