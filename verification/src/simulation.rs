//! Carrying out the tasks of an area is taking the steps of the protocol.
//!
//! The tasks of [`crate::tasks`] act on numbers as they are stored. Whatever they do to them, a
//! participant of [`crate::protocol`] could have done in one step; so what holds there whoever does
//! what when holds of the tasks as well.
use crate::area;
use crate::arithmetics::{self, NumericType};
use crate::bits;
use crate::protocol::{self, ReaderSlot, Square, Step, Task};
use crate::steps;
use crate::tasks::{
    self, CleanupTask, Event, Request, ReserveTask, ResumeTask, Search, SearchTask,
};
use vstd::prelude::*;

verus! {

/// The shared numbers as they are stored, and the ring buffer.
#[verifier::ext_equal]
pub struct Stored<T> {
    pub write: NumericType,
    pub read: NumericType,
    pub last_valid: NumericType,
    pub free: NumericType,
    pub slots: Seq<NumericType>,
    pub buffer: Seq<Option<T>>,
}

/// What is stored of an area.
pub open spec fn stored<T>(s: Square<T>) -> Stored<T> {
    Stored {
        write: arithmetics::gen_of(s.write),
        read: arithmetics::gen_of(s.read),
        last_valid: arithmetics::gen_of(s.last_valid),
        free: arithmetics::gen_of(s.free),
        slots: Seq::new(s.slots.len(), |i: int| s.slots[i].stored()),
        buffer: s.buffer,
    }
}

/// One participant takes one step, or none.
pub open spec fn takes_a_step<T>(s: Square<T>, w: Square<T>) -> bool {
    w == s || exists|step: Step<T>| #[trigger] s.after(step) == Some(w)
}

/// What comes of doing what a cleanup asks for.
pub open spec fn cleanup_event<T>(m: Stored<T>, task: CleanupTask) -> Event {
    match task {
        CleanupTask::Start => Event::Loaded(m.last_valid),
        CleanupTask::SawLast { .. } => Event::Loaded(m.read),
        CleanupTask::AtSlot { index, .. } => Event::Loaded(m.slots[index as int]),
        CleanupTask::Forcing { index, seen, .. } => tasks::exchange_event(m.slots[index as int], seen),
        CleanupTask::Claiming { last_valid, .. } => tasks::exchange_event(m.last_valid, last_valid),
        CleanupTask::Dropping { .. } => Event::Done,
        CleanupTask::Freeing { last_valid, .. } => tasks::exchange_event(m.free, last_valid),
        CleanupTask::Ended(_) => Event::Done,
    }
}

/// What doing it makes of what is stored.
pub open spec fn cleanup_effect<T>(m: Stored<T>, task: CleanupTask) -> Stored<T> {
    match task {
        CleanupTask::Forcing { index, seen, min_held, .. } => if m.slots[index as int] == seen {
            Stored {
                slots: m.slots.update(index as int, area::suspended_at(min_held)),
                ..m
            }
        } else {
            m
        },
        CleanupTask::Claiming { last_valid, min_held } => if m.last_valid == last_valid {
            Stored { last_valid: min_held, ..m }
        } else {
            m
        },
        CleanupTask::Dropping { last_valid, done, .. } => Stored {
            buffer: m.buffer.update(
                steps::slot_index(
                    arithmetics::gen_add(last_valid, done as int),
                    m.buffer.len(),
                ),
                None,
            ),
            ..m
        },
        CleanupTask::Freeing { last_valid, min_held } => if m.free == last_valid {
            Stored { free: min_held, ..m }
        } else {
            m
        },
        _ => m,
    }
}

/// What a participant of the protocol is at when a cleanup is at this stage.
pub open spec fn is_at_cleanup<T>(s: Square<T>, t: int, task: CleanupTask) -> bool {
    match (task, s.tasks[t]) {
        (CleanupTask::Start, Task::Idle) => true,
        (CleanupTask::SawLast { last_valid }, Task::SawLast { seen }) => last_valid
            == arithmetics::gen_of(seen),
        (
            CleanupTask::AtSlot { last_valid, min_held, index },
            Task::Scanning { seen, held, next },
        ) => {
            &&& last_valid == arithmetics::gen_of(seen)
            &&& min_held == arithmetics::gen_of(held)
            &&& index == next
            &&& next < s.slots.len()
        },
        (
            CleanupTask::Forcing { last_valid, min_held, index, seen: value },
            Task::Scanning { seen, held, next },
        ) => {
            &&& last_valid == arithmetics::gen_of(seen)
            &&& min_held == arithmetics::gen_of(held)
            &&& index == next
            &&& next < s.slots.len()
            &&& steps::sweep_plan(min_held, value) is Force
        },
        (
            CleanupTask::Claiming { last_valid, min_held },
            Task::Scanning { seen, held, next },
        ) => {
            &&& last_valid == arithmetics::gen_of(seen)
            &&& min_held == arithmetics::gen_of(held)
            &&& next == s.slots.len()
            &&& !arithmetics::gen_gte(last_valid, min_held)
        },
        (
            CleanupTask::Dropping { last_valid, min_held, done },
            Task::Dropping { from, to, at },
        ) => {
            &&& last_valid == arithmetics::gen_of(from)
            &&& min_held == arithmetics::gen_of(to)
            &&& at == from + done
            &&& at < to
        },
        (CleanupTask::Freeing { last_valid, min_held }, Task::Dropping { from, to, at }) => {
            &&& last_valid == arithmetics::gen_of(from)
            &&& min_held == arithmetics::gen_of(to)
            &&& at == to
        },
        (CleanupTask::Ended(_), Task::Idle) => true,
        (CleanupTask::Ended(Err(_)), Task::Scanning { seen, held, next }) => {
            &&& next == s.slots.len()
            &&& arithmetics::gen_gte(arithmetics::gen_of(seen), arithmetics::gen_of(held))
        },
        _ => false,
    }
}

/// The counters have not moved on by more than a quarter of the word since the participant took
/// down what it has taken down.
pub open spec fn is_recent<T>(s: Square<T>, t: int) -> bool {
    match s.tasks[t] {
        Task::SawFree { free } => s.is_recent(free),
        Task::Planned { start, .. } => s.is_recent(start),
        Task::SawLast { seen } => s.is_recent(seen),
        Task::Scanning { seen, held, .. } => s.is_recent(seen) && s.is_recent(held),
        _ => true,
    }
}

/// The value of a slot is set.
proof fn lemma_stored_slot<T>(s: Square<T>, slot: int, now: ReaderSlot)
    requires
        s.is_slot(slot),
    ensures
        stored(s.with_slot(slot, now)) == (Stored {
            slots: stored(s).slots.update(slot, now.stored()),
            ..stored(s)
        }),
{
    assert(stored(s.with_slot(slot, now)).slots =~= stored(s).slots.update(slot, now.stored()));
}

/// What a participant does by itself is not stored.
proof fn lemma_stored_task<T>(s: Square<T>, t: int, now: Task)
    ensures
        stored(s.with_task(t, now)) == stored(s),
{
    assert(stored(s.with_task(t, now)).slots =~= stored(s).slots);
}

/// A cleanup that looks at a reader slot, or has failed to move it.
proof fn lemma_visit<T>(s: Square<T>, t: int, task: CleanupTask, slots: usize) -> (w: Square<T>)
    requires
        s.inv(),
        s.is_task(t),
        s.slots.len() == slots,
        is_recent(s, t),
        is_at_cleanup(s, t, task),
        task is AtSlot || task is Forcing,
        task matches CleanupTask::Forcing { index, seen, .. } ==> s.slots[index as int].stored()
            != seen,
    ensures
        takes_a_step(s, w),
        stored(w) == stored(s),
        is_at_cleanup(w, t, tasks::cleanup_next(slots, task, cleanup_event(stored(s), task))),
{
    match s.tasks[t] {
        Task::Scanning { seen, held, next } => {
            let slot = s.slots[next];
            assert(s.slot_in_order(slot));
            protocol::lemma_stored(slot);
            match steps::sweep_plan(arithmetics::gen_of(held), slot.stored()) {
                steps::Sweep::Force(_) => s,
                steps::Sweep::Keep(g) => {
                    let now = if g == arithmetics::gen_of(held) {
                        held
                    } else {
                        slot.at
                    };
                    assert(g == arithmetics::gen_of(now));
                    let w = s.with_task(t, Task::Scanning { seen, held: now, next: next + 1 });
                    lemma_stored_task(s, t, Task::Scanning { seen, held: now, next: next + 1 });
                    assert(s.after(Step::Sweep { task: t }) == Some(w));
                    w
                },
            }
        },
        _ => s,
    }
}

/// A cleanup looks at the last valid generation.
proof fn lemma_start<T>(s: Square<T>, t: int, task: CleanupTask, slots: usize) -> (w: Square<T>)
    requires
        s.inv(),
        s.is_task(t),
        s.slots.len() == slots,
        is_recent(s, t),
        is_at_cleanup(s, t, task),
        task is Start,
    ensures
        takes_a_step(s, w),
        stored(w) == cleanup_effect(stored(s), task),
        is_at_cleanup(w, t, tasks::cleanup_next(slots, task, cleanup_event(stored(s), task))),
{
    assert(s.task_in_order(s.tasks[t]));
    let now = Task::SawLast { seen: s.last_valid };
    lemma_stored_task(s, t, now);
    assert(s.after(Step::LoadLast { task: t }) == Some(s.with_task(t, now)));
    s.with_task(t, now)
}

/// A cleanup looks at the read generation.
proof fn lemma_saw_last<T>(s: Square<T>, t: int, task: CleanupTask, slots: usize) -> (w: Square<T>)
    requires
        s.inv(),
        s.is_task(t),
        s.slots.len() == slots,
        is_recent(s, t),
        is_at_cleanup(s, t, task),
        task is SawLast,
    ensures
        takes_a_step(s, w),
        stored(w) == cleanup_effect(stored(s), task),
        is_at_cleanup(w, t, tasks::cleanup_next(slots, task, cleanup_event(stored(s), task))),
{
    assert(s.task_in_order(s.tasks[t]));
    match s.tasks[t] {
        Task::SawLast { seen } => {
            let now = if arithmetics::gen_gte(
                arithmetics::gen_of(seen),
                arithmetics::gen_of(s.read),
            ) {
                Task::Idle
            } else {
                Task::Scanning { seen, held: s.read, next: 0 }
            };
            lemma_stored_task(s, t, now);
            assert(s.after(Step::LoadRead { task: t }) == Some(s.with_task(t, now)));
            s.with_task(t, now)
        },
        _ => s,
    }
}

/// A cleanup moves a reader slot forward.
proof fn lemma_forcing<T>(s: Square<T>, t: int, task: CleanupTask, slots: usize) -> (w: Square<T>)
    requires
        s.inv(),
        s.is_task(t),
        s.slots.len() == slots,
        is_recent(s, t),
        is_at_cleanup(s, t, task),
        task is Forcing,
        task matches CleanupTask::Forcing { index, seen, .. } && s.slots[index as int].stored()
            == seen,
    ensures
        takes_a_step(s, w),
        stored(w) == cleanup_effect(stored(s), task),
        is_at_cleanup(w, t, tasks::cleanup_next(slots, task, cleanup_event(stored(s), task))),
{
    assert(s.task_in_order(s.tasks[t]));
    match s.tasks[t] {
        Task::Scanning { seen, held, next } => {
            let slot = s.slots[next];
            let now = ReaderSlot { at: held, ..slot };
            let scanned = Task::Scanning { seen, held, next: next + 1 };
            let moved = s.with_slot(next, now);
            protocol::lemma_stored(slot);
            lemma_stored_slot(s, next, now);
            lemma_stored_task(moved, t, scanned);
            assert(now.stored() == area::suspended_at(arithmetics::gen_of(held)));
            assert(s.after(Step::Sweep { task: t }) == Some(moved.with_task(t, scanned)));
            moved.with_task(t, scanned)
        },
        _ => s,
    }
}

/// A cleanup claims messages, or sees that others have.
proof fn lemma_claiming<T>(s: Square<T>, t: int, task: CleanupTask, slots: usize) -> (w: Square<T>)
    requires
        s.inv(),
        s.is_task(t),
        s.slots.len() == slots,
        is_recent(s, t),
        is_at_cleanup(s, t, task),
        task is Claiming,
    ensures
        takes_a_step(s, w),
        stored(w) == cleanup_effect(stored(s), task),
        is_at_cleanup(w, t, tasks::cleanup_next(slots, task, cleanup_event(stored(s), task))),
{
    assert(s.task_in_order(s.tasks[t]));
    match s.tasks[t] {
        Task::Scanning { seen, held, next } => {
            arithmetics::law_gte_is_the_order_of_counters(seen, held);
            if arithmetics::gen_of(s.last_valid) == arithmetics::gen_of(seen) {
                let claimed = Square { last_valid: held, ..s };
                let now = Task::Dropping { from: seen, to: held, at: seen };
                lemma_stored_task(claimed, t, now);
                arithmetics::law_distance_is_the_difference_of_counters(held, seen);
                assert(stored(claimed).slots =~= stored(s).slots);
                assert(s.after(Step::Claim { task: t }) == Some(claimed.with_task(t, now)));
                claimed.with_task(t, now)
            } else {
                let now = Task::Scanning { seen: s.last_valid, held, next };
                lemma_stored_task(s, t, now);
                assert(s.after(Step::Claim { task: t }) == Some(s.with_task(t, now)));
                s.with_task(t, now)
            }
        },
        _ => s,
    }
}

/// A cleanup drops a message.
proof fn lemma_dropping<T>(s: Square<T>, t: int, task: CleanupTask, slots: usize) -> (w: Square<T>)
    requires
        s.inv(),
        s.is_task(t),
        s.slots.len() == slots,
        is_recent(s, t),
        is_at_cleanup(s, t, task),
        task is Dropping,
    ensures
        takes_a_step(s, w),
        stored(w) == cleanup_effect(stored(s), task),
        is_at_cleanup(w, t, tasks::cleanup_next(slots, task, cleanup_event(stored(s), task))),
{
    assert(s.task_in_order(s.tasks[t]));
    match (task, s.tasks[t]) {
        (CleanupTask::Dropping { done, .. }, Task::Dropping { from, to, at }) => {
            let now = Task::Dropping { from, to, at: at + 1 };
            let dropped = s.with_message(at, None);
            lemma_stored_task(dropped, t, now);
            arithmetics::law_distance_is_the_difference_of_counters(to, from);
            arithmetics::law_distance_is_the_difference_of_counters(at, from);
            assert(stored(dropped).slots =~= stored(s).slots);
            assert(s.after(Step::Drop { task: t }) == Some(dropped.with_task(t, now)));
            dropped.with_task(t, now)
        },
        _ => s,
    }
}

/// A cleanup frees slots, or waits for its turn.
proof fn lemma_freeing<T>(s: Square<T>, t: int, task: CleanupTask, slots: usize) -> (w: Square<T>)
    requires
        s.inv(),
        s.is_task(t),
        s.slots.len() == slots,
        is_recent(s, t),
        is_at_cleanup(s, t, task),
        task is Freeing,
    ensures
        takes_a_step(s, w),
        stored(w) == cleanup_effect(stored(s), task),
        is_at_cleanup(w, t, tasks::cleanup_next(slots, task, cleanup_event(stored(s), task))),
{
    assert(s.task_in_order(s.tasks[t]));
    match s.tasks[t] {
        Task::Dropping { from, to, at } => {
            if arithmetics::gen_of(s.free) == arithmetics::gen_of(from) {
                let freed = Square { free: to, ..s };
                lemma_stored_task(freed, t, Task::Idle);
                assert(stored(freed).slots =~= stored(s).slots);
                assert(s.after(Step::Free { task: t }) == Some(freed.with_task(t, Task::Idle)));
                freed.with_task(t, Task::Idle)
            } else {
                s
            }
        },
        _ => s,
    }
}

/// Whatever stage a cleanup is at, and whatever the others have done since, doing what it asks for
/// is a step of the protocol, or changes nothing.
pub proof fn law_cleanup_takes_steps<T>(s: Square<T>, t: int, task: CleanupTask, slots: usize) -> (w:
    Square<T>)
    requires
        s.inv(),
        s.is_task(t),
        s.slots.len() == slots,
        is_recent(s, t),
        is_at_cleanup(s, t, task),
        task !is Ended,
    ensures
        takes_a_step(s, w),
        stored(w) == cleanup_effect(stored(s), task),
        is_at_cleanup(w, t, tasks::cleanup_next(slots, task, cleanup_event(stored(s), task))),
{
    match task {
        CleanupTask::Start => lemma_start(s, t, task, slots),
        CleanupTask::SawLast { .. } => lemma_saw_last(s, t, task, slots),
        CleanupTask::AtSlot { .. } => lemma_visit(s, t, task, slots),
        CleanupTask::Forcing { index, seen, .. } => if s.slots[index as int].stored() == seen {
            lemma_forcing(s, t, task, slots)
        } else {
            lemma_visit(s, t, task, slots)
        },
        CleanupTask::Claiming { .. } => lemma_claiming(s, t, task, slots),
        CleanupTask::Dropping { .. } => lemma_dropping(s, t, task, slots),
        CleanupTask::Freeing { .. } => lemma_freeing(s, t, task, slots),
        CleanupTask::Ended(_) => s,
    }
}

/// What comes of doing what a reservation asks for.
pub open spec fn reserve_event<T>(m: Stored<T>, task: ReserveTask) -> Event {
    match task {
        ReserveTask::Start => Event::Loaded(m.free),
        ReserveTask::SawFree { .. } => Event::Loaded(m.write),
        ReserveTask::Planned { start, .. } => tasks::exchange_event(m.write, start),
        ReserveTask::Ended(_) => Event::Done,
    }
}

/// What doing it makes of what is stored.
pub open spec fn reserve_effect<T>(m: Stored<T>, task: ReserveTask) -> Stored<T> {
    match task {
        ReserveTask::Planned { start, end, .. } => if m.write == start {
            Stored { write: end, ..m }
        } else {
            m
        },
        _ => m,
    }
}

/// What a participant of the protocol is at when a reservation is at this stage.
pub open spec fn is_at_reserve<T>(s: Square<T>, t: int, task: ReserveTask) -> bool {
    match (task, s.tasks[t]) {
        (ReserveTask::Start, Task::Idle) => true,
        (ReserveTask::SawFree { free }, Task::SawFree { free: seen }) => free
            == arithmetics::gen_of(seen),
        (
            ReserveTask::Planned { start, end, .. },
            Task::Planned { start: planned_start, end: planned_end },
        ) => start == arithmetics::gen_of(planned_start) && end == arithmetics::gen_of(
            planned_end,
        ),
        (
            ReserveTask::Ended(Ok((start, end, _))),
            Task::Holding { start: held_start, end: held_end },
        ) => start == arithmetics::gen_of(held_start) && end == arithmetics::gen_of(held_end),
        (ReserveTask::Ended(Ok((start, end, count))), Task::Idle) => start == 0 && end == 0 && count
            == 0,
        (ReserveTask::Ended(Err(_)), Task::Idle) => true,
        _ => false,
    }
}

/// A reservation looks at the write generation.
proof fn lemma_saw_free<T>(s: Square<T>, t: int, task: ReserveTask, request: Request) -> (w: Square<
    T,
>)
    requires
        s.inv(),
        s.is_task(t),
        s.capacity == request.capacity,
        request.best_effort || request.n > 0,
        is_recent(s, t),
        is_at_reserve(s, t, task),
        task is SawFree,
    ensures
        takes_a_step(s, w),
        stored(w) == stored(s),
        is_at_reserve(w, t, tasks::reserve_next(request, task, reserve_event(stored(s), task))),
{
    match s.tasks[t] {
        Task::SawFree { free } => {
            let write = arithmetics::gen_of(s.write);
            let actual = steps::best_effort(
                s.capacity,
                request.n as int,
                arithmetics::gen_of(free),
                write,
            );
            let n = if !request.best_effort {
                request.n as int
            } else if actual > 0 {
                actual
            } else {
                // There is no room for so many, so none are taken.
                s.capacity as int + 1
            };
            let plan = steps::reserve_plan(s.capacity, n, arithmetics::gen_of(free), write);
            let now = if plan is Ok {
                Task::Planned { start: s.write, end: s.write + n }
            } else {
                Task::Idle
            };
            if plan is Ok {
                arithmetics::law_distance_is_the_difference_of_counters(s.write + n, s.write);
            }
            lemma_stored_task(s, t, now);
            assert(s.after(Step::LoadWrite { task: t, n }) == Some(s.with_task(t, now)));
            s.with_task(t, now)
        },
        _ => s,
    }
}

/// Whatever stage a reservation is at, and whatever the others have done since, doing what it asks
/// for is a step of the protocol. When it has ended with a range, the participant has the slots of
/// that range.
pub proof fn law_reservation_takes_steps<T>(
    s: Square<T>,
    t: int,
    task: ReserveTask,
    request: Request,
) -> (w: Square<T>)
    requires
        s.inv(),
        s.is_task(t),
        s.capacity == request.capacity,
        request.best_effort || request.n > 0,
        is_recent(s, t),
        is_at_reserve(s, t, task),
        task !is Ended,
        s.tasks[t] matches Task::Planned { end, .. } ==> (Square { write: end, ..s }).no_jump(),
    ensures
        takes_a_step(s, w),
        stored(w) == reserve_effect(stored(s), task),
        is_at_reserve(w, t, tasks::reserve_next(request, task, reserve_event(stored(s), task))),
{
    match (task, s.tasks[t]) {
        (ReserveTask::Start, Task::Idle) => {
            let now = Task::SawFree { free: s.free };
            lemma_stored_task(s, t, now);
            assert(s.after(Step::LoadFree { task: t }) == Some(s.with_task(t, now)));
            s.with_task(t, now)
        },
        (ReserveTask::SawFree { .. }, _) => lemma_saw_free(s, t, task, request),
        (ReserveTask::Planned { .. }, Task::Planned { start, end }) => {
            if arithmetics::gen_of(s.write) == arithmetics::gen_of(start) {
                let taken = Square { write: end, ..s };
                let now = Task::Holding { start, end };
                lemma_stored_task(taken, t, now);
                assert(stored(taken).slots =~= stored(s).slots);
                assert(s.after(Step::CommitReserve { task: t }) == Some(taken.with_task(t, now)));
                taken.with_task(t, now)
            } else {
                lemma_stored_task(s, t, Task::Idle);
                assert(s.after(Step::CommitReserve { task: t }) == Some(
                    s.with_task(t, Task::Idle),
                ));
                s.with_task(t, Task::Idle)
            }
        },
        _ => s,
    }
}

/// Publishing slots that hold messages is a step of the protocol: it exchanges the read generation,
/// from the start of the range to its end, or changes nothing.
pub proof fn law_publishing_takes_a_step<T>(s: Square<T>, t: int) -> (w: Square<T>)
    requires
        s.inv(),
        s.is_task(t),
        s.tasks[t] matches Task::Holding { start, end } && forall|g: int|
            start <= g < end ==> #[trigger] s.message(g) is Some,
    ensures
        takes_a_step(s, w),
        s.tasks[t] matches Task::Holding { start, end } ==> stored(w) == (if stored(s).read
            == arithmetics::gen_of(start) {
            Stored { read: arithmetics::gen_of(end), ..stored(s) }
        } else {
            stored(s)
        }),
{
    let w = s.after(Step::Publish { task: t })->0;
    assert(stored(w).slots =~= stored(s).slots);
    w
}

/// What a participant of the protocol is at when resuming is at this stage.
pub open spec fn is_at_resume(entry_generation: Option<NumericType>, task: ResumeTask) -> bool {
    match task {
        ResumeTask::Resuming { expected, desired } => match entry_generation {
            Some(entry) => steps::resume_at_plan(expected, entry) == Ok::<_, area::ResumeError>(
                Some(desired),
            ),
            None => steps::resume_plan(expected) == Some(desired),
        },
        _ => true,
    }
}

/// The stages of resuming follow from each other.
pub proof fn law_resuming_is_decided(
    entry_generation: Option<NumericType>,
    task: ResumeTask,
    event: Event,
)
    requires
        is_at_resume(entry_generation, task),
    ensures
        is_at_resume(entry_generation, tasks::resume_next(entry_generation, task, event)),
{
}

/// The exchange by which a reader resumes is a step of the protocol, whatever a cleanup has done to
/// the slot since the reader looked at it. The entry generation must be published.
pub proof fn law_resuming_takes_a_step<T>(
    s: Square<T>,
    slot: int,
    entry: Option<int>,
    expected: NumericType,
    desired: NumericType,
) -> (w: Square<T>)
    requires
        s.inv(),
        s.is_free_to_move(slot),
        entry matches Some(e) ==> e <= s.read && s.is_recent(e),
        is_at_resume(
            (match entry {
                Some(e) => Some(arithmetics::gen_of(e)),
                None => None,
            }),
            ResumeTask::Resuming { expected, desired },
        ),
    ensures
        takes_a_step(s, w),
        stored(w) == (if stored(s).slots[slot] == expected {
            Stored { slots: stored(s).slots.update(slot, desired), ..stored(s) }
        } else {
            stored(s)
        }),
{
    assert(stored(s).slots[slot] == s.slots[slot].stored());
    if s.slots[slot].stored() != expected {
        s
    } else {
        match entry {
            Some(e) => lemma_resuming_at_takes_a_step(s, slot, e, desired),
            None => lemma_resuming_here_takes_a_step(s, slot, desired),
        }
    }
}

/// Resuming at a generation that was decided on is a step of the protocol.
proof fn lemma_resuming_at_takes_a_step<T>(
    s: Square<T>,
    slot: int,
    entry: int,
    desired: NumericType,
) -> (w: Square<T>)
    requires
        s.is_free_to_move(slot),
        entry <= s.read,
        s.is_recent(entry),
        steps::resume_at_plan(s.slots[slot].stored(), arithmetics::gen_of(entry)) == Ok::<
            _,
            area::ResumeError,
        >(Some(desired)),
    ensures
        takes_a_step(s, w),
        stored(w) == (Stored { slots: stored(s).slots.update(slot, desired), ..stored(s) }),
{
    let resumed = ReaderSlot { at: entry, suspended: false, ..s.slots[slot] };
    let w = s.with_slot(slot, resumed);
    assert(s.after(Step::ResumeAt { slot, generation: entry }) == Some(w));
    assert(resumed.stored() == desired) by {
        protocol::lemma_stored(resumed);
    }
    lemma_stored_slot(s, slot, resumed);
    w
}

/// Resuming where the reader stands is a step of the protocol, if that was decided on.
proof fn lemma_resuming_here_takes_a_step<T>(
    s: Square<T>,
    slot: int,
    desired: NumericType,
) -> (w: Square<T>)
    requires
        s.is_free_to_move(slot),
        steps::resume_plan(s.slots[slot].stored()) == Some(desired),
    ensures
        takes_a_step(s, w),
        stored(w) == (Stored { slots: stored(s).slots.update(slot, desired), ..stored(s) }),
{
    let resumed = ReaderSlot { suspended: false, ..s.slots[slot] };
    let w = s.with_slot(slot, resumed);
    assert(s.after(Step::Resume { slot }) == Some(w));
    assert(resumed.stored() == desired) by {
        protocol::lemma_stored(s.slots[slot]);
    }
    lemma_stored_slot(s, slot, resumed);
    w
}

/// Suspending a reader is a step of the protocol: it stores what the slot holds with the suspended
/// bit.
pub proof fn law_suspending_takes_a_step<T>(s: Square<T>, slot: int) -> (w: Square<T>)
    requires
        s.inv(),
        s.is_free_to_move(slot),
        steps::suspend_plan(stored(s).slots[slot]) is Ok,
    ensures
        takes_a_step(s, w),
        steps::suspend_plan(stored(s).slots[slot]) matches Ok(g) ==> stored(w) == (Stored {
            slots: stored(s).slots.update(slot, g),
            ..stored(s)
        }),
{
    let now = s.slots[slot];
    let suspended = ReaderSlot { suspended: true, ..now };
    protocol::lemma_stored(now);
    lemma_stored_slot(s, slot, suspended);
    assert(s.after(Step::Suspend { slot }) == Some(s.with_slot(slot, suspended)));
    s.with_slot(slot, suspended)
}

/// Advancing a reader to a generation that is published is a step of the protocol: it stores that
/// generation.
pub proof fn law_advancing_takes_a_step<T>(s: Square<T>, slot: int, generation: int) -> (w: Square<
    T,
>)
    requires
        s.inv(),
        s.is_free_to_move(slot),
        generation <= s.read,
        s.is_recent(generation),
        steps::set_gen_plan(stored(s).slots[slot], arithmetics::gen_of(generation)) is Ok,
    ensures
        takes_a_step(s, w),
        stored(w) == (Stored {
            slots: stored(s).slots.update(slot, arithmetics::gen_of(generation)),
            ..stored(s)
        }),
{
    let now = s.slots[slot];
    let advanced = ReaderSlot { at: generation, ..now };
    protocol::lemma_stored(now);
    lemma_stored_slot(s, slot, advanced);
    assert(s.after(Step::Advance { slot, generation }) == Some(s.with_slot(slot, advanced)));
    s.with_slot(slot, advanced)
}

/// Taking a reader slot is a step of the protocol that changes nothing of what is stored in it. The
/// reader finds the slot suspended, and can then resume like any other.
pub proof fn law_entering_takes_a_step<T>(s: Square<T>, slot: int) -> (w: Square<T>)
    requires
        s.inv(),
        s.is_slot(slot),
        !s.slots[slot].taken,
    ensures
        takes_a_step(s, w),
        stored(w) == stored(s),
        w.is_free_to_move(slot),
        area::suspended(stored(w).slots[slot]),
{
    let now = s.slots[slot];
    let entered = ReaderSlot { taken: true, ..now };
    assert(s.slot_in_order(now));
    protocol::lemma_stored(now);
    lemma_stored_slot(s, slot, entered);
    assert(stored(s).slots.update(slot, now.stored()) =~= stored(s).slots);
    assert(s.after(Step::Enter { slot }) == Some(s.with_slot(slot, entered)));
    s.with_slot(slot, entered)
}

/// Giving a reader slot back, once it is suspended, is a step of the protocol that changes nothing
/// of what is stored in it.
pub proof fn law_leaving_takes_a_step<T>(s: Square<T>, slot: int) -> (w: Square<T>)
    requires
        s.inv(),
        s.is_slot(slot),
        s.slots[slot].taken,
        area::suspended(stored(s).slots[slot]),
    ensures
        takes_a_step(s, w),
        stored(w) == stored(s),
        !w.slots[slot].taken,
{
    let now = s.slots[slot];
    let left = ReaderSlot { taken: false, ..now };
    protocol::lemma_stored(now);
    lemma_stored_slot(s, slot, left);
    assert(stored(s).slots.update(slot, now.stored()) =~= stored(s).slots);
    assert(s.after(Step::Leave { slot }) == Some(s.with_slot(slot, left)));
    s.with_slot(slot, left)
}

/// Beginning to read is a step of the protocol that changes nothing of what is stored. What is read
/// goes from what the slot holds up to the read generation.
pub proof fn law_beginning_to_read_takes_a_step<T>(s: Square<T>, slot: int) -> (w: Square<T>)
    requires
        s.inv(),
        s.is_free_to_move(slot),
        !area::suspended(stored(s).slots[slot]),
    ensures
        takes_a_step(s, w),
        stored(w) == stored(s),
        arithmetics::gen_of(w.slots[slot].at) == stored(s).slots[slot],
        w.slots[slot].reading matches Some(end) && arithmetics::gen_of(end) == stored(s).read,
{
    let now = s.slots[slot];
    let reading = ReaderSlot { reading: Some(s.read), ..now };
    protocol::lemma_stored(now);
    lemma_stored_slot(s, slot, reading);
    assert(stored(s).slots.update(slot, now.stored()) =~= stored(s).slots);
    assert(s.after(Step::BeginRead { slot }) == Some(s.with_slot(slot, reading)));
    s.with_slot(slot, reading)
}

/// Ending to read is a step of the protocol: it stores the generation up to which was read, unless
/// nothing was.
pub proof fn law_ending_to_read_takes_a_step<T>(s: Square<T>, slot: int) -> (w: Square<T>)
    requires
        s.inv(),
        s.is_slot(slot),
        s.slots[slot].reading is Some,
    ensures
        takes_a_step(s, w),
        s.slots[slot].reading matches Some(end) ==> stored(w) == (match steps::set_gen_plan(
            stored(s).slots[slot],
            arithmetics::gen_of(end),
        ) {
            Ok(g) => Stored { slots: stored(s).slots.update(slot, g), ..stored(s) },
            Err(_) => stored(s),
        }),
        w.is_free_to_move(slot),
{
    let now = s.slots[slot];
    let end = now.reading->0;
    assert(s.slot_in_order(now));
    protocol::lemma_stored(now);
    let at = if steps::set_gen_plan(now.stored(), arithmetics::gen_of(end)) is Ok {
        end
    } else {
        now.at
    };
    let ended = ReaderSlot { at, reading: None, ..now };
    lemma_stored_slot(s, slot, ended);
    assert(stored(s).slots.update(slot, now.stored()) =~= stored(s).slots);
    assert(s.after(Step::EndRead { slot }) == Some(s.with_slot(slot, ended)));
    s.with_slot(slot, ended)
}

/// Whoever claims a slot with a folded search, and whatever the others have claimed since, all
/// entries keep leading to their own slots, so that no two of them have the same key.
pub proof fn law_folded_claims_keep_keys_apart(keys: Seq<u64>, search: Search, task: SearchTask)
    requires
        crate::map::folded(keys),
        search.wf(),
        search.fold,
        search.capacity == keys.len(),
        search.capacity < crate::map::IN_PROGRESS,
        task.wf(search),
        task matches SearchTask::Claiming { i, key, .. } && key == crate::map::claimed_key(
            search.key,
            search.placement_offset,
            i as int,
            search.capacity as nat,
            true,
        ),
    ensures
        task matches SearchTask::Claiming { index, key, .. } ==> keys[index as int]
            == crate::map::EMPTY ==> {
            let now = keys.update(index as int, key);
            &&& crate::map::folded(now)
            &&& forall|i: int, j: int|
                0 <= i < now.len() && 0 <= j < now.len() && i != j && #[trigger] now[i]
                    != crate::map::EMPTY && #[trigger] now[j] != crate::map::EMPTY
                    ==> crate::map::logical_key(now[i]) != crate::map::logical_key(now[j])
        },
{
    match task {
        SearchTask::Claiming { i, index, key } => {
            let now = keys.update(index as int, key);
            bits::lemma_power_divides(search.capacity);
            crate::map::lemma_probe_in_range(
                search.key,
                search.placement_offset,
                i as int,
                keys.len(),
            );
            crate::map::law_folded_key_leads_to_its_slot(
                search.key,
                search.placement_offset,
                i as int,
                search.capacity,
            );
            assert forall|j: int|
                0 <= j < now.len() && #[trigger] now[j] != crate::map::EMPTY implies crate::map::leads_to(
                now[j],
                j,
                now.len(),
            ) by {
                if j != index {
                    assert(keys[j] == now[j]);
                }
            }
            assert forall|i: int, j: int|
                0 <= i < now.len() && 0 <= j < now.len() && i != j && #[trigger] now[i]
                    != crate::map::EMPTY && #[trigger] now[j] != crate::map::EMPTY implies crate::map::logical_key(
                now[i],
            ) != crate::map::logical_key(now[j]) by {
                assert(crate::map::leads_to(now[i], i, now.len()));
                assert(crate::map::leads_to(now[j], j, now.len()));
            }
        },
        _ => {},
    }
}

} // verus!
