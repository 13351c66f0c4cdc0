//! What happens when everybody acts at once.
//!
//! The operations of an area consist of small steps, each of which looks at or changes one shared
//! number, or one place of the ring buffer. Here, any number of participants take such steps in any
//! order. The decisions in between are those of [`crate::steps`], made on generations as they are
//! stored; next to them, this model keeps count with numbers that never start again, so that it can
//! say what is older and what is newer.
use crate::area;
use crate::arithmetics;
use crate::laws;
use crate::steps;
use vstd::prelude::*;

verus! {

/// A reader slot.
pub struct ReaderSlot {
    /// The generation that the slot is at
    pub at: int,
    /// The slot is marked as suspended
    pub suspended: bool,
    /// A reader has the slot
    pub taken: bool,
    /// The reader is reading everything from where the slot is at up to this generation
    pub reading: Option<int>,
}

/// How far a participant has come with what it does besides reading.
pub enum Task {
    /// It does nothing.
    Idle,
    /// It wants to reserve slots and has looked at the free generation.
    SawFree { free: int },
    /// It is about to take the slots from `start` up to `end`.
    Planned { start: int, end: int },
    /// It has the slots from `start` up to `end`, and writes to them.
    Holding { start: int, end: int },
    /// It wants to clean up and has looked at the last valid generation.
    SawLast { seen: int },
    /// It goes through the reader slots, is to look at slot `next`, and must keep everything from
    /// `held` on.
    Scanning { seen: int, held: int, next: int },
    /// It drops the messages from `from` up to `to`, and has come to `at`.
    Dropping { from: int, to: int, at: int },
}

/// An area in the middle of everything.
pub struct Square<T> {
    /// The number of messages that there is room for
    pub capacity: nat,
    pub write: int,
    pub read: int,
    pub last_valid: int,
    pub free: int,
    pub slots: Seq<ReaderSlot>,
    pub buffer: Seq<Option<T>>,
    pub tasks: Seq<Task>,
    /// Everything that was ever published, oldest first
    pub log: Seq<T>,
}

/// A step that is taken by the task or at the reader slot with the given number.
pub enum Step<T> {
    LoadFree { task: int },
    LoadWrite { task: int, n: int },
    CommitReserve { task: int },
    Write { task: int, generation: int, message: T },
    Split { task: int, other: int, generation: int },
    Publish { task: int },
    LoadLast { task: int },
    LoadRead { task: int },
    Sweep { task: int },
    Claim { task: int },
    Drop { task: int },
    Free { task: int },
    Enter { slot: int },
    Leave { slot: int },
    Suspend { slot: int },
    Resume { slot: int },
    ResumeAt { slot: int, generation: int },
    Advance { slot: int, generation: int },
    BeginRead { slot: int },
    EndRead { slot: int },
}

impl ReaderSlot {
    /// The value of the slot as it is stored.
    pub open spec fn stored(self) -> arithmetics::NumericType {
        if self.suspended {
            area::suspended_at(arithmetics::gen_of(self.at))
        } else {
            arithmetics::gen_of(self.at)
        }
    }
}

impl<T> Square<T> {
    /// A new area, in which nothing has happened yet.
    pub open spec fn is_new(self) -> bool {
        &&& 0 < self.capacity <= arithmetics::gen_horizon()
        &&& self.buffer == Seq::new(self.capacity, |i: int| None::<T>)
        &&& self.write == 0
        &&& self.read == 0
        &&& self.last_valid == 0
        &&& self.free == 0
        &&& self.log == Seq::<T>::empty()
        &&& forall|i: int|
            0 <= i < self.slots.len() ==> #[trigger] self.slots[i] == (ReaderSlot {
                at: 0,
                suspended: true,
                taken: false,
                reading: None,
            })
        &&& forall|t: int| 0 <= t < self.tasks.len() ==> #[trigger] self.tasks[t] is Idle
    }

    /// The ring buffer does not start again with a jump: the capacity divides the number of
    /// generations after which it starts again, as a power of two does, or it has not come so far.
    pub open spec fn no_jump(self) -> bool {
        steps::index_period() % self.capacity as int == 0 || self.write <= steps::index_period()
    }

    /// The place of a generation in the ring buffer.
    pub open spec fn place(self, generation: int) -> int {
        steps::slot_index(arithmetics::gen_of(generation), self.capacity)
    }

    /// The message of a generation.
    pub open spec fn message(self, generation: int) -> Option<T> {
        self.buffer[self.place(generation)]
    }

    /// The counters have not moved on by more than a quarter of the word since somebody took down
    /// this number.
    pub open spec fn is_recent(self, generation: int) -> bool {
        self.write - generation <= arithmetics::gen_horizon()
    }

    pub open spec fn with_task(self, task: int, now: Task) -> Self {
        Square { tasks: self.tasks.update(task, now), ..self }
    }

    pub open spec fn with_slot(self, slot: int, now: ReaderSlot) -> Self {
        Square { slots: self.slots.update(slot, now), ..self }
    }

    pub open spec fn with_message(self, generation: int, message: Option<T>) -> Self {
        Square { buffer: self.buffer.update(self.place(generation), message), ..self }
    }

    /// The messages from one generation up to another, all of which must be there.
    pub open spec fn written(self, start: int, end: int) -> Seq<T> {
        Seq::new((end - start) as nat, |k: int| self.message(start + k)->0)
    }

    pub open spec fn is_task(self, task: int) -> bool {
        0 <= task < self.tasks.len()
    }

    pub open spec fn is_slot(self, slot: int) -> bool {
        0 <= slot < self.slots.len()
    }

    /// What a step makes of the area, if it can be taken.
    pub open spec fn after(self, step: Step<T>) -> Option<Self> {
        match step {
            Step::LoadFree { task } => self.after_load_free(task),
            Step::LoadWrite { task, n } => self.after_load_write(task, n),
            Step::CommitReserve { task } => self.after_commit_reserve(task),
            Step::Write { task, generation, message } => self.after_write(
                task,
                generation,
                message,
            ),
            Step::Split { task, other, generation } => self.after_split(task, other, generation),
            Step::Publish { task } => self.after_publish(task),
            Step::LoadLast { task } => self.after_load_last(task),
            Step::LoadRead { task } => self.after_load_read(task),
            Step::Sweep { task } => self.after_sweep(task),
            Step::Claim { task } => self.after_claim(task),
            Step::Drop { task } => self.after_drop(task),
            Step::Free { task } => self.after_free(task),
            Step::Enter { slot } => self.after_enter(slot),
            Step::Leave { slot } => self.after_leave(slot),
            Step::Suspend { slot } => self.after_suspend(slot),
            Step::Resume { slot } => self.after_resume(slot),
            Step::ResumeAt { slot, generation } => self.after_resume_at(slot, generation),
            Step::Advance { slot, generation } => self.after_advance(slot, generation),
            Step::BeginRead { slot } => self.after_begin_read(slot),
            Step::EndRead { slot } => self.after_end_read(slot),
        }
    }

    /// A writer looks at the free generation. It must do so before it looks at the write
    /// generation.
    pub open spec fn after_load_free(self, task: int) -> Option<Self> {
        if self.is_task(task) && self.tasks[task] is Idle {
            Some(self.with_task(task, Task::SawFree { free: self.free }))
        } else {
            None
        }
    }

    /// A writer looks at the write generation, and decides which `n` slots to try and take.
    pub open spec fn after_load_write(self, task: int, n: int) -> Option<Self> {
        if self.is_task(task) && 0 < n {
            match self.tasks[task] {
                Task::SawFree { free } => if self.is_recent(free) {
                    match steps::reserve_plan(
                        self.capacity,
                        n,
                        arithmetics::gen_of(free),
                        arithmetics::gen_of(self.write),
                    ) {
                        Ok(_) => Some(
                            self.with_task(
                                task,
                                Task::Planned { start: self.write, end: self.write + n },
                            ),
                        ),
                        Err(_) => Some(self.with_task(task, Task::Idle)),
                    }
                } else {
                    None
                },
                _ => None,
            }
        } else {
            None
        }
    }

    /// A writer takes the slots, if nobody else has taken any since.
    pub open spec fn after_commit_reserve(self, task: int) -> Option<Self> {
        if self.is_task(task) {
            match self.tasks[task] {
                Task::Planned { start, end } => if !self.is_recent(start) {
                    None
                } else if arithmetics::gen_of(self.write) == arithmetics::gen_of(start) {
                    let taken = Square { write: end, ..self };
                    if taken.no_jump() {
                        Some(taken.with_task(task, Task::Holding { start, end }))
                    } else {
                        None
                    }
                } else {
                    Some(self.with_task(task, Task::Idle))
                },
                _ => None,
            }
        } else {
            None
        }
    }

    /// A writer writes to one of its slots.
    pub open spec fn after_write(self, task: int, generation: int, message: T) -> Option<Self> {
        if self.is_task(task) {
            match self.tasks[task] {
                Task::Holding { start, end } => if start <= generation < end {
                    Some(self.with_message(generation, Some(message)))
                } else {
                    None
                },
                _ => None,
            }
        } else {
            None
        }
    }

    /// A writer hands a part of its slots to another one.
    pub open spec fn after_split(self, task: int, other: int, generation: int) -> Option<Self> {
        if self.is_task(task) && self.is_task(other) && task != other && self.tasks[other] is Idle {
            match self.tasks[task] {
                Task::Holding { start, end } => if start < generation < end {
                    Some(
                        self.with_task(task, Task::Holding { start, end: generation }).with_task(
                            other,
                            Task::Holding { start: generation, end },
                        ),
                    )
                } else {
                    None
                },
                _ => None,
            }
        } else {
            None
        }
    }

    /// A writer publishes its slots, to all of which it has written, if it is their turn.
    pub open spec fn after_publish(self, task: int) -> Option<Self> {
        if self.is_task(task) {
            match self.tasks[task] {
                Task::Holding { start, end } => if forall|g: int|
                    start <= g < end ==> #[trigger] self.message(g) is Some {
                    if arithmetics::gen_of(self.read) == arithmetics::gen_of(start) {
                        let published = Square {
                            read: end,
                            log: self.log + self.written(start, end),
                            ..self
                        };
                        Some(published.with_task(task, Task::Idle))
                    } else {
                        Some(self)
                    }
                } else {
                    None
                },
                _ => None,
            }
        } else {
            None
        }
    }

    /// A cleaner looks at the last valid generation.
    pub open spec fn after_load_last(self, task: int) -> Option<Self> {
        if self.is_task(task) && self.tasks[task] is Idle {
            Some(self.with_task(task, Task::SawLast { seen: self.last_valid }))
        } else {
            None
        }
    }

    /// A cleaner looks at the read generation, and decides whether there can be anything to clean.
    pub open spec fn after_load_read(self, task: int) -> Option<Self> {
        if self.is_task(task) {
            match self.tasks[task] {
                Task::SawLast { seen } => if !self.is_recent(seen) {
                    None
                } else if arithmetics::gen_gte(
                    arithmetics::gen_of(seen),
                    arithmetics::gen_of(self.read),
                ) {
                    Some(self.with_task(task, Task::Idle))
                } else {
                    Some(self.with_task(task, Task::Scanning { seen, held: self.read, next: 0 }))
                },
                _ => None,
            }
        } else {
            None
        }
    }

    /// A cleaner looks at a reader slot, and moves it forward or heeds it. The slot is moved only
    /// if it still has the value that was looked at.
    pub open spec fn after_sweep(self, task: int) -> Option<Self> {
        if self.is_task(task) {
            match self.tasks[task] {
                Task::Scanning { seen, held, next } => if self.is_slot(next) && self.is_recent(
                    held,
                ) {
                    let slot = self.slots[next];
                    match steps::sweep_plan(arithmetics::gen_of(held), slot.stored()) {
                        steps::Sweep::Force(_) => Some(
                            self.with_slot(next, ReaderSlot { at: held, ..slot }).with_task(
                                task,
                                Task::Scanning { seen, held, next: next + 1 },
                            ),
                        ),
                        steps::Sweep::Keep(g) => {
                            let now = if g == arithmetics::gen_of(held) {
                                held
                            } else {
                                slot.at
                            };
                            Some(
                                self.with_task(
                                    task,
                                    Task::Scanning { seen, held: now, next: next + 1 },
                                ),
                            )
                        },
                    }
                } else {
                    None
                },
                _ => None,
            }
        } else {
            None
        }
    }

    /// A cleaner that has been at all reader slots claims what nobody needs anymore, if the last
    /// valid generation is still what it saw; otherwise it takes down what it is now.
    pub open spec fn after_claim(self, task: int) -> Option<Self> {
        if self.is_task(task) {
            match self.tasks[task] {
                Task::Scanning { seen, held, next } => if next != self.slots.len()
                    || !self.is_recent(held) || !self.is_recent(seen) {
                    None
                } else if arithmetics::gen_gte(
                    arithmetics::gen_of(seen),
                    arithmetics::gen_of(held),
                ) {
                    Some(self.with_task(task, Task::Idle))
                } else if arithmetics::gen_of(self.last_valid) == arithmetics::gen_of(seen) {
                    let claimed = Square { last_valid: held, ..self };
                    Some(
                        claimed.with_task(task, Task::Dropping { from: seen, to: held, at: seen }),
                    )
                } else {
                    Some(
                        self.with_task(
                            task,
                            Task::Scanning { seen: self.last_valid, held, next },
                        ),
                    )
                },
                _ => None,
            }
        } else {
            None
        }
    }

    /// A cleaner drops a message that it has claimed.
    pub open spec fn after_drop(self, task: int) -> Option<Self> {
        if self.is_task(task) {
            match self.tasks[task] {
                Task::Dropping { from, to, at } => if at < to {
                    Some(
                        self.with_message(at, None).with_task(
                            task,
                            Task::Dropping { from, to, at: at + 1 },
                        ),
                    )
                } else {
                    None
                },
                _ => None,
            }
        } else {
            None
        }
    }

    /// A cleaner that has dropped everything it claimed frees the slots, if it is their turn.
    pub open spec fn after_free(self, task: int) -> Option<Self> {
        if self.is_task(task) {
            match self.tasks[task] {
                Task::Dropping { from, to, at } => if at != to {
                    None
                } else if arithmetics::gen_of(self.free) == arithmetics::gen_of(from) {
                    let freed = Square { free: to, ..self };
                    Some(freed.with_task(task, Task::Idle))
                } else {
                    Some(self)
                },
                _ => None,
            }
        } else {
            None
        }
    }

    /// A reader takes a slot. It finds it suspended, as one that was never taken is.
    pub open spec fn after_enter(self, slot: int) -> Option<Self> {
        if self.is_slot(slot) && !self.slots[slot].taken {
            Some(self.with_slot(slot, ReaderSlot { taken: true, ..self.slots[slot] }))
        } else {
            None
        }
    }

    /// A reader that is suspended gives its slot back.
    pub open spec fn after_leave(self, slot: int) -> Option<Self> {
        if self.is_slot(slot) && self.slots[slot].taken && self.slots[slot].suspended {
            Some(self.with_slot(slot, ReaderSlot { taken: false, ..self.slots[slot] }))
        } else {
            None
        }
    }

    /// The reader is there, and is not reading.
    pub open spec fn is_free_to_move(self, slot: int) -> bool {
        self.is_slot(slot) && self.slots[slot].taken && self.slots[slot].reading is None
    }

    /// A reader suspends itself.
    pub open spec fn after_suspend(self, slot: int) -> Option<Self> {
        if self.is_free_to_move(slot) && steps::suspend_plan(self.slots[slot].stored()) is Ok {
            Some(self.with_slot(slot, ReaderSlot { suspended: true, ..self.slots[slot] }))
        } else {
            None
        }
    }

    /// A reader resumes where its slot is.
    pub open spec fn after_resume(self, slot: int) -> Option<Self> {
        if self.is_free_to_move(slot) && steps::resume_plan(self.slots[slot].stored()) is Some {
            Some(self.with_slot(slot, ReaderSlot { suspended: false, ..self.slots[slot] }))
        } else {
            None
        }
    }

    /// A reader resumes at a generation that is published.
    pub open spec fn after_resume_at(self, slot: int, generation: int) -> Option<Self> {
        if self.is_free_to_move(slot) && generation <= self.read && self.is_recent(generation) {
            match steps::resume_at_plan(
                self.slots[slot].stored(),
                arithmetics::gen_of(generation),
            ) {
                Ok(Some(_)) => Some(
                    self.with_slot(
                        slot,
                        ReaderSlot { at: generation, suspended: false, ..self.slots[slot] },
                    ),
                ),
                _ => None,
            }
        } else {
            None
        }
    }

    /// A reader advances to a generation that is published.
    pub open spec fn after_advance(self, slot: int, generation: int) -> Option<Self> {
        if self.is_free_to_move(slot) && generation <= self.read && self.is_recent(generation)
            && steps::set_gen_plan(self.slots[slot].stored(), arithmetics::gen_of(generation)) is Ok {
            Some(self.with_slot(slot, ReaderSlot { at: generation, ..self.slots[slot] }))
        } else {
            None
        }
    }

    /// A reader that is not suspended begins to read everything that is published.
    pub open spec fn after_begin_read(self, slot: int) -> Option<Self> {
        if self.is_free_to_move(slot) && !self.slots[slot].suspended {
            Some(self.with_slot(slot, ReaderSlot { reading: Some(self.read), ..self.slots[slot] }))
        } else {
            None
        }
    }

    /// A reader has read everything that it set out to read, and advances past it.
    pub open spec fn after_end_read(self, slot: int) -> Option<Self> {
        if self.is_slot(slot) {
            match self.slots[slot].reading {
                Some(end) => {
                    let at = match steps::set_gen_plan(
                        self.slots[slot].stored(),
                        arithmetics::gen_of(end),
                    ) {
                        Ok(_) => end,
                        Err(_) => self.slots[slot].at,
                    };
                    Some(
                        self.with_slot(slot, ReaderSlot { at, reading: None, ..self.slots[slot] }),
                    )
                },
                None => None,
            }
        } else {
            None
        }
    }

    /// What the ring buffer holds at the place where a generation belongs.
    pub open spec fn kept(self, generation: int) -> Option<T> {
        self.buffer[generation % self.capacity as int]
    }

    /// The counters are in order, and no further apart than there is room for messages.
    pub open spec fn in_order(self) -> bool {
        &&& 0 < self.capacity <= arithmetics::gen_horizon()
        &&& self.buffer.len() == self.capacity
        &&& 0 <= self.free <= self.last_valid <= self.read <= self.write <= self.free
            + self.capacity
        &&& self.no_jump()
        &&& self.log.len() == self.read
    }

    /// Everything that is valid is there as it was published, and where nobody has anything to do
    /// there is nothing.
    pub open spec fn contents_in_order(self) -> bool {
        &&& forall|g: int|
            self.last_valid <= g < self.read ==> #[trigger] self.kept(g) == Some(self.log[g])
        &&& forall|g: int|
            self.write <= g < self.free + self.capacity ==> #[trigger] self.kept(g) is None
    }

    /// A reader slot is at a generation that is valid or not yet published; one that is not taken
    /// is marked as suspended; and only a reader that is not suspended reads, up to what is
    /// published.
    pub open spec fn slot_in_order(self, slot: ReaderSlot) -> bool {
        &&& self.last_valid <= slot.at <= self.read
        &&& !slot.taken ==> slot.suspended
        &&& slot.reading matches Some(end) ==> slot.taken && !slot.suspended && slot.at <= end
            <= self.read
    }

    /// What a participant has taken down is true, or was true once; and what it works on is there.
    pub open spec fn task_in_order(self, task: Task) -> bool {
        match task {
            Task::Idle => true,
            Task::SawFree { free } => free <= self.free,
            Task::Planned { start, end } => start <= self.write && start < end <= self.free
                + self.capacity,
            Task::Holding { start, end } => self.read <= start < end <= self.write,
            Task::SawLast { seen } => seen <= self.last_valid,
            Task::Scanning { seen, held, next } => {
                &&& seen <= self.last_valid
                &&& held <= self.read
                &&& 0 <= next <= self.slots.len()
                &&& forall|i: int| 0 <= i < next ==> held <= (#[trigger] self.slots[i]).at
            },
            Task::Dropping { from, to, at } => {
                &&& self.free <= from < to <= self.last_valid
                &&& from <= at <= to
                &&& forall|g: int| at <= g < to ==> #[trigger] self.kept(g) == Some(self.log[g])
                &&& forall|g: int| from <= g < at ==> #[trigger] self.kept(g) is None
            },
        }
    }

    /// Everything is in order.
    pub open spec fn inv(self) -> bool {
        &&& self.in_order()
        &&& self.contents_in_order()
        &&& forall|i: int|
            0 <= i < self.slots.len() ==> self.slot_in_order(#[trigger] self.slots[i])
        &&& forall|t: int|
            0 <= t < self.tasks.len() ==> self.task_in_order(#[trigger] self.tasks[t])
        &&& forall|t: int, u: int|
            0 <= t < self.tasks.len() && 0 <= u < self.tasks.len() && t != u ==> apart(
                #[trigger] self.tasks[t],
                #[trigger] self.tasks[u],
            )
    }
}

/// Two participants do not write to the same slots, nor drop the same messages.
pub open spec fn apart(task: Task, other: Task) -> bool {
    match (task, other) {
        (
            Task::Holding { start, end },
            Task::Holding { start: other_start, end: other_end },
        ) => end <= other_start || other_end <= start,
        (
            Task::Dropping { from, to, .. },
            Task::Dropping { from: other_from, to: other_to, .. },
        ) => to <= other_from || other_to <= from,
        _ => true,
    }
}

/// The place of a generation, for as long as the ring buffer does not start again with a jump.
proof fn lemma_place<T>(s: Square<T>, generation: int)
    requires
        s.in_order(),
        0 <= generation < s.write,
    ensures
        s.place(generation) == generation % s.capacity as int,
        s.message(generation) == s.kept(generation),
        0 <= s.place(generation) < s.capacity,
{
    laws::lemma_place_ahead(0, generation, s.capacity);
    assert(arithmetics::gen_add(0, generation) == arithmetics::gen_of(generation));
    assert(steps::index_period() > 0) by {
        assert(usize::MAX >= 0);
    }
    vstd::arithmetic::div_mod::lemma_small_mod(0, steps::index_period() as nat);
    vstd::arithmetic::div_mod::lemma_mod_bound(generation, s.capacity as int);
}

/// Two generations that are less than the capacity apart do not share a place.
proof fn lemma_places_differ(g: int, h: int, capacity: nat)
    requires
        g < h < g + capacity,
    ensures
        g % capacity as int != h % capacity as int,
{
    if g % capacity as int == h % capacity as int {
        vstd::arithmetic::div_mod::lemma_mod_equivalence(h, g, capacity as int);
        vstd::arithmetic::div_mod::lemma_small_mod((h - g) as nat, capacity);
    }
}

/// What a participant does by itself, without touching anything shared, keeps everything in order.
proof fn lemma_task_moves<T>(s: Square<T>, task: int, now: Task)
    requires
        s.inv(),
        s.is_task(task),
        s.task_in_order(now),
        forall|u: int|
            0 <= u < s.tasks.len() && u != task ==> apart(now, #[trigger] s.tasks[u]) && apart(
                s.tasks[u],
                now,
            ),
    ensures
        s.with_task(task, now).inv(),
{
    let w = s.with_task(task, now);
    assert forall|g: int| w.last_valid <= g < w.read implies #[trigger] w.kept(g) == Some(
        w.log[g],
    ) by {
        assert(s.kept(g) == Some(s.log[g]));
    }
    assert forall|g: int| w.write <= g < w.free + w.capacity implies #[trigger] w.kept(g) is None by {
        assert(s.kept(g) is None);
    }
    assert forall|t: int| 0 <= t < w.tasks.len() implies w.task_in_order(#[trigger] w.tasks[t]) by {
        if t == task {
            lemma_task_stays(s, w, now);
        } else {
            assert(s.task_in_order(s.tasks[t]));
            lemma_task_stays(s, w, s.tasks[t]);
        }
    }
    assert forall|t: int, u: int|
        0 <= t < w.tasks.len() && 0 <= u < w.tasks.len() && t != u implies apart(
        #[trigger] w.tasks[t],
        #[trigger] w.tasks[u],
    ) by {
        if t != task && u != task {
            assert(apart(s.tasks[t], s.tasks[u]));
        }
    }
    assert forall|i: int| 0 <= i < w.slots.len() implies w.slot_in_order(#[trigger] w.slots[i]) by {
        assert(s.slot_in_order(s.slots[i]));
    }
}

/// The shared part is the same.
pub open spec fn same_square<T>(s: Square<T>, w: Square<T>) -> bool {
    w == (Square { tasks: w.tasks, ..s })
}

proof fn lemma_task_stays<T>(s: Square<T>, w: Square<T>, task: Task)
    requires
        same_square(s, w),
        s.task_in_order(task),
    ensures
        w.task_in_order(task),
{
    match task {
        Task::Dropping { from, to, at } => {
            assert forall|g: int| at <= g < to implies #[trigger] w.kept(g) == Some(w.log[g]) by {
                assert(s.kept(g) == Some(s.log[g]));
            }
            assert forall|g: int| from <= g < at implies #[trigger] w.kept(g) is None by {
                assert(s.kept(g) is None);
            }
        },
        _ => {},
    }
}

/// A reader slot that moves forward keeps everything in order.
proof fn lemma_slot_moves<T>(s: Square<T>, slot: int, now: ReaderSlot)
    requires
        s.inv(),
        s.is_slot(slot),
        s.slot_in_order(now),
        s.slots[slot].at <= now.at,
    ensures
        s.with_slot(slot, now).inv(),
{
    let w = s.with_slot(slot, now);
    assert forall|g: int| w.last_valid <= g < w.read implies #[trigger] w.kept(g) == Some(
        w.log[g],
    ) by {
        assert(s.kept(g) == Some(s.log[g]));
    }
    assert forall|g: int| w.write <= g < w.free + w.capacity implies #[trigger] w.kept(g) is None by {
        assert(s.kept(g) is None);
    }
    assert forall|i: int| 0 <= i < w.slots.len() implies w.slot_in_order(#[trigger] w.slots[i]) by {
        assert(s.slot_in_order(s.slots[i]));
    }
    assert forall|t: int| 0 <= t < w.tasks.len() implies w.task_in_order(#[trigger] w.tasks[t]) by {
        assert(s.task_in_order(s.tasks[t]));
        match w.tasks[t] {
            Task::Dropping { from, to, at } => {
                assert forall|g: int| at <= g < to implies #[trigger] w.kept(g) == Some(
                    w.log[g],
                ) by {
                    assert(s.kept(g) == Some(s.log[g]));
                }
                assert forall|g: int| from <= g < at implies #[trigger] w.kept(g) is None by {
                    assert(s.kept(g) is None);
                }
            },
            Task::Scanning { seen, held, next } => {
                assert forall|i: int| 0 <= i < next implies held <= (#[trigger] w.slots[i]).at by {
                    assert(held <= s.slots[i].at);
                }
            },
            _ => {},
        }
    }
    assert forall|t: int, u: int|
        0 <= t < w.tasks.len() && 0 <= u < w.tasks.len() && t != u implies apart(
        #[trigger] w.tasks[t],
        #[trigger] w.tasks[u],
    ) by {
        assert(apart(s.tasks[t], s.tasks[u]));
    }
}

/// What the stored value of a reader slot says.
pub(crate) proof fn lemma_stored(slot: ReaderSlot)
    ensures
        area::suspended(slot.stored()) == slot.suspended,
        arithmetics::gen_of(slot.stored() as int) == arithmetics::gen_of(slot.at),
        !slot.suspended ==> slot.stored() == arithmetics::gen_of(slot.at),
{
}

/// Two numbers that are not far apart and are stored alike are the same.
proof fn lemma_same_counter(v: int, w: int)
    requires
        -arithmetics::gen_horizon() <= v - w <= arithmetics::gen_horizon(),
        arithmetics::gen_of(v) == arithmetics::gen_of(w),
    ensures
        v == w,
{
}

/// The steps of readers keep everything in order.
proof fn lemma_reader_steps<T>(s: Square<T>, slot: int, generation: int)
    requires
        s.inv(),
    ensures
        s.after_enter(slot) matches Some(w) ==> w.inv(),
        s.after_leave(slot) matches Some(w) ==> w.inv(),
        s.after_suspend(slot) matches Some(w) ==> w.inv(),
        s.after_resume(slot) matches Some(w) ==> w.inv(),
        s.after_resume_at(slot, generation) matches Some(w) ==> w.inv(),
        s.after_advance(slot, generation) matches Some(w) ==> w.inv(),
        s.after_begin_read(slot) matches Some(w) ==> w.inv(),
        s.after_end_read(slot) matches Some(w) ==> w.inv(),
{
    if s.is_slot(slot) {
        let now = s.slots[slot];
        assert(s.slot_in_order(now));
        lemma_stored(now);
        if s.after_enter(slot) is Some {
            lemma_slot_moves(s, slot, ReaderSlot { taken: true, ..now });
        }
        if s.after_leave(slot) is Some {
            lemma_slot_moves(s, slot, ReaderSlot { taken: false, ..now });
        }
        if s.after_suspend(slot) is Some {
            lemma_slot_moves(s, slot, ReaderSlot { suspended: true, ..now });
        }
        if s.after_resume(slot) is Some {
            lemma_slot_moves(s, slot, ReaderSlot { suspended: false, ..now });
        }
        if s.after_resume_at(slot, generation) is Some {
            arithmetics::law_gte_is_the_order_of_counters(now.at, generation);
            lemma_slot_moves(
                s,
                slot,
                ReaderSlot { at: generation, suspended: false, ..now },
            );
        }
        if s.after_advance(slot, generation) is Some {
            arithmetics::law_gte_is_the_order_of_counters(now.at, generation);
            lemma_slot_moves(s, slot, ReaderSlot { at: generation, ..now });
        }
        if s.after_begin_read(slot) is Some {
            lemma_slot_moves(s, slot, ReaderSlot { reading: Some(s.read), ..now });
        }
        if now.reading is Some {
            let end = now.reading->0;
            lemma_slot_moves(s, slot, ReaderSlot { at: end, reading: None, ..now });
            lemma_slot_moves(s, slot, ReaderSlot { reading: None, ..now });
        }
    }
}

/// A writer that looks at the counters keeps everything in order.
proof fn lemma_writer_looks<T>(s: Square<T>, task: int, n: int)
    requires
        s.inv(),
    ensures
        s.after_load_free(task) matches Some(w) ==> w.inv(),
        s.after_load_write(task, n) matches Some(w) ==> w.inv(),
{
    if s.is_task(task) {
        assert(s.task_in_order(s.tasks[task]));
        if s.after_load_free(task) is Some {
            lemma_task_moves(s, task, Task::SawFree { free: s.free });
        }
        if s.after_load_write(task, n) is Some {
            match s.tasks[task] {
                Task::SawFree { free } => {
                    arithmetics::law_distance_is_the_difference_of_counters(s.write, free);
                    if steps::reserve_plan(
                        s.capacity,
                        n,
                        arithmetics::gen_of(free),
                        arithmetics::gen_of(s.write),
                    ) is Ok {
                        lemma_task_moves(
                            s,
                            task,
                            Task::Planned { start: s.write, end: s.write + n },
                        );
                    } else {
                        lemma_task_moves(s, task, Task::Idle);
                    }
                },
                _ => {},
            }
        }
    }
}

/// A cleaner that looks at the counters keeps everything in order.
proof fn lemma_cleaner_looks<T>(s: Square<T>, task: int)
    requires
        s.inv(),
    ensures
        s.after_load_last(task) matches Some(w) ==> w.inv(),
        s.after_load_read(task) matches Some(w) ==> w.inv(),
{
    if s.is_task(task) {
        assert(s.task_in_order(s.tasks[task]));
        if s.after_load_last(task) is Some {
            lemma_task_moves(s, task, Task::SawLast { seen: s.last_valid });
        }
        if s.after_load_read(task) is Some {
            match s.tasks[task] {
                Task::SawLast { seen } => {
                    lemma_task_moves(s, task, Task::Idle);
                    lemma_task_moves(s, task, Task::Scanning { seen, held: s.read, next: 0 });
                },
                _ => {},
            }
        }
    }
}

/// A writer that hands a part of its slots on keeps everything in order.
proof fn lemma_split<T>(s: Square<T>, task: int, other: int, generation: int)
    requires
        s.inv(),
    ensures
        s.after_split(task, other, generation) matches Some(w) ==> w.inv(),
{
    if s.after_split(task, other, generation) is Some {
        match s.tasks[task] {
            Task::Holding { start, end } => {
                assert(s.task_in_order(s.tasks[task]));
                let left = Task::Holding { start, end: generation };
                let right = Task::Holding { start: generation, end };
                assert forall|u: int| 0 <= u < s.tasks.len() && u != task implies apart(
                    left,
                    #[trigger] s.tasks[u],
                ) && apart(s.tasks[u], left) by {
                    assert(apart(s.tasks[task], s.tasks[u]));
                    assert(apart(s.tasks[u], s.tasks[task]));
                }
                lemma_task_moves(s, task, left);
                let w = s.with_task(task, left);
                assert forall|u: int| 0 <= u < w.tasks.len() && u != other implies apart(
                    right,
                    #[trigger] w.tasks[u],
                ) && apart(w.tasks[u], right) by {
                    if u != task {
                        assert(apart(s.tasks[task], s.tasks[u]));
                        assert(apart(s.tasks[u], s.tasks[task]));
                    }
                }
                lemma_task_moves(w, other, right);
            },
            _ => {},
        }
    }
}

/// A cleaner that looks at a reader slot keeps everything in order.
proof fn lemma_sweep_step<T>(s: Square<T>, task: int)
    requires
        s.inv(),
    ensures
        s.after_sweep(task) matches Some(w) ==> w.inv(),
{
    if s.after_sweep(task) is Some {
        match s.tasks[task] {
            Task::Scanning { seen, held, next } => {
                assert(s.task_in_order(s.tasks[task]));
                let slot = s.slots[next];
                assert(s.slot_in_order(slot));
                lemma_stored(slot);
                arithmetics::law_gte_is_the_order_of_counters(held, slot.at);
                match steps::sweep_plan(arithmetics::gen_of(held), slot.stored()) {
                    steps::Sweep::Force(_) => {
                        let now = ReaderSlot { at: held, ..slot };
                        lemma_slot_moves(s, next, now);
                        let w = s.with_slot(next, now);
                        let scanned = Task::Scanning { seen, held, next: next + 1 };
                        assert(w.task_in_order(scanned)) by {
                            assert(w.task_in_order(w.tasks[task]));
                        }
                        lemma_task_moves(w, task, scanned);
                    },
                    steps::Sweep::Keep(g) => {
                        let now = if g == arithmetics::gen_of(held) {
                            held
                        } else {
                            slot.at
                        };
                        assert(now <= slot.at && now <= held);
                        let scanned = Task::Scanning { seen, held: now, next: next + 1 };
                        assert forall|i: int| 0 <= i < next + 1 implies now <= (
                        #[trigger] s.slots[i]).at by {
                            if i < next {
                                assert(held <= s.slots[i].at);
                            }
                        }
                        lemma_task_moves(s, task, scanned);
                    },
                }
            },
            _ => {},
        }
    }
}

/// A writer that takes slots keeps everything in order.
proof fn lemma_commit_reserve<T>(s: Square<T>, task: int)
    requires
        s.inv(),
    ensures
        s.after_commit_reserve(task) matches Some(w) ==> w.inv(),
{
    if s.after_commit_reserve(task) is Some {
        match s.tasks[task] {
            Task::Planned { start, end } => {
                assert(s.task_in_order(s.tasks[task]));
                if arithmetics::gen_of(s.write) == arithmetics::gen_of(start) {
                    lemma_same_counter(s.write, start);
                    let idle = s.with_task(task, Task::Idle);
                    lemma_task_moves(s, task, Task::Idle);
                    let taken = Square { write: end, ..idle };
                    lemma_write_moves(idle, end);
                    let held = Task::Holding { start, end };
                    assert forall|u: int| 0 <= u < taken.tasks.len() && u != task implies apart(
                        held,
                        #[trigger] taken.tasks[u],
                    ) && apart(taken.tasks[u], held) by {
                        assert(idle.task_in_order(idle.tasks[u]));
                    }
                    lemma_task_moves(taken, task, held);
                    let w = s.after_commit_reserve(task)->0;
                    assert(w.tasks =~= taken.with_task(task, held).tasks);
                } else {
                    lemma_task_moves(s, task, Task::Idle);
                }
            },
            _ => {},
        }
    }
}

/// More slots are handed out.
proof fn lemma_write_moves<T>(s: Square<T>, end: int)
    requires
        s.inv(),
        s.write <= end <= s.free + s.capacity,
        (Square { write: end, ..s }).no_jump(),
    ensures
        (Square { write: end, ..s }).inv(),
{
    let w = Square { write: end, ..s };
    assert forall|g: int| w.last_valid <= g < w.read implies #[trigger] w.kept(g) == Some(
        w.log[g],
    ) by {
        assert(s.kept(g) == Some(s.log[g]));
    }
    assert forall|g: int| w.write <= g < w.free + w.capacity implies #[trigger] w.kept(g) is None by {
        assert(s.kept(g) is None);
    }
    assert forall|i: int| 0 <= i < w.slots.len() implies w.slot_in_order(#[trigger] w.slots[i]) by {
        assert(s.slot_in_order(s.slots[i]));
    }
    assert forall|t: int| 0 <= t < w.tasks.len() implies w.task_in_order(#[trigger] w.tasks[t]) by {
        assert(s.task_in_order(s.tasks[t]));
        lemma_contents_stay(s, w, w.tasks[t]);
    }
}

/// Nothing is read or written of what a cleaner is about to drop, or has dropped.
proof fn lemma_contents_stay<T>(s: Square<T>, w: Square<T>, task: Task)
    requires
        s.task_in_order(task),
        w.capacity == s.capacity,
        w.slots == s.slots,
        s.free <= w.free,
        s.last_valid <= w.last_valid,
        s.read <= w.read,
        s.write <= w.write,
        task matches Task::Holding { start, .. } ==> w.read <= start,
        task matches Task::Dropping { from, to, at } ==> w.free <= from && forall|g: int|
            from <= g < to ==> #[trigger] w.kept(g) == s.kept(g) && w.log[g] == s.log[g],
    ensures
        w.task_in_order(task),
{
    match task {
        Task::Dropping { from, to, at } => {
            assert forall|g: int| at <= g < to implies #[trigger] w.kept(g) == Some(w.log[g]) by {
                assert(s.kept(g) == Some(s.log[g]));
            }
            assert forall|g: int| from <= g < at implies #[trigger] w.kept(g) is None by {
                assert(s.kept(g) is None);
            }
        },
        _ => {},
    }
}

/// A writer that writes to one of its slots keeps everything in order.
proof fn lemma_write<T>(s: Square<T>, task: int, generation: int, message: T)
    requires
        s.inv(),
    ensures
        s.after_write(task, generation, message) matches Some(w) ==> w.inv(),
{
    if s.after_write(task, generation, message) is Some {
        assert(s.task_in_order(s.tasks[task]));
        let w = s.with_message(generation, Some(message));
        lemma_place(s, generation);
        assert forall|g: int|
            s.free <= g < s.free + s.capacity && g != generation implies #[trigger] w.kept(g)
            == s.kept(g) by {
            lemma_others_stay(s, generation, Some(message), g);
        }
        assert forall|g: int| w.last_valid <= g < w.read implies #[trigger] w.kept(g) == Some(
            w.log[g],
        ) by {
            assert(s.kept(g) == Some(s.log[g]));
        }
        assert forall|g: int| w.write <= g < w.free + w.capacity implies #[trigger] w.kept(
            g,
        ) is None by {
            assert(s.kept(g) is None);
        }
        assert forall|i: int| 0 <= i < w.slots.len() implies w.slot_in_order(
            #[trigger] w.slots[i],
        ) by {
            assert(s.slot_in_order(s.slots[i]));
        }
        assert forall|t: int| 0 <= t < w.tasks.len() implies w.task_in_order(
            #[trigger] w.tasks[t],
        ) by {
            assert(s.task_in_order(s.tasks[t]));
            lemma_contents_stay(s, w, w.tasks[t]);
        }
    }
}

/// Setting one place leaves what is kept at the others.
proof fn lemma_others_stay<T>(s: Square<T>, generation: int, message: Option<T>, g: int)
    requires
        s.in_order(),
        s.free <= generation < s.write,
        s.free <= g < s.free + s.capacity,
    ensures
        s.with_message(generation, message).kept(g) == (if g == generation {
            message
        } else {
            s.kept(g)
        }),
{
    lemma_place(s, generation);
    vstd::arithmetic::div_mod::lemma_mod_bound(g, s.capacity as int);
    if g < generation {
        lemma_places_differ(g, generation, s.capacity);
    } else if generation < g {
        lemma_places_differ(generation, g, s.capacity);
    }
}

/// A writer that publishes its slots keeps everything in order.
proof fn lemma_publish<T>(s: Square<T>, task: int)
    requires
        s.inv(),
    ensures
        s.after_publish(task) matches Some(w) ==> w.inv(),
{
    if s.after_publish(task) is Some {
        match s.tasks[task] {
            Task::Holding { start, end } => {
                assert(s.task_in_order(s.tasks[task]));
                if arithmetics::gen_of(s.read) == arithmetics::gen_of(start) {
                    lemma_same_counter(s.read, start);
                    let w = s.after_publish(task)->0;
                    assert forall|g: int| w.last_valid <= g < w.read implies #[trigger] w.kept(g)
                        == Some(w.log[g]) by {
                        assert(w.kept(g) == s.kept(g));
                        if g < s.read {
                            assert(s.kept(g) == Some(s.log[g]));
                        } else {
                            lemma_place(s, g);
                            assert(s.message(g) is Some);
                            assert(w.log[g] == s.written(start, end)[g - start]);
                        }
                    }
                    assert forall|g: int|
                        w.write <= g < w.free + w.capacity implies #[trigger] w.kept(g) is None by {
                        assert(s.kept(g) is None);
                    }
                    assert forall|i: int| 0 <= i < w.slots.len() implies w.slot_in_order(
                        #[trigger] w.slots[i],
                    ) by {
                        assert(s.slot_in_order(s.slots[i]));
                    }
                    assert forall|t: int| 0 <= t < w.tasks.len() implies w.task_in_order(
                        #[trigger] w.tasks[t],
                    ) by {
                        if t != task {
                            assert(s.task_in_order(s.tasks[t]));
                            assert(apart(s.tasks[task], s.tasks[t]));
                            lemma_contents_stay(s, w, w.tasks[t]);
                        }
                    }
                    assert forall|t: int, u: int|
                        0 <= t < w.tasks.len() && 0 <= u < w.tasks.len() && t != u implies apart(
                        #[trigger] w.tasks[t],
                        #[trigger] w.tasks[u],
                    ) by {
                        if t != task && u != task {
                            assert(apart(s.tasks[t], s.tasks[u]));
                        }
                    }
                }
            },
            _ => {},
        }
    }
}

/// A cleaner that claims messages keeps everything in order.
proof fn lemma_claim<T>(s: Square<T>, task: int)
    requires
        s.inv(),
    ensures
        s.after_claim(task) matches Some(w) ==> w.inv(),
{
    if s.after_claim(task) is Some {
        match s.tasks[task] {
            Task::Scanning { seen, held, next } => {
                assert(s.task_in_order(s.tasks[task]));
                arithmetics::law_gte_is_the_order_of_counters(seen, held);
                if arithmetics::gen_gte(arithmetics::gen_of(seen), arithmetics::gen_of(held)) {
                    lemma_task_moves(s, task, Task::Idle);
                } else if arithmetics::gen_of(s.last_valid) == arithmetics::gen_of(seen) {
                    lemma_same_counter(s.last_valid, seen);
                    lemma_claimed(s, task);
                } else {
                    lemma_task_moves(s, task, Task::Scanning { seen: s.last_valid, held, next });
                }
            },
            _ => {},
        }
    }
}

/// A cleaner claims the messages that no reader slot is at anymore.
proof fn lemma_claimed<T>(s: Square<T>, task: int)
    requires
        s.inv(),
        s.is_task(task),
        s.tasks[task] matches Task::Scanning { seen, held, next } && seen == s.last_valid && seen
            < held && next == s.slots.len(),
    ensures
        s.tasks[task] matches Task::Scanning { seen, held, .. } ==> (Square {
            last_valid: held,
            ..s
        }).with_task(task, Task::Dropping { from: seen, to: held, at: seen }).inv(),
{
    match s.tasks[task] {
        Task::Scanning { seen, held, next } => {
            let claimed = Task::Dropping { from: seen, to: held, at: seen };
            let w = (Square { last_valid: held, ..s }).with_task(task, claimed);
            assert(s.task_in_order(s.tasks[task]));
            assert forall|g: int| w.last_valid <= g < w.read implies #[trigger] w.kept(g) == Some(
                w.log[g],
            ) by {
                assert(s.kept(g) == Some(s.log[g]));
            }
            assert forall|g: int| w.write <= g < w.free + w.capacity implies #[trigger] w.kept(
                g,
            ) is None by {
                assert(s.kept(g) is None);
            }
            assert forall|i: int| 0 <= i < w.slots.len() implies w.slot_in_order(
                #[trigger] w.slots[i],
            ) by {
                assert(s.slot_in_order(s.slots[i]));
                assert(held <= s.slots[i].at);
            }
            assert forall|g: int| seen <= g < held implies #[trigger] w.kept(g) == Some(
                w.log[g],
            ) by {
                assert(s.kept(g) == Some(s.log[g]));
            }
            assert(w.task_in_order(claimed));
            assert forall|t: int| 0 <= t < w.tasks.len() implies w.task_in_order(
                #[trigger] w.tasks[t],
            ) by {
                if t != task {
                    assert(s.task_in_order(s.tasks[t]));
                    lemma_contents_stay(s, w, w.tasks[t]);
                }
            }
            assert forall|t: int, u: int|
                0 <= t < w.tasks.len() && 0 <= u < w.tasks.len() && t != u implies apart(
                #[trigger] w.tasks[t],
                #[trigger] w.tasks[u],
            ) by {
                if t != task && u != task {
                    assert(apart(s.tasks[t], s.tasks[u]));
                } else if t == task {
                    assert(s.task_in_order(s.tasks[u]));
                } else {
                    assert(s.task_in_order(s.tasks[t]));
                }
            }
        },
        _ => {},
    }
}

/// A cleaner that drops a message that it has claimed keeps everything in order.
proof fn lemma_drop<T>(s: Square<T>, task: int)
    requires
        s.inv(),
    ensures
        s.after_drop(task) matches Some(w) ==> w.inv(),
{
    if s.after_drop(task) is Some {
        match s.tasks[task] {
            Task::Dropping { from, to, at } => {
                assert(s.task_in_order(s.tasks[task]));
                let now = Task::Dropping { from, to, at: at + 1 };
                let w = s.with_message(at, None).with_task(task, now);
                lemma_place(s, at);
                assert forall|g: int| s.free <= g < s.free + s.capacity implies #[trigger] w.kept(g)
                    == (if g == at {
                    None
                } else {
                    s.kept(g)
                }) by {
                    lemma_others_stay(s, at, None, g);
                    assert(w.kept(g) == s.with_message(at, None).kept(g));
                }
                assert forall|g: int| w.last_valid <= g < w.read implies #[trigger] w.kept(g)
                    == Some(w.log[g]) by {
                    assert(s.kept(g) == Some(s.log[g]));
                }
                assert forall|g: int| w.write <= g < w.free + w.capacity implies #[trigger] w.kept(
                    g,
                ) is None by {
                    assert(s.kept(g) is None);
                }
                assert forall|i: int| 0 <= i < w.slots.len() implies w.slot_in_order(
                    #[trigger] w.slots[i],
                ) by {
                    assert(s.slot_in_order(s.slots[i]));
                }
                assert forall|g: int| at + 1 <= g < to implies #[trigger] w.kept(g) == Some(
                    w.log[g],
                ) by {
                    assert(s.kept(g) == Some(s.log[g]));
                }
                assert forall|g: int| from <= g < at + 1 implies #[trigger] w.kept(g) is None by {
                    if g < at {
                        assert(s.kept(g) is None);
                    }
                }
                assert(w.task_in_order(now));
                assert forall|t: int| 0 <= t < w.tasks.len() implies w.task_in_order(
                    #[trigger] w.tasks[t],
                ) by {
                    if t != task {
                        assert(s.task_in_order(s.tasks[t]));
                        assert(apart(s.tasks[task], s.tasks[t]));
                        lemma_contents_stay(s, w, w.tasks[t]);
                    }
                }
                assert forall|t: int, u: int|
                    0 <= t < w.tasks.len() && 0 <= u < w.tasks.len() && t != u implies apart(
                    #[trigger] w.tasks[t],
                    #[trigger] w.tasks[u],
                ) by {
                    assert(apart(s.tasks[t], s.tasks[u]));
                }
            },
            _ => {},
        }
    }
}

/// A cleaner that frees slots keeps everything in order.
proof fn lemma_free<T>(s: Square<T>, task: int)
    requires
        s.inv(),
    ensures
        s.after_free(task) matches Some(w) ==> w.inv(),
{
    if s.after_free(task) is Some {
        match s.tasks[task] {
            Task::Dropping { from, to, at } => {
                assert(s.task_in_order(s.tasks[task]));
                if arithmetics::gen_of(s.free) == arithmetics::gen_of(from) {
                    lemma_same_counter(s.free, from);
                    let w = s.after_free(task)->0;
                    assert forall|g: int| w.last_valid <= g < w.read implies #[trigger] w.kept(g)
                        == Some(w.log[g]) by {
                        assert(s.kept(g) == Some(s.log[g]));
                    }
                    assert forall|g: int|
                        w.write <= g < w.free + w.capacity implies #[trigger] w.kept(g) is None by {
                        if g < s.free + s.capacity {
                            assert(s.kept(g) is None);
                        } else {
                            vstd::arithmetic::div_mod::lemma_mod_sub_multiples_vanish(
                                g,
                                s.capacity as int,
                            );
                            assert(s.kept(g - s.capacity) is None);
                        }
                    }
                    assert forall|i: int| 0 <= i < w.slots.len() implies w.slot_in_order(
                        #[trigger] w.slots[i],
                    ) by {
                        assert(s.slot_in_order(s.slots[i]));
                    }
                    assert forall|t: int| 0 <= t < w.tasks.len() implies w.task_in_order(
                        #[trigger] w.tasks[t],
                    ) by {
                        if t != task {
                            assert(s.task_in_order(s.tasks[t]));
                            assert(apart(s.tasks[task], s.tasks[t]));
                            lemma_contents_stay(s, w, w.tasks[t]);
                        }
                    }
                    assert forall|t: int, u: int|
                        0 <= t < w.tasks.len() && 0 <= u < w.tasks.len() && t != u implies apart(
                        #[trigger] w.tasks[t],
                        #[trigger] w.tasks[u],
                    ) by {
                        if t != task && u != task {
                            assert(apart(s.tasks[t], s.tasks[u]));
                        }
                    }
                }
            },
            _ => {},
        }
    }
}

/// Everything is in order in a new area.
pub proof fn law_new_square_is_in_order<T>(s: Square<T>)
    requires
        s.is_new(),
    ensures
        s.inv(),
{
    assert(steps::index_period() >= 0);
    assert forall|g: int| s.write <= g < s.free + s.capacity implies #[trigger] s.kept(g) is None by {
        vstd::arithmetic::div_mod::lemma_mod_bound(g, s.capacity as int);
    }
}

/// Whoever takes which step when, everything stays in order.
pub proof fn law_every_step_keeps_order<T>(s: Square<T>, step: Step<T>)
    requires
        s.inv(),
    ensures
        s.after(step) matches Some(w) ==> w.inv(),
{
    match step {
        Step::LoadFree { task } => lemma_writer_looks(s, task, 1),
        Step::LoadWrite { task, n } => lemma_writer_looks(s, task, n),
        Step::CommitReserve { task } => lemma_commit_reserve(s, task),
        Step::Write { task, generation, message } => lemma_write(s, task, generation, message),
        Step::Split { task, other, generation } => lemma_split(s, task, other, generation),
        Step::Publish { task } => lemma_publish(s, task),
        Step::LoadLast { task } => lemma_cleaner_looks(s, task),
        Step::LoadRead { task } => lemma_cleaner_looks(s, task),
        Step::Sweep { task } => lemma_sweep_step(s, task),
        Step::Claim { task } => lemma_claim(s, task),
        Step::Drop { task } => lemma_drop(s, task),
        Step::Free { task } => lemma_free(s, task),
        Step::Enter { slot } => lemma_reader_steps(s, slot, 0),
        Step::Leave { slot } => lemma_reader_steps(s, slot, 0),
        Step::Suspend { slot } => lemma_reader_steps(s, slot, 0),
        Step::Resume { slot } => lemma_reader_steps(s, slot, 0),
        Step::ResumeAt { slot, generation } => lemma_reader_steps(s, slot, generation),
        Step::Advance { slot, generation } => lemma_reader_steps(s, slot, generation),
        Step::BeginRead { slot } => lemma_reader_steps(s, slot, 0),
        Step::EndRead { slot } => lemma_reader_steps(s, slot, 0),
    }
}

impl<T> Square<T> {
    /// What becomes of an area by a number of steps, if each of them can be taken.
    pub open spec fn after_all(self, taken: Seq<Step<T>>) -> Option<Self>
        decreases taken.len(),
    {
        if taken.len() == 0 {
            Some(self)
        } else {
            match self.after_all(taken.drop_last()) {
                Some(before) => before.after(taken.last()),
                None => None,
            }
        }
    }

    /// A participant is writing to the slot of this generation.
    pub open spec fn is_written_by(self, task: int, generation: int) -> bool {
        &&& self.is_task(task)
        &&& self.tasks[task] matches Task::Holding { start, end } && start <= generation < end
    }

    /// A participant is about to drop the message of this generation.
    pub open spec fn is_dropped_by(self, task: int, generation: int) -> bool {
        &&& self.is_task(task)
        &&& self.tasks[task] matches Task::Dropping { to, at, .. } && at <= generation < to
    }

    /// The reader at a slot is reading the message of this generation.
    pub open spec fn is_read_at(self, slot: int, generation: int) -> bool {
        &&& self.is_slot(slot)
        &&& self.slots[slot].reading matches Some(end) && self.slots[slot].at <= generation < end
    }
}

/// Whatever has happened since an area was new, everything is in order.
pub proof fn law_everything_is_always_in_order<T>(s: Square<T>, taken: Seq<Step<T>>)
    requires
        s.is_new(),
    ensures
        s.after_all(taken) matches Some(w) ==> w.inv(),
    decreases taken.len(),
{
    if taken.len() == 0 {
        law_new_square_is_in_order(s);
    } else {
        law_everything_is_always_in_order(s, taken.drop_last());
        match s.after_all(taken.drop_last()) {
            Some(before) => law_every_step_keeps_order(before, taken.last()),
            None => {},
        }
    }
}

/// Two generations in use that are not the same do not share a place.
proof fn lemma_in_use<T>(s: Square<T>, g: int, h: int)
    requires
        s.in_order(),
        s.free <= g < s.write,
        s.free <= h < s.write,
        g != h,
    ensures
        s.place(g) != s.place(h),
{
    lemma_place(s, g);
    lemma_place(s, h);
    if g < h {
        lemma_places_differ(g, h, s.capacity);
    } else {
        lemma_places_differ(h, g, s.capacity);
    }
}

/// A place that somebody writes to is touched by nobody else: nobody else writes to it, nobody
/// drops what it holds, and nobody reads it.
pub proof fn law_writers_are_alone<T>(
    s: Square<T>,
    task: int,
    generation: int,
    other: int,
    slot: int,
    other_generation: int,
)
    requires
        s.inv(),
        s.is_written_by(task, generation),
    ensures
        s.is_written_by(other, other_generation) && other != task ==> s.place(generation)
            != s.place(other_generation),
        s.is_dropped_by(other, other_generation) ==> s.place(generation) != s.place(
            other_generation,
        ),
        s.is_read_at(slot, other_generation) ==> s.place(generation) != s.place(other_generation),
{
    assert(s.task_in_order(s.tasks[task]));
    if s.is_written_by(other, other_generation) && other != task {
        assert(s.task_in_order(s.tasks[other]));
        assert(apart(s.tasks[task], s.tasks[other]));
        lemma_in_use(s, generation, other_generation);
    }
    if s.is_dropped_by(other, other_generation) {
        assert(s.task_in_order(s.tasks[other]));
        lemma_in_use(s, generation, other_generation);
    }
    if s.is_read_at(slot, other_generation) {
        assert(s.slot_in_order(s.slots[slot]));
        lemma_in_use(s, generation, other_generation);
    }
}

/// A message that somebody is about to drop is dropped by nobody else, and is read by nobody. It
/// is still there as it was published, so that it is dropped once.
pub proof fn law_cleaners_are_alone<T>(
    s: Square<T>,
    task: int,
    generation: int,
    other: int,
    slot: int,
    other_generation: int,
)
    requires
        s.inv(),
        s.is_dropped_by(task, generation),
    ensures
        s.message(generation) == Some(s.log[generation]),
        s.is_dropped_by(other, other_generation) && other != task ==> s.place(generation)
            != s.place(other_generation),
        s.is_read_at(slot, other_generation) ==> s.place(generation) != s.place(other_generation),
        s.is_slot(slot) ==> generation < s.slots[slot].at,
{
    assert(s.task_in_order(s.tasks[task]));
    lemma_place(s, generation);
    assert(s.kept(generation) == Some(s.log[generation]));
    if s.is_dropped_by(other, other_generation) && other != task {
        assert(s.task_in_order(s.tasks[other]));
        assert(apart(s.tasks[task], s.tasks[other]));
        lemma_in_use(s, generation, other_generation);
    }
    if s.is_slot(slot) {
        assert(s.slot_in_order(s.slots[slot]));
        if s.is_read_at(slot, other_generation) {
            lemma_in_use(s, generation, other_generation);
        }
    }
}

/// A reader reads what was published, for as long as it reads, whatever the others do.
pub proof fn law_readers_read_what_was_published<T>(s: Square<T>, slot: int, generation: int)
    requires
        s.inv(),
        s.is_read_at(slot, generation),
    ensures
        s.message(generation) == Some(s.log[generation]),
{
    assert(s.slot_in_order(s.slots[slot]));
    lemma_place(s, generation);
    assert(s.kept(generation) == Some(s.log[generation]));
}

/// Everything from where a reader slot is at, up to what is published, can be read: this is where a
/// reader that enters or comes back begins.
pub proof fn law_entry_is_valid<T>(s: Square<T>, slot: int, generation: int)
    requires
        s.inv(),
        s.is_slot(slot),
        s.slots[slot].at <= generation < s.read,
    ensures
        s.message(generation) == Some(s.log[generation]),
{
    assert(s.slot_in_order(s.slots[slot]));
    lemma_place(s, generation);
    assert(s.kept(generation) == Some(s.log[generation]));
}

/// The step is one that the reader at the slot takes.
pub open spec fn is_of_reader<T>(step: Step<T>, reader: int) -> bool {
    match step {
        Step::Enter { slot } => slot == reader,
        Step::Leave { slot } => slot == reader,
        Step::Suspend { slot } => slot == reader,
        Step::Resume { slot } => slot == reader,
        Step::ResumeAt { slot, .. } => slot == reader,
        Step::Advance { slot, .. } => slot == reader,
        Step::BeginRead { slot } => slot == reader,
        Step::EndRead { slot } => slot == reader,
        _ => false,
    }
}

/// A reader that is not suspended is moved by nobody but itself. One that is suspended stays so,
/// and is moved forward at most. What was published never changes.
pub proof fn law_others_do_not_move_a_reader<T>(s: Square<T>, step: Step<T>, reader: int)
    requires
        s.inv(),
        s.is_slot(reader),
        s.after(step) is Some,
        !is_of_reader(step, reader),
    ensures
        s.after(step)->0.slots.len() == s.slots.len(),
        !s.slots[reader].suspended ==> s.after(step)->0.slots[reader] == s.slots[reader],
        s.slots[reader].suspended ==> s.after(step)->0.slots[reader].suspended,
        s.slots[reader].taken == s.after(step)->0.slots[reader].taken,
        s.slots[reader].at <= s.after(step)->0.slots[reader].at,
{
    match step {
        Step::Sweep { task } => match s.tasks[task] {
            Task::Scanning { seen, held, next } => {
                let slot = s.slots[next];
                assert(s.task_in_order(s.tasks[task]));
                assert(s.slot_in_order(slot));
                lemma_stored(slot);
                arithmetics::law_gte_is_the_order_of_counters(held, slot.at);
            },
            _ => {},
        },
        _ => {},
    }
}

/// What was published never changes.
pub proof fn law_log_only_grows<T>(s: Square<T>, step: Step<T>)
    requires
        s.inv(),
        s.after(step) is Some,
    ensures
        s.log.len() <= s.after(step)->0.log.len(),
        s.after(step)->0.log.take(s.log.len() as int) == s.log,
{
    let w = s.after(step)->0;
    assert(w.log.take(s.log.len() as int) =~= s.log);
}

/// A reader that has read a slice is at its end, where the next one begins.
pub proof fn law_slices_are_adjacent<T>(s: Square<T>, slot: int)
    requires
        s.inv(),
        s.is_slot(slot),
        s.slots[slot].reading is Some,
    ensures
        s.after(Step::EndRead { slot }) is Some,
        s.after(Step::EndRead { slot })->0.slots[slot].at == s.slots[slot].reading->0,
{
    let now = s.slots[slot];
    let end = now.reading->0;
    assert(s.slot_in_order(now));
    lemma_stored(now);
    arithmetics::law_gte_is_the_order_of_counters(now.at, end);
}

/// Slots are published in the order in which they were reserved: only the oldest ones that are not
/// published can be.
pub proof fn law_publishing_is_in_order<T>(s: Square<T>, task: int)
    requires
        s.inv(),
        s.after_publish(task) is Some,
    ensures
        s.tasks[task] matches Task::Holding { start, end } ==> {
            let w = s.after_publish(task)->0;
            if start == s.read {
                w.read == end && w.log == s.log + s.written(start, end)
            } else {
                w == s
            }
        },
{
    match s.tasks[task] {
        Task::Holding { start, end } => {
            assert(s.task_in_order(s.tasks[task]));
            if arithmetics::gen_of(s.read) == arithmetics::gen_of(start) {
                lemma_same_counter(s.read, start);
            }
        },
        _ => {},
    }
}

impl<T> Square<T> {
    /// What the reader at a slot gets to read by a number of steps: with each slice that it reads to
    /// the end, the messages that are in their places then.
    pub open spec fn heard(self, taken: Seq<Step<T>>, reader: int) -> Seq<Option<T>>
        decreases taken.len(),
    {
        if taken.len() == 0 {
            Seq::empty()
        } else {
            let earlier = self.heard(taken.drop_last(), reader);
            match (self.after_all(taken.drop_last()), taken.last()) {
                (Some(before), Step::EndRead { slot }) => if slot == reader {
                    earlier + before.read_at(slot)
                } else {
                    earlier
                },
                _ => earlier,
            }
        }
    }

    /// The messages that the reader at a slot is reading.
    pub open spec fn read_at(self, slot: int) -> Seq<Option<T>> {
        let start = self.slots[slot].at;
        Seq::new((self.slots[slot].reading->0 - start) as nat, |k: int| self.message(start + k))
    }

    /// What was published from one generation up to another.
    pub open spec fn published(self, start: int, end: int) -> Seq<Option<T>> {
        Seq::new((end - start) as nat, |k: int| Some(self.log[start + k]))
    }
}

/// The reader at a slot does nothing but read slices to the end.
pub open spec fn only_reads<T>(taken: Seq<Step<T>>, reader: int) -> bool {
    forall|j: int|
        0 <= j < taken.len() && is_of_reader(#[trigger] taken[j], reader) ==> taken[j] is BeginRead
            || taken[j] is EndRead
}

/// A reader that reads, and does not suspend itself, hears everything that is published from where
/// it was on, in order, once, and as it was published, whoever else does what when.
pub proof fn law_readers_hear_everything<T>(s: Square<T>, taken: Seq<Step<T>>, reader: int)
    requires
        s.inv(),
        s.is_slot(reader),
        !s.slots[reader].suspended,
        only_reads(taken, reader),
        s.after_all(taken) is Some,
    ensures
        ({
            let w = s.after_all(taken)->0;
            &&& w.inv()
            &&& w.is_slot(reader)
            &&& !w.slots[reader].suspended
            &&& s.slots[reader].at <= w.slots[reader].at <= w.read
            &&& s.heard(taken, reader) == w.published(s.slots[reader].at, w.slots[reader].at)
        }),
    decreases taken.len(),
{
    let w = s.after_all(taken)->0;
    let start = s.slots[reader].at;
    if taken.len() == 0 {
        assert(s.slot_in_order(s.slots[reader]));
        assert(s.heard(taken, reader) =~= w.published(start, start));
    } else {
        let before = s.after_all(taken.drop_last())->0;
        let step = taken.last();
        assert(only_reads(taken.drop_last(), reader)) by {
            assert forall|j: int|
                0 <= j < taken.drop_last().len() && is_of_reader(
                    #[trigger] taken.drop_last()[j],
                    reader,
                ) implies taken.drop_last()[j] is BeginRead || taken.drop_last()[j] is EndRead by {
                assert(taken[j] == taken.drop_last()[j]);
            }
        }
        law_readers_hear_everything(s, taken.drop_last(), reader);
        law_every_step_keeps_order(before, step);
        law_log_only_grows(before, step);
        let at = before.slots[reader].at;
        assert(before.slot_in_order(before.slots[reader]));
        assert(w.published(start, at) =~= before.published(start, at)) by {
            assert forall|k: int| 0 <= k < at - start implies w.published(start, at)[k]
                == before.published(start, at)[k] by {
                assert(w.log.take(before.log.len() as int)[start + k] == before.log[start + k]);
            }
        }
        if !is_of_reader(step, reader) {
            law_others_do_not_move_a_reader(before, step, reader);
        } else {
            assert(taken[taken.len() - 1] == step);
            match step {
                Step::EndRead { slot } => {
                    law_slices_are_adjacent(before, slot);
                    let end = before.slots[slot].reading->0;
                    assert forall|k: int| 0 <= k < end - at implies before.read_at(slot)[k]
                        == w.published(at, end)[k] by {
                        law_readers_read_what_was_published(before, slot, at + k);
                    }
                    assert(before.read_at(slot) =~= w.published(at, end));
                    assert(w.published(start, at) + w.published(at, end) =~= w.published(
                        start,
                        end,
                    ));
                },
                _ => {},
            }
        }
    }
}

/// The messages that a cleaner has claimed at once.
pub struct Claim {
    pub from: int,
    pub to: int,
}

impl<T> Square<T> {
    /// What a step claims: the messages that it makes invalid.
    pub open spec fn claimed_by(self, step: Step<T>) -> Option<Claim> {
        match self.after(step) {
            Some(w) => if w.last_valid != self.last_valid {
                Some(Claim { from: self.last_valid, to: w.last_valid })
            } else {
                None
            },
            None => None,
        }
    }

    /// What was claimed by a number of steps, in order.
    pub open spec fn claims(self, taken: Seq<Step<T>>) -> Seq<Claim>
        decreases taken.len(),
    {
        if taken.len() == 0 {
            Seq::empty()
        } else {
            let earlier = self.claims(taken.drop_last());
            match self.after_all(taken.drop_last()) {
                Some(before) => match before.claimed_by(taken.last()) {
                    Some(claim) => earlier.push(claim),
                    None => earlier,
                },
                None => earlier,
            }
        }
    }

    /// The step drops the message of a generation.
    pub open spec fn drops(self, step: Step<T>, generation: int) -> bool {
        &&& step matches Step::Drop { task }
        &&& self.is_task(task)
        &&& self.tasks[task] matches Task::Dropping { at, .. }
        &&& at == generation
    }

    /// How often the message of a generation was dropped by a number of steps.
    pub open spec fn times_dropped(self, taken: Seq<Step<T>>, generation: int) -> int
        decreases taken.len(),
    {
        if taken.len() == 0 {
            0
        } else {
            let earlier = self.times_dropped(taken.drop_last(), generation);
            match self.after_all(taken.drop_last()) {
                Some(before) => if before.drops(taken.last(), generation) {
                    earlier + 1
                } else {
                    earlier
                },
                None => earlier,
            }
        }
    }

    /// Somebody is about to drop the message of this generation.
    pub open spec fn is_being_dropped(self, generation: int) -> bool {
        exists|task: int| #[trigger] self.is_dropped_by(task, generation)
    }
}

/// A claim begins where the one before it has ended; the first one begins at `start`.
pub open spec fn is_adjacent(claims: Seq<Claim>, start: int, i: int) -> bool {
    claims[i].from == (if i == 0 {
        start
    } else {
        claims[i - 1].to
    })
}

/// What cleaners claim follows on what was claimed before, without a gap and without an overlap,
/// whoever cleans up when.
pub proof fn law_claims_are_adjacent<T>(s: Square<T>, taken: Seq<Step<T>>)
    requires
        s.inv(),
        s.after_all(taken) is Some,
    ensures
        ({
            let w = s.after_all(taken)->0;
            let claims = s.claims(taken);
            &&& forall|i: int|
                0 <= i < claims.len() ==> #[trigger] is_adjacent(claims, s.last_valid, i)
                    && claims[i].from < claims[i].to
            &&& w.last_valid == (if claims.len() == 0 {
                s.last_valid
            } else {
                claims.last().to
            })
            &&& w.inv()
        }),
    decreases taken.len(),
{
    if taken.len() > 0 {
        let earlier = taken.drop_last();
        let before = s.after_all(earlier)->0;
        law_claims_are_adjacent(s, earlier);
        law_every_step_keeps_order(before, taken.last());
        assert(before.last_valid <= s.after_all(taken)->0.last_valid) by {
            lemma_claims(before, taken.last());
        }
        match before.claimed_by(taken.last()) {
            Some(claim) => lemma_one_more_claim(s.claims(earlier), s.last_valid, claim),
            None => {},
        }
    }
}

/// A claim that begins where the last one has ended.
proof fn lemma_one_more_claim(claims: Seq<Claim>, start: int, claim: Claim)
    requires
        forall|i: int|
            0 <= i < claims.len() ==> #[trigger] is_adjacent(claims, start, i) && claims[i].from
                < claims[i].to,
        claim.from == (if claims.len() == 0 {
            start
        } else {
            claims.last().to
        }),
        claim.from < claim.to,
    ensures
        ({
            let more = claims.push(claim);
            forall|i: int|
                0 <= i < more.len() ==> #[trigger] is_adjacent(more, start, i) && more[i].from
                    < more[i].to
        }),
{
    let more = claims.push(claim);
    assert forall|i: int| 0 <= i < more.len() implies #[trigger] is_adjacent(more, start, i)
        && more[i].from < more[i].to by {
        if i < claims.len() {
            assert(is_adjacent(claims, start, i));
        }
    }
}

/// Only claiming moves the last valid generation, and only forward; what is claimed is then about
/// to be dropped. Nothing else changes who is about to drop what, but dropping.
proof fn lemma_claims<T>(s: Square<T>, step: Step<T>)
    requires
        s.inv(),
        s.after(step) is Some,
    ensures
        ({
            let w = s.after(step)->0;
            &&& s.last_valid <= w.last_valid
            &&& step !is Drop ==> forall|g: int| #[trigger]
                w.is_being_dropped(g) <==> s.is_being_dropped(g) || s.last_valid <= g
                    < w.last_valid
        }),
{
    let w = s.after(step)->0;
    if step is Claim {
        lemma_claim_is_dropped(s, step->Claim_task);
    } else if step !is Drop {
        assert forall|g: int| #[trigger] w.is_being_dropped(g) implies s.is_being_dropped(g) by {
            let task = choose|task: int| #[trigger] w.is_dropped_by(task, g);
            assert(s.is_dropped_by(task, g));
        }
        assert forall|g: int| s.is_being_dropped(g) implies #[trigger] w.is_being_dropped(g) by {
            let task = choose|task: int| #[trigger] s.is_dropped_by(task, g);
            assert(w.is_dropped_by(task, g));
        }
    }
}

/// What is claimed is about to be dropped.
proof fn lemma_claim_is_dropped<T>(s: Square<T>, cleaner: int)
    requires
        s.inv(),
        s.after_claim(cleaner) is Some,
    ensures
        ({
            let w = s.after_claim(cleaner)->0;
            &&& s.last_valid <= w.last_valid
            &&& forall|g: int| #[trigger]
                w.is_being_dropped(g) <==> s.is_being_dropped(g) || s.last_valid <= g
                    < w.last_valid
        }),
{
    let w = s.after_claim(cleaner)->0;
    match s.tasks[cleaner] {
        Task::Scanning { seen, held, next } => {
            assert(s.task_in_order(s.tasks[cleaner]));
            arithmetics::law_gte_is_the_order_of_counters(seen, held);
            if arithmetics::gen_of(s.last_valid) == arithmetics::gen_of(seen) {
                lemma_same_counter(s.last_valid, seen);
            }
        },
        _ => {},
    }
    assert forall|g: int| #[trigger] w.is_being_dropped(g) <==> s.is_being_dropped(g)
        || s.last_valid <= g < w.last_valid by {
        if w.is_being_dropped(g) {
            let task = choose|task: int| #[trigger] w.is_dropped_by(task, g);
            if task != cleaner {
                assert(s.is_dropped_by(task, g));
            }
        }
        if s.is_being_dropped(g) {
            let task = choose|task: int| #[trigger] s.is_dropped_by(task, g);
            assert(w.is_dropped_by(task, g));
        }
        if s.last_valid <= g < w.last_valid {
            assert(w.is_dropped_by(cleaner, g));
        }
    }
}

/// Dropping a message that is about to be dropped leaves nobody who is about to drop it, and the
/// others as they are.
proof fn lemma_drop_is_done<T>(s: Square<T>, cleaner: int)
    requires
        s.inv(),
        s.after_drop(cleaner) is Some,
    ensures
        ({
            let w = s.after_drop(cleaner)->0;
            &&& w.last_valid == s.last_valid
            &&& forall|g: int| #[trigger]
                w.is_being_dropped(g) <==> s.is_being_dropped(g) && !s.drops(
                    Step::Drop { task: cleaner },
                    g,
                )
            &&& forall|g: int|
                s.drops(Step::Drop { task: cleaner }, g) ==> #[trigger] s.is_being_dropped(g)
        }),
{
    let w = s.after_drop(cleaner)->0;
    let step = Step::<T>::Drop { task: cleaner };
    assert forall|g: int| s.drops(step, g) implies #[trigger] s.is_being_dropped(g) by {
        assert(s.is_dropped_by(cleaner, g));
    }
    assert forall|g: int| #[trigger] w.is_being_dropped(g) <==> s.is_being_dropped(g) && !s.drops(
        step,
        g,
    ) by {
        if w.is_being_dropped(g) {
            let task = choose|task: int| #[trigger] w.is_dropped_by(task, g);
            assert(s.is_dropped_by(task, g));
            if task != cleaner {
                assert(apart(s.tasks[task], s.tasks[cleaner]));
                assert(s.task_in_order(s.tasks[task]));
                assert(s.task_in_order(s.tasks[cleaner]));
            }
        }
        if s.is_being_dropped(g) && !s.drops(step, g) {
            let task = choose|task: int| #[trigger] s.is_dropped_by(task, g);
            assert(w.is_dropped_by(task, g));
        }
    }
}

/// Every message is dropped once: when it is not valid anymore and nobody is about to drop it, it
/// has been dropped exactly once since it was valid, and until then it has not been dropped, whoever
/// does what when.
pub proof fn law_every_message_is_dropped_once<T>(
    s: Square<T>,
    taken: Seq<Step<T>>,
    generation: int,
)
    requires
        s.inv(),
        forall|t: int| 0 <= t < s.tasks.len() ==> #[trigger] s.tasks[t] !is Dropping,
        s.after_all(taken) is Some,
    ensures
        ({
            let w = s.after_all(taken)->0;
            s.times_dropped(taken, generation) == (if s.last_valid <= generation < w.last_valid
                && !w.is_being_dropped(generation) {
                1int
            } else {
                0
            })
        }),
        s.after_all(taken)->0.is_being_dropped(generation) ==> s.last_valid <= generation,
    decreases taken.len(),
{
    let w = s.after_all(taken)->0;
    if taken.len() == 0 {
        assert(!s.is_being_dropped(generation)) by {
            if s.is_being_dropped(generation) {
                let task = choose|task: int| #[trigger] s.is_dropped_by(task, generation);
                assert(s.tasks[task] is Dropping);
            }
        }
    } else {
        let earlier = taken.drop_last();
        let before = s.after_all(earlier)->0;
        let step = taken.last();
        law_every_message_is_dropped_once(s, earlier, generation);
        law_claims_are_adjacent(s, earlier);
        if before.is_being_dropped(generation) {
            lemma_being_dropped_is_invalid(before, generation);
        }
        assert(s.last_valid <= before.last_valid) by {
            lemma_last_valid_grows(s, earlier);
        }
        match step {
            Step::Drop { task } => {
                lemma_drop_is_done(before, task);
                assert(w.is_being_dropped(generation) <==> before.is_being_dropped(generation)
                    && !before.drops(step, generation));
                assert(before.drops(step, generation) ==> before.is_being_dropped(generation));
            },
            _ => {
                lemma_claims(before, step);
                assert(w.is_being_dropped(generation) <==> before.is_being_dropped(generation)
                    || before.last_valid <= generation < w.last_valid);
            },
        }
    }
}

/// The last valid generation only moves forward.
proof fn lemma_last_valid_grows<T>(s: Square<T>, taken: Seq<Step<T>>)
    requires
        s.inv(),
        s.after_all(taken) is Some,
    ensures
        s.last_valid <= s.after_all(taken)->0.last_valid,
    decreases taken.len(),
{
    if taken.len() > 0 {
        let earlier = taken.drop_last();
        lemma_last_valid_grows(s, earlier);
        law_claims_are_adjacent(s, earlier);
        lemma_claims(s.after_all(earlier)->0, taken.last());
    }
}

/// What somebody is about to drop is not valid anymore.
proof fn lemma_being_dropped_is_invalid<T>(s: Square<T>, generation: int)
    requires
        s.inv(),
        s.is_being_dropped(generation),
    ensures
        0 <= generation < s.last_valid,
{
    let task = choose|task: int| #[trigger] s.is_dropped_by(task, generation);
    assert(s.task_in_order(s.tasks[task]));
}

impl<T> Square<T> {
    /// A participant has claimed the message of this generation, and has yet to free its slot.
    pub open spec fn is_freed_by(self, task: int, generation: int) -> bool {
        &&& self.is_task(task)
        &&& self.tasks[task] matches Task::Dropping { from, to, .. } && from <= generation < to
    }

    /// Somebody will free the slot of this generation.
    pub open spec fn will_be_freed(self, generation: int) -> bool {
        exists|task: int| #[trigger] self.is_freed_by(task, generation)
    }

    /// Whatever is not valid anymore and not free yet, somebody will free.
    pub open spec fn is_answered_for(self) -> bool {
        forall|g: int| self.free <= g < self.last_valid ==> #[trigger] self.will_be_freed(g)
    }
}

/// A cleaner that claims messages will free their slots.
proof fn lemma_claim_is_freed<T>(s: Square<T>, cleaner: int)
    requires
        s.inv(),
        s.is_answered_for(),
        s.after_claim(cleaner) is Some,
    ensures
        s.after_claim(cleaner)->0.is_answered_for(),
{
    let w = s.after_claim(cleaner)->0;
    match s.tasks[cleaner] {
        Task::Scanning { seen, held, next } => {
            assert(s.task_in_order(s.tasks[cleaner]));
            arithmetics::law_gte_is_the_order_of_counters(seen, held);
            if arithmetics::gen_of(s.last_valid) == arithmetics::gen_of(seen) {
                lemma_same_counter(s.last_valid, seen);
            }
        },
        _ => {},
    }
    assert forall|g: int| w.free <= g < w.last_valid implies #[trigger] w.will_be_freed(g) by {
        if g < s.last_valid {
            assert(s.will_be_freed(g));
            let task = choose|task: int| #[trigger] s.is_freed_by(task, g);
            assert(w.is_freed_by(task, g));
        } else {
            assert(w.is_freed_by(cleaner, g));
        }
    }
}

/// A cleaner that has freed slots leaves the others to those who have claimed them.
proof fn lemma_free_is_done<T>(s: Square<T>, cleaner: int)
    requires
        s.inv(),
        s.is_answered_for(),
        s.after_free(cleaner) is Some,
    ensures
        s.after_free(cleaner)->0.is_answered_for(),
{
    let w = s.after_free(cleaner)->0;
    match s.tasks[cleaner] {
        Task::Dropping { from, to, at } => {
            assert(s.task_in_order(s.tasks[cleaner]));
            if arithmetics::gen_of(s.free) == arithmetics::gen_of(from) {
                lemma_same_counter(s.free, from);
            }
            assert forall|g: int| w.free <= g < w.last_valid implies #[trigger] w.will_be_freed(
                g,
            ) by {
                assert(s.will_be_freed(g));
                let task = choose|task: int| #[trigger] s.is_freed_by(task, g);
                assert(w.is_freed_by(task, g));
            }
        },
        _ => {},
    }
}

/// Whatever is claimed, somebody will free, whoever does what when: no cleanup waits for nobody.
pub proof fn law_whoever_claims_frees<T>(s: Square<T>, step: Step<T>)
    requires
        s.inv(),
        s.is_answered_for(),
        s.after(step) is Some,
    ensures
        s.after(step)->0.is_answered_for(),
{
    let w = s.after(step)->0;
    match step {
        Step::Claim { task } => lemma_claim_is_freed(s, task),
        Step::Free { task } => lemma_free_is_done(s, task),
        _ => {
            assert forall|g: int| w.free <= g < w.last_valid implies #[trigger] w.will_be_freed(
                g,
            ) by {
                assert(s.will_be_freed(g));
                let task = choose|task: int| #[trigger] s.is_freed_by(task, g);
                assert(w.is_freed_by(task, g));
            }
        },
    }
}

} // verus!
