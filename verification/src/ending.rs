//! What becomes of the messages when everybody leaves at once.
//!
//! Here, the participants of [`crate::tournament`] come and go, and take the steps of
//! [`crate::protocol`] in between. Whoever turns out to be the last one cleans up.
use crate::arithmetics;
use crate::protocol::{self, ReaderSlot, Square, Step, Task};
use crate::tasks::LeaveTask;
use crate::tournament::{self, Crowd, Handle, Kind, Move};
use vstd::prelude::*;

verus! {

/// Who carries out a task.
pub enum Owner {
    Reader(int),
    Writer(int),
}

/// An area, and those who take part in it.
pub struct Whole<T> {
    pub crowd: Crowd,
    pub square: Square<T>,
    /// Who carries out each task of the square; anybody may have any number of them
    pub owners: Seq<Owner>,
}

/// What a participant may do.
pub enum Act<T> {
    /// Take a step in the area.
    Take(Step<T>),
    /// Let somebody in, or leave.
    Make(Move),
}

impl<T> Whole<T> {
    /// An area in which nothing has happened yet, with one writer and one reader.
    pub open spec fn is_new(self) -> bool {
        let s = self.square;
        &&& self.crowd.is_new()
        &&& 0 < s.capacity <= arithmetics::gen_horizon()
        &&& s.buffer == Seq::new(s.capacity, |i: int| None::<T>)
        &&& s.write == 0
        &&& s.read == 0
        &&& s.last_valid == 0
        &&& s.free == 0
        &&& s.log == Seq::<T>::empty()
        &&& s.slots.len() == self.crowd.seats.len()
        &&& forall|i: int|
            0 <= i < s.slots.len() ==> #[trigger] s.slots[i] == (ReaderSlot {
                at: 0,
                suspended: self.crowd.seats[i] is None,
                taken: self.crowd.seats[i] is Some,
                reading: None,
            })
        &&& forall|t: int| 0 <= t < s.tasks.len() ==> #[trigger] s.tasks[t] is Idle
        &&& self.owners.len() == s.tasks.len()
        &&& self.seats_are_unique()
    }

    /// Nobody has two slots.
    pub open spec fn seats_are_unique(self) -> bool {
        forall|i: int, j: int|
            0 <= i < self.crowd.seats.len() && 0 <= j < self.crowd.seats.len()
                && #[trigger] self.crowd.seats[i] is Some && #[trigger] self.crowd.seats[j]
                == self.crowd.seats[i] ==> i == j
    }

    /// The slot of a reader.
    pub open spec fn seat_of(self, reader: int) -> int {
        choose|i: int| 0 <= i < self.crowd.seats.len() && #[trigger] self.crowd.seats[i] == Some(
            reader,
        )
    }

    /// The participant is there, and is not leaving.
    pub open spec fn is_inside(self, owner: Owner) -> bool {
        match owner {
            Owner::Reader(r) => 0 <= r < self.crowd.readers.len() && self.crowd.readers[r]
                is Inside,
            Owner::Writer(w) => 0 <= w < self.crowd.writers.len() && self.crowd.writers[w]
                is Inside,
        }
    }

    /// Who carries out the task is there.
    pub open spec fn works(self, task: int) -> bool {
        0 <= task < self.owners.len() && self.is_inside(self.owners[task])
    }

    /// The reader at a slot is there.
    pub open spec fn sits(self, slot: int) -> bool {
        &&& 0 <= slot < self.crowd.seats.len()
        &&& self.crowd.seats[slot] matches Some(r) && self.is_inside(Owner::Reader(r))
    }

    /// The reader at a slot is about to unregister.
    pub open spec fn is_standing_up(self, slot: int) -> bool {
        &&& 0 <= slot < self.crowd.seats.len()
        &&& self.crowd.seats[slot] matches Some(r) && 0 <= r < self.crowd.readers.len()
            && self.crowd.readers[r] == Handle::Leaving(LeaveTask::Unregistering)
    }

    /// Somebody is there who can take the step. Entering and leaving are part of letting somebody
    /// in and of leaving.
    pub open spec fn may_take(self, step: Step<T>) -> bool {
        match step {
            Step::LoadFree { task } => self.works(task),
            Step::LoadWrite { task, .. } => self.works(task),
            Step::CommitReserve { task } => self.works(task),
            Step::Write { task, .. } => self.works(task),
            Step::Split { task, other, .. } => self.works(task) && self.works(other),
            Step::Publish { task } => self.works(task),
            Step::LoadLast { task } => self.works(task),
            Step::LoadRead { task } => self.works(task),
            Step::Sweep { task } => self.works(task),
            Step::Claim { task } => self.works(task),
            Step::Drop { task } => self.works(task),
            Step::Free { task } => self.works(task),
            Step::Enter { .. } => false,
            Step::Leave { .. } => false,
            Step::Suspend { slot } => self.sits(slot) || self.is_standing_up(slot),
            Step::Resume { slot } => self.sits(slot),
            Step::ResumeAt { slot, .. } => self.sits(slot),
            Step::Advance { slot, .. } => self.sits(slot),
            Step::BeginRead { slot } => self.sits(slot),
            Step::EndRead { slot } => self.sits(slot),
        }
    }

    /// The participant has nothing left to do: it holds no slots, and cleans up nothing.
    pub open spec fn is_done(self, owner: Owner) -> bool {
        forall|t: int|
            0 <= t < self.owners.len() && #[trigger] self.owners[t] == owner
                ==> self.square.tasks[t] is Idle
    }

    /// The reader holds no slice.
    pub open spec fn reads_nothing(self, reader: int) -> bool {
        forall|i: int|
            0 <= i < self.crowd.seats.len() && #[trigger] self.crowd.seats[i] == Some(reader)
                ==> self.square.slots[i].reading is None
    }

    /// Somebody who leaves has nothing left to do.
    pub open spec fn may_make(self, next: Move) -> bool {
        match next {
            Move::LeaveReader { reader } => self.is_done(Owner::Reader(reader))
                && self.reads_nothing(reader),
            Move::LeaveWriter { writer } => self.is_done(Owner::Writer(writer)),
            _ => true,
        }
    }

    /// The step in the area that a move consists of, if there is one: taking a reader slot, and
    /// giving it back.
    pub open spec fn step_of(self, next: Move) -> Option<Step<T>> {
        match next {
            Move::LetReaderIn { seat, .. } => Some(Step::Enter { slot: seat }),
            Move::ReaderStage { reader } => if 0 <= reader < self.crowd.readers.len()
                && self.crowd.readers[reader] == Handle::Leaving(LeaveTask::Unregistering) {
                Some(Step::Leave { slot: self.seat_of(reader) })
            } else {
                None
            },
            _ => None,
        }
    }

    /// What an act makes of all this, if it is possible.
    pub open spec fn after(self, act: Act<T>) -> Option<Self> {
        match act {
            Act::Take(step) => if self.may_take(step) {
                match self.square.after(step) {
                    Some(square) => Some(Whole { square, ..self }),
                    None => None,
                }
            } else {
                None
            },
            Act::Make(next) => if self.may_make(next) {
                match (self.crowd.after(next), self.step_of(next)) {
                    (Some(crowd), Some(step)) => match self.square.after(step) {
                        Some(square) => Some(Whole { crowd, square, ..self }),
                        None => None,
                    },
                    (Some(crowd), None) => Some(Whole { crowd, ..self }),
                    _ => None,
                }
            } else {
                None
            },
        }
    }

    /// What a number of acts make of all this, if each of them is possible.
    pub open spec fn after_all(self, acts: Seq<Act<T>>) -> Option<Self>
        decreases acts.len(),
    {
        if acts.len() == 0 {
            Some(self)
        } else {
            match self.after_all(acts.drop_last()) {
                Some(before) => before.after(acts.last()),
                None => None,
            }
        }
    }

    /// The steps in the area that a number of acts consist of.
    pub open spec fn steps(self, acts: Seq<Act<T>>) -> Seq<Step<T>>
        decreases acts.len(),
    {
        if acts.len() == 0 {
            Seq::empty()
        } else {
            let earlier = self.steps(acts.drop_last());
            match (self.after_all(acts.drop_last()), acts.last()) {
                (Some(_), Act::Take(step)) => earlier.push(step),
                (Some(before), Act::Make(next)) => match before.step_of(next) {
                    Some(step) => earlier.push(step),
                    None => earlier,
                },
                _ => earlier,
            }
        }
    }

    /// A slot is taken if somebody has it, and only who is there reads.
    pub open spec fn slots_in_order(self) -> bool {
        &&& self.square.slots.len() == self.crowd.seats.len()
        &&& forall|i: int|
            0 <= i < self.square.slots.len() ==> (#[trigger] self.square.slots[i]).taken
                == self.crowd.seats[i] is Some
        &&& forall|i: int|
            0 <= i < self.square.slots.len() && (#[trigger] self.square.slots[i]).reading is Some
                ==> self.sits(i)
        &&& self.seats_are_unique()
    }

    /// Only who is there has something to do.
    pub open spec fn tasks_in_order(self) -> bool {
        &&& self.owners.len() == self.square.tasks.len()
        &&& forall|t: int|
            0 <= t < self.square.tasks.len() && #[trigger] self.square.tasks[t] !is Idle
                ==> self.works(t)
    }

    /// Everything is in order.
    pub open spec fn inv(self) -> bool {
        &&& self.crowd.inv()
        &&& self.crowd.is_answered_for()
        &&& self.square.inv()
        &&& self.square.is_answered_for()
        &&& self.slots_in_order()
        &&& self.tasks_in_order()
    }
}

/// What a step changes of the tasks and of the slots.
proof fn lemma_step_is_local<T>(p: Whole<T>, step: Step<T>)
    requires
        p.square.after(step) is Some,
        p.may_take(step),
    ensures
        ({
            let s = p.square;
            let w = s.after(step)->0;
            &&& w.tasks.len() == s.tasks.len()
            &&& w.slots.len() == s.slots.len()
            &&& forall|t: int|
                0 <= t < s.tasks.len() && #[trigger] w.tasks[t] !is Idle ==> s.tasks[t] !is Idle
                    || p.works(t)
            &&& forall|i: int|
                0 <= i < s.slots.len() ==> (#[trigger] w.slots[i]).taken == s.slots[i].taken
            &&& forall|i: int|
                0 <= i < s.slots.len() && (#[trigger] w.slots[i]).reading is Some
                    ==> s.slots[i].reading is Some || p.sits(i)
        }),
{
}

/// Taking a step keeps everything in order.
proof fn lemma_take<T>(p: Whole<T>, step: Step<T>)
    requires
        p.inv(),
        p.after(Act::Take(step)) is Some,
    ensures
        p.after(Act::Take(step))->0.inv(),
{
    let q = p.after(Act::Take(step))->0;
    assert(q.square.inv() && q.square.is_answered_for()) by {
        protocol::law_every_step_keeps_order(p.square, step);
        protocol::law_whoever_claims_frees(p.square, step);
    }
    lemma_step_is_local(p, step);
    assert(q.slots_in_order()) by {
        assert forall|i: int|
            0 <= i < q.square.slots.len() && (
            #[trigger] q.square.slots[i]).reading is Some implies q.sits(i) by {
            if p.square.slots[i].reading is Some {
                assert(p.sits(i));
            }
        }
        assert forall|i: int| 0 <= i < q.square.slots.len() implies (
        #[trigger] q.square.slots[i]).taken == q.crowd.seats[i] is Some by {
            assert(p.square.slots[i].taken == p.crowd.seats[i] is Some);
        }
    }
    assert(q.tasks_in_order()) by {
        assert forall|t: int|
            0 <= t < q.square.tasks.len() && #[trigger] q.square.tasks[t] !is Idle implies q.works(
            t,
        ) by {
            if p.square.tasks[t] !is Idle {
                assert(p.works(t));
            }
        }
    }
}

/// Who is there stays there, but for who begins to leave.
proof fn lemma_insiders<T>(p: Whole<T>, next: Move, owner: Owner)
    requires
        p.crowd.after(next) is Some,
        p.is_inside(owner),
        owner matches Owner::Reader(r) ==> next != (Move::LeaveReader { reader: r }),
        owner matches Owner::Writer(w) ==> next != (Move::LeaveWriter { writer: w }),
    ensures
        (Whole { crowd: p.crowd.after(next)->0, ..p }).is_inside(owner),
{
}

/// Somebody who begins to leave has nothing to do, so that only who is there has.
proof fn lemma_make_tasks<T>(p: Whole<T>, q: Whole<T>, next: Move)
    requires
        p.tasks_in_order(),
        p.may_make(next),
        p.crowd.after(next) == Some(q.crowd),
        q.owners == p.owners,
        q.square.tasks == p.square.tasks,
    ensures
        q.tasks_in_order(),
{
    assert forall|t: int| 0 <= t < q.square.tasks.len() && #[trigger] q.square.tasks[t] !is Idle
        implies q.works(t) by {
        assert(p.square.tasks[t] !is Idle);
        assert(p.works(t));
        let owner = p.owners[t];
        lemma_insiders(p, next, owner);
    }
}

/// A reader is let in at a slot that is not taken.
proof fn lemma_make_enter<T>(p: Whole<T>, by: int, reader: int, seat: int)
    requires
        p.inv(),
        p.after(Act::Make(Move::LetReaderIn { by, reader, seat })) is Some,
    ensures
        p.after(Act::Make(Move::LetReaderIn { by, reader, seat }))->0.slots_in_order(),
{
    let next = Move::LetReaderIn { by, reader, seat };
    let q = p.after(Act::Make(next))->0;
    assert(p.square.slot_in_order(p.square.slots[seat]));
    assert forall|i: int|
        0 <= i < q.square.slots.len() && (
        #[trigger] q.square.slots[i]).reading is Some implies q.sits(i) by {
        assert(i != seat);
        assert(p.square.slots[i].reading is Some);
        assert(p.sits(i));
        lemma_insiders(p, next, Owner::Reader(p.crowd.seats[i]->0));
    }
    assert forall|i: int| 0 <= i < q.square.slots.len() implies (
    #[trigger] q.square.slots[i]).taken == q.crowd.seats[i] is Some by {
        assert(p.square.slots[i].taken == p.crowd.seats[i] is Some);
    }
    assert forall|i: int, j: int|
        0 <= i < q.crowd.seats.len() && 0 <= j < q.crowd.seats.len()
            && #[trigger] q.crowd.seats[i] is Some && #[trigger] q.crowd.seats[j]
            == q.crowd.seats[i] implies i == j by {
        // Who is let in had no slot.
        if i != seat {
            assert(p.crowd.seats[i] != Some(reader));
        }
        if j != seat {
            assert(p.crowd.seats[j] != Some(reader));
        }
    }
}

/// A reader gives its slot back.
proof fn lemma_make_leave<T>(p: Whole<T>, reader: int)
    requires
        p.inv(),
        0 <= reader < p.crowd.readers.len(),
        p.crowd.readers[reader] == Handle::Leaving(LeaveTask::Unregistering),
        p.after(Act::Make(Move::ReaderStage { reader })) is Some,
    ensures
        p.after(Act::Make(Move::ReaderStage { reader }))->0.slots_in_order(),
{
    let next = Move::ReaderStage { reader };
    let q = p.after(Act::Make(next))->0;
    let seat = p.seat_of(reader);
    assert(p.crowd.readers[reader].is_registered());
    assert(p.crowd.has_seat(reader));
    assert(p.crowd.seats[seat] == Some(reader));
    assert(p.square.slot_in_order(p.square.slots[seat]));
    assert(q.crowd.seats == p.crowd.seats_after(reader, LeaveTask::Unregistering));
    assert forall|i: int|
        0 <= i < q.crowd.seats.len() && i != seat implies #[trigger] q.crowd.seats[i]
        == p.crowd.seats[i] by {
        assert(p.crowd.seats[i] != p.crowd.seats[seat]);
    }
    assert forall|i: int|
        0 <= i < q.square.slots.len() && (
        #[trigger] q.square.slots[i]).reading is Some implies q.sits(i) by {
        assert(i != seat);
        assert(p.square.slots[i].reading is Some);
        assert(p.sits(i));
        lemma_insiders(p, next, Owner::Reader(p.crowd.seats[i]->0));
    }
    assert forall|i: int| 0 <= i < q.square.slots.len() implies (
    #[trigger] q.square.slots[i]).taken == q.crowd.seats[i] is Some by {
        assert(p.square.slots[i].taken == p.crowd.seats[i] is Some);
    }
    assert forall|i: int, j: int|
        0 <= i < q.crowd.seats.len() && 0 <= j < q.crowd.seats.len()
            && #[trigger] q.crowd.seats[i] is Some && #[trigger] q.crowd.seats[j]
            == q.crowd.seats[i] implies i == j by {
        assert(p.crowd.seats[i] is Some && p.crowd.seats[j] == p.crowd.seats[i]);
    }
}

/// A move that has nothing to do with the slots.
proof fn lemma_make_other<T>(p: Whole<T>, next: Move)
    requires
        p.inv(),
        p.step_of(next) is None,
        p.after(Act::Make(next)) is Some,
    ensures
        p.after(Act::Make(next))->0.slots_in_order(),
{
    let q = p.after(Act::Make(next))->0;
    assert(q.crowd.seats == p.crowd.seats);
    assert forall|i: int|
        0 <= i < q.square.slots.len() && (
        #[trigger] q.square.slots[i]).reading is Some implies q.sits(i) by {
        assert(p.square.slots[i].reading is Some);
        assert(p.sits(i));
        let reader = p.crowd.seats[i]->0;
        lemma_insiders(p, next, Owner::Reader(reader));
    }
    assert forall|i: int| 0 <= i < q.square.slots.len() implies (
    #[trigger] q.square.slots[i]).taken == q.crowd.seats[i] is Some by {
        assert(p.square.slots[i].taken == p.crowd.seats[i] is Some);
    }
}

/// Letting somebody in, and leaving, keeps everything in order.
proof fn lemma_make<T>(p: Whole<T>, next: Move)
    requires
        p.inv(),
        p.after(Act::Make(next)) is Some,
    ensures
        p.after(Act::Make(next))->0.inv(),
{
    let q = p.after(Act::Make(next))->0;
    assert(q.crowd.inv() && q.crowd.is_answered_for()) by {
        tournament::law_every_move_keeps_order(p.crowd, next);
        tournament::law_somebody_always_answers(p.crowd, next);
    }
    assert(q.square.inv() && q.square.is_answered_for()) by {
        if p.step_of(next) is Some {
            protocol::law_every_step_keeps_order(p.square, p.step_of(next)->0);
            protocol::law_whoever_claims_frees(p.square, p.step_of(next)->0);
        }
    }
    assert(q.tasks_in_order()) by {
        lemma_make_tasks(p, q, next);
    }
    assert(q.slots_in_order()) by {
        match next {
            Move::LetReaderIn { by, reader, seat } => lemma_make_enter(p, by, reader, seat),
            Move::ReaderStage { reader } => if p.step_of(next) is Some {
                lemma_make_leave(p, reader);
            } else {
                lemma_make_other(p, next);
            },
            _ => lemma_make_other(p, next),
        }
    }
}

/// Everything is in order in a new area with one writer and one reader.
pub proof fn law_everything_is_in_order_at_first<T>(p: Whole<T>)
    requires
        p.is_new(),
    ensures
        p.inv(),
{
    tournament::law_new_crowd_is_in_order(p.crowd);
    assert(p.crowd.readers[0].is_of(Kind::Answerable));
    assert(p.crowd.writers[0].is_of(Kind::Answerable));
    assert(p.square.no_jump()) by {
        if usize::BITS == 32 {
            assert(usize::MAX == 0xffff_ffff);
        } else {
            assert(usize::MAX == 0xffff_ffff_ffff_ffff);
        }
    }
    assert forall|g: int| p.square.write <= g < p.square.free
        + p.square.capacity implies #[trigger] p.square.kept(g) is None by {
        vstd::arithmetic::div_mod::lemma_mod_bound(g, p.square.capacity as int);
    }
}

/// Whoever does what when, everything stays in order.
pub proof fn law_every_act_keeps_order<T>(p: Whole<T>, act: Act<T>)
    requires
        p.inv(),
    ensures
        p.after(act) matches Some(q) ==> q.inv(),
{
    if p.after(act) is Some {
        match act {
            Act::Take(step) => lemma_take(p, step),
            Act::Make(next) => lemma_make(p, next),
        }
    }
}

/// Whatever has been done, everything is in order, and the area is what the steps in it have made
/// of it.
pub proof fn law_acts_are_steps<T>(p: Whole<T>, acts: Seq<Act<T>>)
    requires
        p.inv(),
        p.after_all(acts) is Some,
    ensures
        p.after_all(acts)->0.inv(),
        p.square.after_all(p.steps(acts)) == Some(p.after_all(acts)->0.square),
    decreases acts.len(),
{
    if acts.len() > 0 {
        let earlier = acts.drop_last();
        let before = p.after_all(earlier)->0;
        let act = acts.last();
        law_acts_are_steps(p, earlier);
        law_every_act_keeps_order(before, act);
        let step = match act {
            Act::Take(step) => Some(step),
            Act::Make(next) => before.step_of(next),
        };
        if step is Some {
            assert(p.steps(acts).drop_last() =~= p.steps(earlier));
        }
    }
}

/// The step is one of a cleanup by the given task.
pub open spec fn is_cleaning<T>(step: Step<T>, cleaner: int) -> bool {
    match step {
        Step::LoadLast { task } => task == cleaner,
        Step::LoadRead { task } => task == cleaner,
        Step::Sweep { task } => task == cleaner,
        Step::Claim { task } => task == cleaner,
        Step::Drop { task } => task == cleaner,
        Step::Free { task } => task == cleaner,
        _ => false,
    }
}

/// All steps are those of a cleanup by the given task.
pub open spec fn all_cleaning<T>(taken: Seq<Step<T>>, cleaner: int) -> bool {
    forall|i: int| 0 <= i < taken.len() ==> is_cleaning(#[trigger] taken[i], cleaner)
}

/// The same step, a number of times.
spec fn repeated<T>(step: Step<T>, n: nat) -> Seq<Step<T>> {
    Seq::new(n, |i: int| step)
}

/// Taking some steps, and then some more.
proof fn lemma_one_after_the_other<T>(s: Square<T>, first: Seq<Step<T>>, second: Seq<Step<T>>)
    requires
        s.after_all(first) is Some,
    ensures
        s.after_all(first + second) == s.after_all(first)->0.after_all(second),
    decreases second.len(),
{
    if second.len() == 0 {
        assert(first + second =~= first);
    } else {
        lemma_one_after_the_other(s, first, second.drop_last());
        assert((first + second).drop_last() =~= first + second.drop_last());
    }
}

/// Taking one more step.
proof fn lemma_one_more<T>(s: Square<T>, first: Seq<Step<T>>, step: Step<T>)
    requires
        s.after_all(first) is Some,
    ensures
        s.after_all(first.push(step)) == s.after_all(first)->0.after(step),
{
    assert(first.push(step).drop_last() =~= first);
}

/// Nobody is registered: every slot is marked as suspended.
pub open spec fn all_suspended<T>(s: Square<T>) -> bool {
    forall|i: int| 0 <= i < s.slots.len() ==> (#[trigger] s.slots[i]).suspended
}

/// A cleanup, left alone, has been at some of the slots, none of which has a reader.
proof fn lemma_sweep_alone<T>(s: Square<T>, t: int, n: nat)
    requires
        s.inv(),
        s.is_task(t),
        all_suspended(s),
        s.tasks[t] == (Task::Scanning { seen: s.last_valid, held: s.read, next: 0 }),
        n <= s.slots.len(),
    ensures
        ({
            let w = s.after_all(repeated(Step::Sweep { task: t }, n))->0;
            &&& s.after_all(repeated(Step::Sweep { task: t }, n)) is Some
            &&& w.inv()
            &&& all_suspended(w)
            &&& w == (Square {
                slots: w.slots,
                tasks: s.tasks.update(
                    t,
                    Task::Scanning { seen: s.last_valid, held: s.read, next: n as int },
                ),
                ..s
            })
            &&& w.slots.len() == s.slots.len()
        }),
    decreases n,
{
    let step = Step::<T>::Sweep { task: t };
    if n == 0 {
        assert(s.tasks.update(t, s.tasks[t]) =~= s.tasks);
    } else {
        let m = (n - 1) as nat;
        lemma_sweep_alone(s, t, m);
        let before = s.after_all(repeated(step, m))->0;
        let slot = before.slots[m as int];
        assert(repeated(step, n).drop_last() =~= repeated(step, m));
        assert(before.tasks[t] == Task::Scanning {
            seen: s.last_valid,
            held: s.read,
            next: m as int,
        });
        assert(before.is_recent(s.read));
        protocol::lemma_stored(slot);
        assert(before.after(step) is Some);
        protocol::law_every_step_keeps_order(before, step);
        let w = before.after(step)->0;
        assert(w.tasks =~= s.tasks.update(
            t,
            Task::Scanning { seen: s.last_valid, held: s.read, next: n as int },
        ));
    }
}

/// A cleanup, left alone, has dropped some of what it has claimed.
proof fn lemma_drop_alone<T>(s: Square<T>, t: int, from: int, to: int, n: nat)
    requires
        s.inv(),
        s.is_task(t),
        s.tasks[t] == (Task::Dropping { from, to, at: from }),
        n <= to - from,
    ensures
        ({
            let w = s.after_all(repeated(Step::Drop { task: t }, n))->0;
            &&& s.after_all(repeated(Step::Drop { task: t }, n)) is Some
            &&& w.inv()
            &&& w == (Square {
                buffer: w.buffer,
                tasks: s.tasks.update(t, Task::Dropping { from, to, at: from + n }),
                ..s
            })
        }),
    decreases n,
{
    let step = Step::<T>::Drop { task: t };
    if n == 0 {
        assert(s.tasks.update(t, s.tasks[t]) =~= s.tasks);
    } else {
        let m = (n - 1) as nat;
        lemma_drop_alone(s, t, from, to, m);
        let before = s.after_all(repeated(step, m))->0;
        assert(repeated(step, n).drop_last() =~= repeated(step, m));
        assert(before.tasks[t] == Task::Dropping { from, to, at: from + m });
        protocol::law_every_step_keeps_order(before, step);
        let w = before.after(step)->0;
        assert(w.tasks =~= s.tasks.update(t, Task::Dropping { from, to, at: from + n }));
    }
}

/// Where nobody has anything to do, everything that is not valid anymore is free.
proof fn lemma_all_is_freed<T>(s: Square<T>)
    requires
        s.inv(),
        s.is_answered_for(),
        forall|t: int| 0 <= t < s.tasks.len() ==> #[trigger] s.tasks[t] is Idle,
    ensures
        s.free == s.last_valid,
{
    if s.free < s.last_valid {
        assert(s.will_be_freed(s.free));
        let task = choose|task: int| #[trigger] s.is_freed_by(task, s.free);
        assert(s.tasks[task] is Idle);
    }
}

/// A cleanup that looks at the counters first, alone.
proof fn lemma_look_alone<T>(s: Square<T>, t: int) -> (taken: Seq<Step<T>>)
    requires
        s.inv(),
        s.is_task(t),
        s.tasks[t] is Idle,
    ensures
        all_cleaning(taken, t),
        s.after_all(taken) == Some(
            s.with_task(
                t,
                if s.last_valid == s.read {
                    Task::Idle
                } else {
                    Task::Scanning { seen: s.last_valid, held: s.read, next: 0 }
                },
            ),
        ),
{
    let load_last = Step::<T>::LoadLast { task: t };
    let load_read = Step::<T>::LoadRead { task: t };
    let none = Seq::<Step<T>>::empty();
    let saw = s.with_task(t, Task::SawLast { seen: s.last_valid });
    lemma_one_more(s, none, load_last);
    lemma_one_more(s, none.push(load_last), load_read);
    arithmetics::law_gte_is_the_order_of_counters(s.last_valid, s.read);
    assert(saw.tasks[t] == Task::SawLast { seen: s.last_valid });
    assert(s.tasks.update(t, Task::SawLast { seen: s.last_valid }).update(t, Task::Idle)
        =~= s.tasks.update(t, Task::Idle));
    let scanning = Task::Scanning { seen: s.last_valid, held: s.read, next: 0 };
    assert(s.tasks.update(t, Task::SawLast { seen: s.last_valid }).update(t, scanning)
        =~= s.tasks.update(t, scanning));
    none.push(load_last).push(load_read)
}

/// A cleanup, left alone with nobody registered, claims everything that is published.
proof fn lemma_claim_alone<T>(s: Square<T>, t: int)
    requires
        s.inv(),
        s.is_task(t),
        s.last_valid < s.read,
        s.tasks[t] == (Task::Scanning {
            seen: s.last_valid,
            held: s.read,
            next: s.slots.len() as int,
        }),
    ensures
        s.after(Step::Claim { task: t }) == Some(
            (Square { last_valid: s.read, ..s }).with_task(
                t,
                Task::Dropping { from: s.last_valid, to: s.read, at: s.last_valid },
            ),
        ),
{
    arithmetics::law_gte_is_the_order_of_counters(s.last_valid, s.read);
}

/// A cleanup, left alone, drops what it has claimed, and frees the slots.
proof fn lemma_finish_alone<T>(s: Square<T>, t: int) -> (taken: Seq<Step<T>>)
    requires
        s.inv(),
        s.is_task(t),
        s.free == s.last_valid,
        s.last_valid < s.read,
        s.tasks[t] == (Task::Scanning {
            seen: s.last_valid,
            held: s.read,
            next: s.slots.len() as int,
        }),
    ensures
        all_cleaning(taken, t),
        s.after_all(taken) is Some,
        ({
            let w = s.after_all(taken)->0;
            &&& w.inv()
            &&& w == (Square {
                last_valid: s.read,
                free: s.read,
                buffer: w.buffer,
                tasks: s.tasks.update(t, Task::Idle),
                ..s
            })
        }),
{
    let claim = Step::<T>::Claim { task: t };
    let claimed = Seq::<Step<T>>::empty().push(claim);
    lemma_claim_alone(s, t);
    lemma_one_more(s, Seq::empty(), claim);
    let s1 = s.after_all(claimed)->0;
    assert(s1.inv()) by {
        protocol::law_every_step_keeps_order(s, claim);
    }

    let m = (s.read - s.last_valid) as nat;
    let drops = repeated(Step::<T>::Drop { task: t }, m);
    lemma_drop_alone(s1, t, s.last_valid, s.read, m);
    lemma_one_after_the_other(s, claimed, drops);
    let dropped = claimed + drops;
    let s2 = s.after_all(dropped)->0;
    assert(s2.tasks[t] == Task::Dropping { from: s.last_valid, to: s.read, at: s.read });

    let free = Step::<T>::Free { task: t };
    lemma_one_more(s, dropped, free);
    let w = s2.after(free)->0;
    assert(w.inv()) by {
        protocol::law_every_step_keeps_order(s2, free);
    }
    assert(w.tasks =~= s.tasks.update(t, Task::Idle));
    dropped.push(free)
}

/// Where nobody is registered and nobody has anything to do, a cleanup drops every message that is
/// left, from the last valid generation up to the read generation, and frees their slots. It waits
/// for nobody.
pub proof fn law_a_cleanup_alone_drops_everything<T>(s: Square<T>, t: int) -> (taken: Seq<Step<T>>)
    requires
        s.inv(),
        s.is_answered_for(),
        s.is_task(t),
        all_suspended(s),
        forall|i: int| 0 <= i < s.tasks.len() ==> #[trigger] s.tasks[i] is Idle,
    ensures
        all_cleaning(taken, t),
        s.after_all(taken) is Some,
        ({
            let w = s.after_all(taken)->0;
            &&& w.inv()
            &&& w.read == s.read
            &&& w.log == s.log
            &&& w.last_valid == s.read
            &&& w.free == s.read
            &&& forall|i: int| 0 <= i < w.tasks.len() ==> #[trigger] w.tasks[i] is Idle
        }),
{
    let looked = lemma_look_alone(s, t);
    let s1 = s.after_all(looked)->0;
    lemma_all_is_freed(s);
    protocol::law_claims_are_adjacent(s, looked);
    if s.last_valid == s.read {
        looked
    } else {
        let n = s.slots.len();
        let sweeps = repeated(Step::<T>::Sweep { task: t }, n);
        lemma_sweep_alone(s1, t, n);
        lemma_one_after_the_other(s, looked, sweeps);
        let swept = looked + sweeps;
        let s2 = s.after_all(swept)->0;
        assert(s2.tasks[t] == Task::Scanning {
            seen: s.last_valid,
            held: s.read,
            next: n as int,
        });
        let finish = lemma_finish_alone(s2, t);
        lemma_one_after_the_other(s, swept, finish);
        swept + finish
    }
}

/// When all have left, whoever does what when, exactly one of them was told that it was the last
/// one, and nobody can do anything anymore. What that one then does is a cleanup that waits for
/// nobody, and with it every message that was ever published has been dropped exactly once, and
/// nothing else has. Letting somebody in and leaving are no steps that drop anything.
///
/// This does not speak of what [`Crowd::after_reader_stage`] leaves out: that a reader which has
/// overlooked another one comes to the stage while there still are others.
pub proof fn law_when_all_have_left_every_message_was_dropped_once<T>(
    p: Whole<T>,
    acts: Seq<Act<T>>,
    next: Act<T>,
    t: int,
) -> (cleanup: Seq<Step<T>>)
    requires
        p.is_new(),
        p.after_all(acts) is Some,
        p.square.is_task(t),
    ensures
        ({
            let q = p.after_all(acts)->0;
            let ended = q.crowd.ended == 1;
            &&& 0 <= q.crowd.ended <= 1
            &&& ended <==> tournament::all(q.crowd.readers, Kind::Out) && tournament::all(
                q.crowd.writers,
                Kind::Out,
            )
            &&& p.square.after_all(p.steps(acts)) == Some(q.square)
            &&& ended ==> {
                let taken = p.steps(acts) + cleanup;
                let w = p.square.after_all(taken)->0;
                &&& q.after(next) is None
                &&& all_cleaning(cleanup, t)
                &&& p.square.after_all(taken) is Some
                &&& w.log == q.square.log
                &&& w.last_valid == w.log.len()
                &&& forall|g: int| #[trigger]
                    p.square.times_dropped(taken, g) == (if 0 <= g < w.log.len() {
                        1int
                    } else {
                        0
                    })
            }
        }),
{
    let q = p.after_all(acts)->0;
    law_everything_is_in_order_at_first(p);
    law_acts_are_steps(p, acts);
    lemma_out(q);
    if q.crowd.ended == 1 {
        lemma_nobody_acts(q, next);
        lemma_tasks_stay(p, acts);
        let cleanup = law_a_cleanup_alone_drops_everything(q.square, t);
        let taken = p.steps(acts) + cleanup;
        lemma_one_after_the_other(p.square, p.steps(acts), cleanup);
        let w = p.square.after_all(taken)->0;
        lemma_none_being_dropped(w);
        assert forall|g: int| #[trigger]
            p.square.times_dropped(taken, g) == (if 0 <= g < w.log.len() {
                1int
            } else {
                0
            }) by {
            protocol::law_every_message_is_dropped_once(p.square, taken, g);
            assert(!w.is_being_dropped(g));
        }
        cleanup
    } else {
        Seq::empty()
    }
}

/// Where nobody has anything to do, nobody is about to drop anything.
proof fn lemma_none_being_dropped<T>(s: Square<T>)
    requires
        forall|t: int| 0 <= t < s.tasks.len() ==> #[trigger] s.tasks[t] is Idle,
    ensures
        forall|g: int| !#[trigger] s.is_being_dropped(g),
{
    assert forall|g: int| !#[trigger] s.is_being_dropped(g) by {
        if s.is_being_dropped(g) {
            let task = choose|task: int| #[trigger] s.is_dropped_by(task, g);
            assert(s.tasks[task] is Idle);
        }
    }
}

/// It was said that nobody is left if and only if everybody is out. Then no slot is taken, and
/// nobody has anything to do.
proof fn lemma_out<T>(p: Whole<T>)
    requires
        p.inv(),
    ensures
        0 <= p.crowd.ended <= 1,
        p.crowd.ended == 1 <==> tournament::all(p.crowd.readers, Kind::Out) && tournament::all(
            p.crowd.writers,
            Kind::Out,
        ),
        p.crowd.ended == 1 ==> all_suspended(p.square) && forall|t: int|
            0 <= t < p.square.tasks.len() ==> #[trigger] p.square.tasks[t] is Idle,
{
    tournament::lemma_ended_when_all_are_out(p.crowd);
    if p.crowd.ended == 1 {
        assert forall|i: int| 0 <= i < p.square.slots.len() implies (
        #[trigger] p.square.slots[i]).suspended by {
            assert(p.square.slot_in_order(p.square.slots[i]));
            if p.crowd.seats[i] is Some {
                let r = p.crowd.seats[i]->0;
                assert(p.crowd.readers[r].is_of(Kind::Out));
            }
        }
        assert forall|t: int| 0 <= t < p.square.tasks.len() implies #[trigger] p.square.tasks[t]
            is Idle by {
            if p.square.tasks[t] !is Idle {
                assert(p.works(t));
                match p.owners[t] {
                    Owner::Reader(r) => assert(p.crowd.readers[r].is_of(Kind::Out)),
                    Owner::Writer(w) => assert(p.crowd.writers[w].is_of(Kind::Out)),
                }
            }
        }
    }
}

/// Where everybody is out, nobody can do anything.
proof fn lemma_nobody_acts<T>(p: Whole<T>, act: Act<T>)
    requires
        p.inv(),
        tournament::all(p.crowd.readers, Kind::Out),
        tournament::all(p.crowd.writers, Kind::Out),
    ensures
        p.after(act) is None,
{
    assert forall|owner: Owner| !#[trigger] p.is_inside(owner) by {
        if p.is_inside(owner) {
            match owner {
                Owner::Reader(r) => assert(p.crowd.readers[r].is_of(Kind::Out)),
                Owner::Writer(w) => assert(p.crowd.writers[w].is_of(Kind::Out)),
            }
        }
    }
    assert forall|slot: int| !#[trigger] p.is_standing_up(slot) by {
        if p.is_standing_up(slot) {
            let r = p.crowd.seats[slot]->0;
            assert(p.crowd.readers[r].is_of(Kind::Out));
        }
    }
    match act {
        Act::Take(step) => {},
        Act::Make(next) => tournament::lemma_nothing_can_happen(p.crowd, next),
    }
}

/// The number of tasks stays the same.
proof fn lemma_tasks_stay<T>(p: Whole<T>, acts: Seq<Act<T>>)
    requires
        p.inv(),
        p.after_all(acts) is Some,
    ensures
        p.after_all(acts)->0.square.tasks.len() == p.square.tasks.len(),
    decreases acts.len(),
{
    if acts.len() > 0 {
        let earlier = acts.drop_last();
        lemma_tasks_stay(p, earlier);
    }
}

} // verus!
