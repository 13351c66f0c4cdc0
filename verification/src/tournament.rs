//! Who is the last one to leave, when everybody may leave at once.
//!
//! Writers and readers leave by the stages of [`crate::tasks::LeaveTask`]. Here, any number of them
//! take those stages in any order, while others are still being let in. One outcome of a race is left
//! out: see [`Crowd::after_reader_stage`].
use crate::tasks::{self, Event, LeaveTask};
use vstd::prelude::*;

verus! {

/// Somebody who may take part in an area.
pub enum Handle {
    /// They have not been let in.
    Outside,
    /// They are there.
    Inside,
    /// They are leaving, or have left.
    Leaving(LeaveTask),
}

/// The participants of an area, and what they leave by.
pub struct Crowd {
    pub readers: Seq<Handle>,
    pub writers: Seq<Handle>,
    /// The reader slots, and who is registered there
    pub seats: Seq<Option<int>>,
    pub writers_count: int,
    pub keep_alloc_tickets: int,
    pub stage_tickets: int,
    pub destroy_stages: int,
    /// A reader has taken the readers' stage
    pub readers_gone: bool,
    /// A writer has taken the writers' stage
    pub writers_gone: bool,
    /// A reader has stopped waiting although another one is registered, which it has overlooked
    pub overlooked: bool,
    /// How often it was said that nobody is left
    pub ended: int,
}

/// What a participant may do.
pub enum Move {
    /// A reader lets another one in, at a slot that is not taken.
    LetReaderIn { by: int, reader: int, seat: int },
    /// A writer lets another one in.
    LetWriterIn { by: int, writer: int },
    /// A reader begins to leave.
    LeaveReader { reader: int },
    /// A writer begins to leave.
    LeaveWriter { writer: int },
    /// A reader that leaves does what its stage asks for.
    ReaderStage { reader: int },
    /// A writer that leaves does what its stage asks for.
    WriterStage { writer: int },
}

impl Handle {
    /// The reader is registered.
    pub open spec fn is_registered(self) -> bool {
        match self {
            Handle::Inside => true,
            Handle::Leaving(LeaveTask::Entering) => true,
            Handle::Leaving(LeaveTask::Unregistering) => true,
            _ => false,
        }
    }

    /// The reader has a keep-alloc ticket.
    pub open spec fn keeps(self) -> bool {
        match self {
            Handle::Leaving(LeaveTask::Unregistering) => true,
            Handle::Leaving(LeaveTask::LookingAround { .. }) => true,
            Handle::Leaving(LeaveTask::Applying) => true,
            Handle::Leaving(LeaveTask::Releasing { .. }) => true,
            _ => false,
        }
    }

    /// The reader has a stage ticket.
    pub open spec fn competes(self) -> bool {
        match self {
            Handle::Leaving(LeaveTask::Releasing { competing }) => competing,
            Handle::Leaving(LeaveTask::Waiting) => true,
            Handle::Leaving(LeaveTask::Competing) => true,
            _ => false,
        }
    }

    /// The reader has seen no other one.
    pub open spec fn is_closing(self) -> bool {
        match self {
            Handle::Leaving(LeaveTask::Applying) => true,
            Handle::Leaving(LeaveTask::Releasing { competing }) => competing,
            Handle::Leaving(LeaveTask::Waiting) => true,
            Handle::Leaving(LeaveTask::Competing) => true,
            Handle::Leaving(LeaveTask::Staging) => true,
            _ => false,
        }
    }

    /// The reader has seen that nobody was registered at a slot, and has gone on.
    pub open spec fn has_looked_at(self, seat: int) -> bool {
        match self {
            Handle::Leaving(LeaveTask::LookingAround { index }) => seat < index,
            _ => self.is_closing(),
        }
    }

    /// The reader has seen that there are no keep-alloc tickets anymore.
    pub open spec fn is_competing(self) -> bool {
        match self {
            Handle::Leaving(LeaveTask::Competing) => true,
            Handle::Leaving(LeaveTask::Staging) => true,
            _ => false,
        }
    }

    /// The participant has nothing to do with the area: not yet, or not anymore.
    pub open spec fn is_out(self) -> bool {
        match self {
            Handle::Outside => true,
            Handle::Leaving(LeaveTask::Ended { .. }) => true,
            _ => false,
        }
    }

    /// The writer is counted.
    pub open spec fn is_counted(self) -> bool {
        match self {
            Handle::Inside => true,
            Handle::Leaving(LeaveTask::LeavingWriters) => true,
            _ => false,
        }
    }

    /// The participant is there, or has yet to find out whether they are the last one.
    pub open spec fn is_answerable(self) -> bool {
        match self {
            Handle::Leaving(LeaveTask::LookingAround { .. }) => true,
            Handle::Leaving(LeaveTask::LeavingWriters) => true,
            _ => self.is_registered() || self.is_closing(),
        }
    }

    /// The participant is at one of the stages of readers, or has not left.
    pub open spec fn is_reader(self) -> bool {
        self != Handle::Leaving(LeaveTask::LeavingWriters)
    }

    /// The participant is at one of the stages of writers, or has not left.
    pub open spec fn is_writer(self) -> bool {
        match self {
            Handle::Leaving(LeaveTask::LeavingWriters) => true,
            Handle::Leaving(LeaveTask::Staging) => true,
            Handle::Leaving(LeaveTask::Ended { .. }) => true,
            Handle::Leaving(_) => false,
            _ => true,
        }
    }
}

/// A kind of participants.
pub enum Kind {
    /// They are registered.
    Registered,
    /// They have a keep-alloc ticket.
    Keeps,
    /// They have a stage ticket.
    Competes,
    /// They have seen that there are no keep-alloc tickets anymore.
    Competing,
    /// They have nothing to do with the area.
    Out,
    /// They are counted as writers.
    Counted,
    /// They will see to it that the last one says so.
    Answerable,
    /// They are at one of the stages of readers, or have not left.
    Reader,
    /// They are at one of the stages of writers, or have not left.
    Writer,
}

impl Handle {
    /// The participant is of a kind.
    pub open spec fn is_of(self, kind: Kind) -> bool {
        match kind {
            Kind::Registered => self.is_registered(),
            Kind::Keeps => self.keeps(),
            Kind::Competes => self.competes(),
            Kind::Competing => self.is_competing(),
            Kind::Out => self.is_out(),
            Kind::Counted => self.is_counted(),
            Kind::Answerable => self.is_answerable(),
            Kind::Reader => self.is_reader(),
            Kind::Writer => self.is_writer(),
        }
    }
}

/// The number of participants of some kind.
pub open spec fn count(handles: Seq<Handle>, kind: Kind) -> int
    decreases handles.len(),
{
    if handles.len() == 0 {
        0
    } else {
        count(handles.drop_last(), kind) + (if handles.last().is_of(kind) {
            1int
        } else {
            0
        })
    }
}

proof fn lemma_count_update(
    handles: Seq<Handle>,
    i: int,
    now: Handle,
    kind: Kind,
)
    requires
        0 <= i < handles.len(),
    ensures
        count(handles.update(i, now), kind) == count(handles, kind) - (if handles[i].is_of(kind) {
            1int
        } else {
            0
        }) + (if now.is_of(kind) {
            1int
        } else {
            0
        }),
    decreases handles.len(),
{
    let changed = handles.update(i, now);
    if i == handles.len() - 1 {
        assert(changed.drop_last() =~= handles.drop_last());
    } else {
        lemma_count_update(handles.drop_last(), i, now, kind);
        assert(changed.drop_last() =~= handles.drop_last().update(i, now));
    }
}

/// There are as many participants of a kind as there are, at least if one of them is of it.
proof fn lemma_count_bounds(handles: Seq<Handle>, kind: Kind)
    ensures
        0 <= count(handles, kind) <= handles.len(),
        count(handles, kind) == 0 <==> forall|i: int|
            0 <= i < handles.len() ==> !(#[trigger] handles[i]).is_of(kind),
    decreases handles.len(),
{
    if handles.len() > 0 {
        let fewer = handles.drop_last();
        lemma_count_bounds(fewer, kind);
        if count(handles, kind) == 0 {
            assert forall|i: int| 0 <= i < handles.len() implies !(#[trigger] handles[i]).is_of(kind) by {
                if i < fewer.len() {
                    assert(handles[i] == fewer[i]);
                }
            }
        } else if count(fewer, kind) > 0 {
            let i = choose|i: int| 0 <= i < fewer.len() && (#[trigger] fewer[i]).is_of(kind);
            assert(handles[i].is_of(kind));
        } else {
            assert(handles[handles.len() - 1].is_of(kind));
        }
    }
}

/// Nobody is of a kind.
pub open spec fn none(handles: Seq<Handle>, kind: Kind) -> bool {
    forall|i: int| 0 <= i < handles.len() ==> !(#[trigger] handles[i]).is_of(kind)
}

/// Everybody is of a kind.
pub open spec fn all(handles: Seq<Handle>, kind: Kind) -> bool {
    forall|i: int| 0 <= i < handles.len() ==> (#[trigger] handles[i]).is_of(kind)
}

impl Crowd {
    /// One writer and one reader are there, and nobody else.
    pub open spec fn is_new(self) -> bool {
        &&& self.readers.len() > 0
        &&& self.writers.len() > 0
        &&& self.readers.len() <= u64::MAX
        &&& self.writers.len() <= u64::MAX
        &&& self.seats.len() <= usize::MAX
        &&& self.readers[0] is Inside
        &&& self.writers[0] is Inside
        &&& forall|i: int| 0 < i < self.readers.len() ==> #[trigger] self.readers[i] is Outside
        &&& forall|i: int| 0 < i < self.writers.len() ==> #[trigger] self.writers[i] is Outside
        &&& exists|i: int| 0 <= i < self.seats.len() && #[trigger] self.seats[i] == Some(0int)
        &&& forall|i: int|
            0 <= i < self.seats.len() ==> #[trigger] self.seats[i] == Some(0int) || self.seats[i]
                is None
        &&& self.writers_count == 1
        &&& self.keep_alloc_tickets == 0
        &&& self.stage_tickets == 0
        &&& self.destroy_stages == 2
        &&& !self.readers_gone
        &&& !self.writers_gone
        &&& !self.overlooked
        &&& self.ended == 0
    }

    /// Nobody is registered.
    pub open spec fn no_seat_is_taken(self) -> bool {
        forall|i: int| 0 <= i < self.seats.len() ==> #[trigger] self.seats[i] is None
    }

    /// Where a reader that leaves has seen nobody, there still is nobody.
    pub open spec fn nobody_is_behind(self) -> bool {
        forall|r: int, seat: int|
            0 <= r < self.readers.len() && 0 <= seat < self.seats.len()
                && #[trigger] self.readers[r].has_looked_at(seat) ==> self.seats[seat] is None
    }

    /// Somebody is let in where a reader that leaves has seen nobody.
    pub open spec fn lets_in_behind(self, next: Move) -> bool {
        &&& next matches Move::LetReaderIn { seat, .. }
        &&& exists|r: int|
            0 <= r < self.readers.len() && #[trigger] self.readers[r].has_looked_at(seat)
    }

    /// Somebody was let in where a reader that leaves had seen nobody.
    pub open spec fn has_let_in_behind(self, made: Seq<Move>) -> bool
        decreases made.len(),
    {
        made.len() > 0 && {
            ||| self.has_let_in_behind(made.drop_last())
            ||| self.after_all(made.drop_last())->0.lets_in_behind(made.last())
        }
    }

    /// What a move makes of the crowd, if it can be made.
    pub open spec fn after(self, next: Move) -> Option<Self> {
        match next {
            Move::LetReaderIn { by, reader, seat } => self.after_let_reader_in(by, reader, seat),
            Move::LetWriterIn { by, writer } => self.after_let_writer_in(by, writer),
            Move::LeaveReader { reader } => if 0 <= reader < self.readers.len()
                && self.readers[reader] is Inside {
                Some(self.with_reader(reader, LeaveTask::Entering))
            } else {
                None
            },
            Move::LeaveWriter { writer } => if 0 <= writer < self.writers.len()
                && self.writers[writer] is Inside {
                Some(self.with_writer(writer, LeaveTask::LeavingWriters))
            } else {
                None
            },
            Move::ReaderStage { reader } => if 0 <= reader < self.readers.len() {
                match self.readers[reader] {
                    Handle::Leaving(task) => self.after_reader_stage(reader, task),
                    _ => None,
                }
            } else {
                None
            },
            Move::WriterStage { writer } => if 0 <= writer < self.writers.len() {
                match self.writers[writer] {
                    Handle::Leaving(task) => self.after_writer_stage(writer, task),
                    _ => None,
                }
            } else {
                None
            },
        }
    }

    pub open spec fn with_reader(self, reader: int, task: LeaveTask) -> Self {
        Crowd { readers: self.readers.update(reader, Handle::Leaving(task)), ..self }
    }

    pub open spec fn with_writer(self, writer: int, task: LeaveTask) -> Self {
        Crowd { writers: self.writers.update(writer, Handle::Leaving(task)), ..self }
    }

    /// A reader lets another one in.
    pub open spec fn after_let_reader_in(self, by: int, reader: int, seat: int) -> Option<Self> {
        if 0 <= by < self.readers.len() && self.readers[by] is Inside && 0 <= reader
            < self.readers.len() && self.readers[reader] is Outside && 0 <= seat < self.seats.len()
            && self.seats[seat] is None {
            Some(
                Crowd {
                    readers: self.readers.update(reader, Handle::Inside),
                    seats: self.seats.update(seat, Some(reader)),
                    ..self
                },
            )
        } else {
            None
        }
    }

    /// A writer lets another one in.
    pub open spec fn after_let_writer_in(self, by: int, writer: int) -> Option<Self> {
        if 0 <= by < self.writers.len() && self.writers[by] is Inside && 0 <= writer
            < self.writers.len() && self.writers[writer] is Outside {
            Some(
                Crowd {
                    writers: self.writers.update(writer, Handle::Inside),
                    writers_count: self.writers_count + 1,
                    ..self
                },
            )
        } else {
            None
        }
    }

    /// What comes of doing what a stage asks for.
    pub open spec fn event(self, task: LeaveTask) -> Event {
        match task {
            LeaveTask::LeavingWriters => Event::Loaded(self.writers_count as u64),
            LeaveTask::LookingAround { index } => Event::Loaded(
                if self.seats[index as int] is None {
                    crate::map::EMPTY
                } else {
                    1
                },
            ),
            LeaveTask::Waiting => Event::Loaded(self.keep_alloc_tickets as u64),
            LeaveTask::Competing => Event::Loaded(self.stage_tickets as u64),
            LeaveTask::Staging => Event::Loaded(self.destroy_stages as u64),
            _ => Event::Done,
        }
    }

    /// The stage that comes next.
    pub open spec fn stage_after(self, task: LeaveTask) -> LeaveTask {
        tasks::leave_next(self.seats.len() as usize, task, self.event(task))
    }

    /// One more has said that nobody is left, or has not.
    pub open spec fn ended_after(self, task: LeaveTask) -> int {
        self.ended + (if self.stage_after(task) == (LeaveTask::Ended { last: true }) {
            1int
        } else {
            0
        })
    }

    /// A reader is registered, or has yet to give its keep-alloc ticket back.
    pub open spec fn readers_are_there(self) -> bool {
        !self.no_seat_is_taken() || self.keep_alloc_tickets > 0
    }

    /// The reader stops waiting although another one is registered.
    pub open spec fn overlooks(self, task: LeaveTask) -> bool {
        &&& task is Waiting
        &&& self.stage_after(task) is Competing
        &&& !self.no_seat_is_taken()
    }

    /// A reader that leaves does what its stage asks for.
    ///
    /// Looking around takes one slot after the other. So a reader may overlook one that was let in
    /// behind it, by one that has left its own slot ahead of it since. This does no harm if the one
    /// that was overlooked comes to compete as well. What is left out is that it does harm: that a
    /// reader comes to the readers' stage while there still are others, after somebody was
    /// overlooked. Where nobody is let in behind a reader that leaves, nothing is left out: see
    /// [`law_only_who_is_let_in_behind_is_overlooked`].
    pub open spec fn after_reader_stage(self, reader: int, task: LeaveTask) -> Option<Self> {
        let now = self.stage_after(task);
        let moved = Crowd {
            overlooked: self.overlooked || self.overlooks(task),
            ..self.with_reader(reader, now)
        };
        if task is Ended || self.overlooked && task is Competing && now is Staging
            && self.readers_are_there() {
            None
        } else {
            Some(
                match task {
                    LeaveTask::Entering => Crowd {
                        keep_alloc_tickets: self.keep_alloc_tickets + 1,
                        ..moved
                    },
                    LeaveTask::Unregistering => Crowd {
                        seats: self.seats_after(reader, task),
                        ..moved
                    },
                    LeaveTask::Applying => Crowd { stage_tickets: self.stage_tickets + 1, ..moved },
                    LeaveTask::Releasing { .. } => Crowd {
                        keep_alloc_tickets: self.keep_alloc_tickets - 1,
                        ..moved
                    },
                    LeaveTask::Competing => Crowd {
                        stage_tickets: self.stage_tickets - 1,
                        ..moved
                    },
                    LeaveTask::Staging => Crowd {
                        destroy_stages: self.destroy_stages - 1,
                        readers_gone: true,
                        ended: self.ended_after(task),
                        ..moved
                    },
                    _ => moved,
                },
            )
        }
    }

    /// Who is registered after a reader has done what its stage asks for.
    pub open spec fn seats_after(self, reader: int, task: LeaveTask) -> Seq<Option<int>> {
        if task is Unregistering {
            Seq::new(
                self.seats.len(),
                |i: int|
                    if self.seats[i] == Some(reader) {
                        None
                    } else {
                        self.seats[i]
                    },
            )
        } else {
            self.seats
        }
    }

    /// A writer that leaves does what its stage asks for.
    pub open spec fn after_writer_stage(self, writer: int, task: LeaveTask) -> Option<Self> {
        let moved = self.with_writer(writer, self.stage_after(task));
        match task {
            LeaveTask::LeavingWriters => Some(
                Crowd { writers_count: self.writers_count - 1, ..moved },
            ),
            LeaveTask::Staging => Some(
                Crowd {
                    destroy_stages: self.destroy_stages - 1,
                    writers_gone: true,
                    ended: self.ended_after(task),
                    ..moved
                },
            ),
            _ => None,
        }
    }

    /// Everybody who is registered has a slot, and nobody else has; and who looks around looks at
    /// slots that there are.
    pub open spec fn seats_in_order(self) -> bool {
        &&& forall|r: int|
            0 <= r < self.readers.len() ==> (#[trigger] self.readers[r] matches Handle::Leaving(
                LeaveTask::LookingAround { index },
            ) ==> index < self.seats.len())
        &&& forall|i: int|
            0 <= i < self.seats.len() ==> (#[trigger] self.seats[i] matches Some(r) ==> 0 <= r
                < self.readers.len() && self.readers[r].is_registered())
        &&& forall|r: int|
            0 <= r < self.readers.len() && (#[trigger] self.readers[r]).is_registered()
                ==> self.has_seat(r)
    }

    /// The reader has a slot.
    pub open spec fn has_seat(self, reader: int) -> bool {
        exists|i: int| 0 <= i < self.seats.len() && #[trigger] self.seats[i] == Some(reader)
    }

    /// The tickets are with those who should have them.
    pub open spec fn tickets_in_order(self) -> bool {
        &&& self.readers.len() <= u64::MAX
        &&& self.writers.len() <= u64::MAX
        &&& self.seats.len() <= usize::MAX
        &&& self.keep_alloc_tickets == count(self.readers, Kind::Keeps)
        &&& self.stage_tickets == count(self.readers, Kind::Competes)
        &&& self.writers_count == count(self.writers, Kind::Counted)
        &&& self.destroy_stages == (if self.readers_gone {
            0int
        } else {
            1
        }) + (if self.writers_gone {
            0int
        } else {
            1
        })
        &&& self.ended == (if self.destroy_stages == 0 {
            1int
        } else {
            0
        })
    }

    /// Once a reader has stopped waiting, nobody is registered and nobody has a keep-alloc ticket
    /// anymore, unless somebody was overlooked; and only the very last one takes the stage.
    pub open spec fn readers_in_order(self) -> bool {
        &&& all(self.readers, Kind::Reader)
        &&& self.overlooked || none(self.readers, Kind::Competing) || none(
            self.readers,
            Kind::Registered,
        ) && none(self.readers, Kind::Keeps)
        &&& forall|r: int|
            0 <= r < self.readers.len() && #[trigger] self.readers[r] == Handle::Leaving(
                LeaveTask::Staging,
            ) ==> !self.readers_gone && self.others_are_out(self.readers, r)
        &&& self.readers_gone ==> all(self.readers, Kind::Out)
    }

    /// Only the very last writer takes the stage.
    pub open spec fn writers_in_order(self) -> bool {
        &&& all(self.writers, Kind::Writer)
        &&& forall|w: int|
            0 <= w < self.writers.len() && #[trigger] self.writers[w] == Handle::Leaving(
                LeaveTask::Staging,
            ) ==> !self.writers_gone && self.others_are_out(self.writers, w)
        &&& self.writers_gone ==> all(self.writers, Kind::Out)
    }

    /// Everybody but one is out.
    pub open spec fn others_are_out(self, handles: Seq<Handle>, one: int) -> bool {
        forall|i: int| 0 <= i < handles.len() && i != one ==> (#[trigger] handles[i]).is_out()
    }

    /// Everything is in order.
    pub open spec fn inv(self) -> bool {
        &&& self.seats_in_order()
        &&& self.tickets_in_order()
        &&& self.readers_in_order()
        &&& self.writers_in_order()
    }
}

/// One reader changes: what becomes of the tickets of readers.
proof fn lemma_reader_changes(s: Crowd, reader: int, now: Handle)
    requires
        0 <= reader < s.readers.len(),
    ensures
        count(s.readers.update(reader, now), Kind::Keeps) == count(s.readers, Kind::Keeps) - (
        if s.readers[reader].keeps() {
            1int
        } else {
            0
        }) + (if now.keeps() {
            1int
        } else {
            0
        }),
        count(s.readers.update(reader, now), Kind::Competes) == count(s.readers, Kind::Competes) - (
        if s.readers[reader].competes() {
            1int
        } else {
            0
        }) + (if now.competes() {
            1int
        } else {
            0
        }),
{
    lemma_count_update(s.readers, reader, now, Kind::Keeps);
    lemma_count_update(s.readers, reader, now, Kind::Competes);
}

/// A reader lets another one in.
proof fn lemma_let_reader_in(s: Crowd, by: int, reader: int, seat: int)
    requires
        s.inv(),
    ensures
        s.after_let_reader_in(by, reader, seat) matches Some(w) ==> w.inv(),
{
    if s.after_let_reader_in(by, reader, seat) is Some {
        let w = s.after_let_reader_in(by, reader, seat)->0;
        assert(s.readers[by].is_of(Kind::Registered));
        lemma_reader_changes(s, reader, Handle::Inside);
        assert(!s.readers[by].is_of(Kind::Out));
        assert forall|r: int|
            0 <= r < w.readers.len() && (#[trigger] w.readers[r]).is_registered() implies w.has_seat(
            r,
        ) by {
            if r == reader {
                assert(w.seats[seat] == Some(reader));
            } else {
                assert(s.readers[r].is_registered());
                let i = choose|i: int| 0 <= i < s.seats.len() && #[trigger] s.seats[i] == Some(r);
                assert(w.seats[i] == Some(r));
            }
        }
        assert forall|i: int| 0 <= i < w.seats.len() implies (#[trigger] w.seats[i] matches Some(r)
            ==> 0 <= r < w.readers.len() && w.readers[r].is_registered()) by {
            if i != seat {
                assert(s.seats[i] == w.seats[i]);
            }
        }
        if !w.overlooked {
            assert forall|i: int| 0 <= i < w.readers.len() implies !(
            #[trigger] w.readers[i]).is_of(Kind::Competing) by {
                assert(!s.readers[i].is_of(Kind::Competing));
            }
        }
        assert(all(w.readers, Kind::Reader)) by {
            assert forall|i: int| 0 <= i < w.readers.len() implies (
            #[trigger] w.readers[i]).is_of(Kind::Reader) by {
                assert(s.readers[i].is_of(Kind::Reader));
            }
        }
        assert forall|r: int|
            0 <= r < w.readers.len() && #[trigger] w.readers[r] == Handle::Leaving(
                LeaveTask::Staging,
            ) implies !w.readers_gone && w.others_are_out(w.readers, r) by {
            assert(s.readers[r] == Handle::Leaving(LeaveTask::Staging));
            assert(s.readers[by].is_out());
        }
    }
}

/// A reader that leaves goes on to another stage, with the tickets and the slots that go with it.
proof fn lemma_reader_moves(s: Crowd, w: Crowd, reader: int, now: Handle)
    requires
        s.inv(),
        0 <= reader < s.readers.len(),
        w.readers == s.readers.update(reader, now),
        w.writers == s.writers,
        w.writers_count == s.writers_count,
        w.destroy_stages == s.destroy_stages,
        w.readers_gone == s.readers_gone,
        w.writers_gone == s.writers_gone,
        w.ended == s.ended,
        w.seats.len() == s.seats.len(),
        now.is_reader(),
        !s.readers[reader].is_out(),
        w.seats_in_order(),
        w.keep_alloc_tickets == s.keep_alloc_tickets - (if s.readers[reader].keeps() {
            1int
        } else {
            0
        }) + (if now.keeps() {
            1int
        } else {
            0
        }),
        w.stage_tickets == s.stage_tickets - (if s.readers[reader].competes() {
            1int
        } else {
            0
        }) + (if now.competes() {
            1int
        } else {
            0
        }),
        now.is_registered() ==> s.readers[reader].is_registered(),
        now.keeps() && !s.readers[reader].keeps() ==> s.readers[reader].is_registered(),
        s.overlooked ==> w.overlooked,
        now.is_competing() && !s.readers[reader].is_competing() ==> w.overlooked || none(
            w.readers,
            Kind::Registered,
        ) && none(w.readers, Kind::Keeps),
        now == Handle::Leaving(LeaveTask::Staging) ==> w.others_are_out(w.readers, reader),
        s.readers[reader] != Handle::Leaving(LeaveTask::Staging),
    ensures
        w.inv(),
{
    lemma_reader_changes(s, reader, now);
    assert(!s.readers[reader].is_of(Kind::Out));
    assert(all(w.readers, Kind::Reader)) by {
        assert forall|i: int| 0 <= i < w.readers.len() implies (#[trigger] w.readers[i]).is_of(
            Kind::Reader,
        ) by {
            assert(s.readers[i].is_of(Kind::Reader));
        }
    }
    if !w.overlooked && !none(w.readers, Kind::Competing) && s.readers[reader].is_competing()
        == now.is_competing() {
        let c = choose|i: int|
            0 <= i < w.readers.len() && (#[trigger] w.readers[i]).is_of(Kind::Competing);
        assert(s.readers[c].is_of(Kind::Competing));
        assert forall|i: int| 0 <= i < w.readers.len() implies !(#[trigger] w.readers[i]).is_of(
            Kind::Registered,
        ) && !w.readers[i].is_of(Kind::Keeps) by {
            assert(!s.readers[i].is_of(Kind::Registered));
            assert(!s.readers[i].is_of(Kind::Keeps));
        }
    }
    assert forall|r: int|
        0 <= r < w.readers.len() && #[trigger] w.readers[r] == Handle::Leaving(
            LeaveTask::Staging,
        ) implies !w.readers_gone && w.others_are_out(w.readers, r) by {
        if r != reader {
            assert(s.readers[r] == Handle::Leaving(LeaveTask::Staging));
            assert(s.readers[reader].is_out());
        }
    }
}

/// A reader that leaves does what its stage asks for, up to where it may take the stage.
proof fn lemma_reader_stage(s: Crowd, reader: int, task: LeaveTask)
    requires
        s.inv(),
        0 <= reader < s.readers.len(),
        s.readers[reader] == Handle::Leaving(task),
        task !is Staging,
    ensures
        s.after_reader_stage(reader, task) matches Some(w) ==> w.inv(),
{
    if s.after_reader_stage(reader, task) is Some {
        let w = s.after_reader_stage(reader, task)->0;
        let now = Handle::Leaving(s.stage_after(task));
        assert(s.readers[reader].is_of(Kind::Reader));
        lemma_reader_changes(s, reader, now);
        lemma_count_bounds(s.readers, Kind::Keeps);
        lemma_count_bounds(s.readers, Kind::Competes);
        lemma_count_bounds(w.readers, Kind::Competes);
        assert(w.seats_in_order()) by {
            lemma_seats_stay(s, reader, task);
        }
        if now == Handle::Leaving(LeaveTask::Competing) && task is Waiting
            && s.no_seat_is_taken() {
            assert forall|r: int| 0 <= r < w.readers.len() implies !(
            #[trigger] w.readers[r]).is_of(Kind::Registered) && !w.readers[r].is_of(
                Kind::Keeps,
            ) by {
                assert(!s.readers[r].is_of(Kind::Keeps));
                lemma_seat_is_taken(s, r);
            }
        }
        if now == Handle::Leaving(LeaveTask::Staging) {
            assert(s.readers[reader].is_of(Kind::Competing));
            assert forall|r: int| 0 <= r < w.readers.len() && r != reader implies (
            #[trigger] w.readers[r]).is_out() by {
                assert(!w.readers[r].is_of(Kind::Competes));
                if s.overlooked {
                    lemma_seat_is_taken(s, r);
                }
                assert(!s.readers[r].is_of(Kind::Registered));
                assert(!s.readers[r].is_of(Kind::Keeps));
                assert(s.readers[r].is_of(Kind::Reader));
                if s.readers[r] == Handle::Leaving(LeaveTask::Staging) {
                    assert(s.readers[reader].is_out());
                }
            }
        }
        lemma_reader_moves(s, w, reader, now);
    }
}

/// Where no slot is taken, nobody is registered.
proof fn lemma_seat_is_taken(s: Crowd, reader: int)
    requires
        s.seats_in_order(),
        s.no_seat_is_taken(),
        0 <= reader < s.readers.len(),
    ensures
        !s.readers[reader].is_registered(),
{
    if s.readers[reader].is_registered() {
        assert(s.has_seat(reader));
        let i = choose|i: int| 0 <= i < s.seats.len() && #[trigger] s.seats[i] == Some(reader);
        assert(s.seats[i] is None);
    }
}

/// Who is registered stays registered, but for a reader that unregisters.
proof fn lemma_seats_stay(s: Crowd, reader: int, task: LeaveTask)
    requires
        s.seats_in_order(),
        s.seats.len() <= usize::MAX,
        0 <= reader < s.readers.len(),
        s.readers[reader] == Handle::Leaving(task),
    ensures
        ({
            let now = Handle::Leaving(s.stage_after(task));
            (Crowd {
                readers: s.readers.update(reader, now),
                seats: s.seats_after(reader, task),
                ..s
            }).seats_in_order()
        }),
{
    let now = Handle::Leaving(s.stage_after(task));
    let w = Crowd {
        readers: s.readers.update(reader, now),
        seats: s.seats_after(reader, task),
        ..s
    };
    assert forall|i: int| 0 <= i < w.seats.len() implies (#[trigger] w.seats[i] matches Some(r)
        ==> 0 <= r < w.readers.len() && w.readers[r].is_registered()) by {
        if w.seats[i] is Some {
            assert(s.seats[i] == w.seats[i]);
            let r = s.seats[i]->0;
            assert(s.readers[r].is_registered());
        }
    }
    assert forall|r: int|
        0 <= r < w.readers.len() && (#[trigger] w.readers[r]).is_registered() implies w.has_seat(
        r,
    ) by {
        assert(s.readers[r].is_registered());
        let i = choose|i: int| 0 <= i < s.seats.len() && #[trigger] s.seats[i] == Some(r);
        assert(w.seats[i] == Some(r));
    }
}

/// A reader begins to leave.
proof fn lemma_leave_reader(s: Crowd, reader: int)
    requires
        s.inv(),
        0 <= reader < s.readers.len(),
        s.readers[reader] is Inside,
    ensures
        s.with_reader(reader, LeaveTask::Entering).inv(),
{
    let w = s.with_reader(reader, LeaveTask::Entering);
    assert forall|i: int| 0 <= i < w.seats.len() implies (#[trigger] w.seats[i] matches Some(r)
        ==> 0 <= r < w.readers.len() && w.readers[r].is_registered()) by {
        if w.seats[i] is Some {
            let r = s.seats[i]->0;
            assert(s.readers[r].is_registered());
        }
    }
    assert forall|r: int|
        0 <= r < w.readers.len() && (#[trigger] w.readers[r]).is_registered() implies w.has_seat(
        r,
    ) by {
        assert(s.readers[r].is_registered());
        let i = choose|i: int| 0 <= i < s.seats.len() && #[trigger] s.seats[i] == Some(r);
        assert(w.seats[i] == Some(r));
    }
    lemma_reader_moves(s, w, reader, Handle::Leaving(LeaveTask::Entering));
}

/// A reader takes the readers' stage.
proof fn lemma_reader_takes_stage(s: Crowd, reader: int)
    requires
        s.inv(),
        0 <= reader < s.readers.len(),
        s.readers[reader] == Handle::Leaving(LeaveTask::Staging),
    ensures
        s.after_reader_stage(reader, LeaveTask::Staging) is Some,
        s.after_reader_stage(reader, LeaveTask::Staging)->0.inv(),
{
    let w = s.after_reader_stage(reader, LeaveTask::Staging)->0;
    let now = Handle::Leaving(s.stage_after(LeaveTask::Staging));
    lemma_reader_changes(s, reader, now);
    lemma_seats_stay(s, reader, LeaveTask::Staging);
    assert(all(w.readers, Kind::Out)) by {
        assert forall|i: int| 0 <= i < w.readers.len() implies (#[trigger] w.readers[i]).is_of(
            Kind::Out,
        ) by {
            if i != reader {
                assert(s.readers[i].is_out());
            }
        }
    }
    assert forall|i: int| 0 <= i < w.readers.len() implies !(#[trigger] w.readers[i]).is_of(
        Kind::Registered,
    ) && !w.readers[i].is_of(Kind::Keeps) && w.readers[i].is_of(Kind::Reader) by {
        assert(w.readers[i].is_of(Kind::Out));
    }
    assert forall|r: int|
        0 <= r < w.readers.len() && #[trigger] w.readers[r] == Handle::Leaving(
            LeaveTask::Staging,
        ) implies !w.readers_gone && w.others_are_out(w.readers, r) by {
        assert(w.readers[r].is_of(Kind::Out));
    }
}

/// One writer changes: what becomes of the count of writers.
proof fn lemma_writer_changes(s: Crowd, writer: int, now: Handle)
    requires
        0 <= writer < s.writers.len(),
    ensures
        count(s.writers.update(writer, now), Kind::Counted) == count(s.writers, Kind::Counted) - (
        if s.writers[writer].is_counted() {
            1int
        } else {
            0
        }) + (if now.is_counted() {
            1int
        } else {
            0
        }),
{
    lemma_count_update(s.writers, writer, now, Kind::Counted);
}

/// A writer lets another one in, or begins to leave, or leaves.
proof fn lemma_writer_moves(s: Crowd, w: Crowd, writer: int, now: Handle)
    requires
        s.inv(),
        0 <= writer < s.writers.len(),
        w == (Crowd {
            writers: s.writers.update(writer, now),
            writers_count: w.writers_count,
            ..s
        }),
        now.is_writer(),
        w.writers_count == s.writers_count - (if s.writers[writer].is_counted() {
            1int
        } else {
            0
        }) + (if now.is_counted() {
            1int
        } else {
            0
        }),
        !s.writers_gone,
        forall|i: int|
            0 <= i < s.writers.len() ==> #[trigger] s.writers[i] != Handle::Leaving(
                LeaveTask::Staging,
            ),
        now == Handle::Leaving(LeaveTask::Staging) ==> w.others_are_out(w.writers, writer),
    ensures
        w.inv(),
{
    lemma_writer_changes(s, writer, now);
    assert(all(w.writers, Kind::Writer)) by {
        assert forall|i: int| 0 <= i < w.writers.len() implies (#[trigger] w.writers[i]).is_of(
            Kind::Writer,
        ) by {
            assert(s.writers[i].is_of(Kind::Writer));
        }
    }
    assert forall|i: int|
        0 <= i < w.writers.len() && #[trigger] w.writers[i] == Handle::Leaving(
            LeaveTask::Staging,
        ) implies !w.writers_gone && w.others_are_out(w.writers, i) by {
        if i != writer {
            assert(s.writers[i] == w.writers[i]);
        }
    }
}

/// While a writer is counted, no writer has come to the stage.
proof fn lemma_counted_writer(s: Crowd, writer: int)
    requires
        s.inv(),
        0 <= writer < s.writers.len(),
        s.writers[writer].is_counted(),
    ensures
        !s.writers_gone,
        forall|i: int|
            0 <= i < s.writers.len() ==> #[trigger] s.writers[i] != Handle::Leaving(
                LeaveTask::Staging,
            ),
{
    assert(!s.writers[writer].is_of(Kind::Out));
    assert forall|i: int| 0 <= i < s.writers.len() implies #[trigger] s.writers[i]
        != Handle::Leaving(LeaveTask::Staging) by {
        if s.writers[i] == Handle::Leaving(LeaveTask::Staging) {
            assert(s.writers[writer].is_out());
        }
    }
}

/// A writer takes itself off the count.
proof fn lemma_leaving_writer(s: Crowd, writer: int)
    requires
        s.inv(),
        0 <= writer < s.writers.len(),
        s.writers[writer] == Handle::Leaving(LeaveTask::LeavingWriters),
    ensures
        s.after_writer_stage(writer, LeaveTask::LeavingWriters) is Some,
        s.after_writer_stage(writer, LeaveTask::LeavingWriters)->0.inv(),
{
    let w = s.after_writer_stage(writer, LeaveTask::LeavingWriters)->0;
    let now = Handle::Leaving(s.stage_after(LeaveTask::LeavingWriters));
    lemma_counted_writer(s, writer);
    lemma_writer_changes(s, writer, now);
    lemma_count_bounds(s.writers, Kind::Counted);
    lemma_count_bounds(w.writers, Kind::Counted);
    if now == Handle::Leaving(LeaveTask::Staging) {
        assert forall|i: int| 0 <= i < w.writers.len() && i != writer implies (
        #[trigger] w.writers[i]).is_out() by {
            assert(!w.writers[i].is_of(Kind::Counted));
            assert(s.writers[i].is_of(Kind::Writer));
            assert(s.writers[i] != Handle::Leaving(LeaveTask::Staging));
        }
    }
    lemma_writer_moves(s, w, writer, now);
}

/// A writer takes the writers' stage.
proof fn lemma_writer_takes_stage(s: Crowd, writer: int)
    requires
        s.inv(),
        0 <= writer < s.writers.len(),
        s.writers[writer] == Handle::Leaving(LeaveTask::Staging),
    ensures
        s.after_writer_stage(writer, LeaveTask::Staging) is Some,
        s.after_writer_stage(writer, LeaveTask::Staging)->0.inv(),
{
    let w = s.after_writer_stage(writer, LeaveTask::Staging)->0;
    let now = Handle::Leaving(s.stage_after(LeaveTask::Staging));
    lemma_writer_changes(s, writer, now);
    assert(all(w.writers, Kind::Out)) by {
        assert forall|i: int| 0 <= i < w.writers.len() implies (#[trigger] w.writers[i]).is_of(
            Kind::Out,
        ) by {
            if i != writer {
                assert(s.writers[i].is_out());
            }
        }
    }
    assert forall|i: int| 0 <= i < w.writers.len() implies (#[trigger] w.writers[i]).is_of(
        Kind::Writer,
    ) by {
        assert(w.writers[i].is_of(Kind::Out));
    }
    assert forall|i: int|
        0 <= i < w.writers.len() && #[trigger] w.writers[i] == Handle::Leaving(
            LeaveTask::Staging,
        ) implies !w.writers_gone && w.others_are_out(w.writers, i) by {
        assert(w.writers[i].is_of(Kind::Out));
    }
}

/// Whoever enters or leaves when, everything stays in order.
pub proof fn law_every_move_keeps_order(s: Crowd, next: Move)
    requires
        s.inv(),
    ensures
        s.after(next) matches Some(w) ==> w.inv(),
{
    if s.after(next) is Some {
        match next {
            Move::LetReaderIn { by, reader, seat } => lemma_let_reader_in(s, by, reader, seat),
            Move::LetWriterIn { by, writer } => {
                lemma_counted_writer(s, by);
                lemma_writer_moves(s, s.after(next)->0, writer, Handle::Inside);
            },
            Move::LeaveReader { reader } => lemma_leave_reader(s, reader),
            Move::LeaveWriter { writer } => {
                lemma_counted_writer(s, writer);
                lemma_writer_moves(
                    s,
                    s.after(next)->0,
                    writer,
                    Handle::Leaving(LeaveTask::LeavingWriters),
                );
            },
            Move::ReaderStage { reader } => match s.readers[reader] {
                Handle::Leaving(LeaveTask::Staging) => lemma_reader_takes_stage(s, reader),
                Handle::Leaving(task) => lemma_reader_stage(s, reader, task),
                _ => {},
            },
            Move::WriterStage { writer } => match s.writers[writer] {
                Handle::Leaving(LeaveTask::LeavingWriters) => lemma_leaving_writer(s, writer),
                Handle::Leaving(LeaveTask::Staging) => lemma_writer_takes_stage(s, writer),
                _ => {},
            },
        }
    }
}

impl Crowd {
    /// What becomes of the crowd by a number of moves, if each of them can be made.
    pub open spec fn after_all(self, made: Seq<Move>) -> Option<Self>
        decreases made.len(),
    {
        if made.len() == 0 {
            Some(self)
        } else {
            match self.after_all(made.drop_last()) {
                Some(before) => before.after(made.last()),
                None => None,
            }
        }
    }
}

/// Everything is in order where one writer and one reader are there.
pub proof fn law_new_crowd_is_in_order(s: Crowd)
    requires
        s.is_new(),
    ensures
        s.inv(),
{
    let i = choose|i: int| 0 <= i < s.seats.len() && #[trigger] s.seats[i] == Some(0int);
    assert(s.has_seat(0));
    lemma_count_bounds(s.readers, Kind::Keeps);
    lemma_count_bounds(s.readers, Kind::Competes);
    let outside = s.writers.update(0, Handle::Outside);
    lemma_count_update(s.writers, 0, Handle::Outside, Kind::Counted);
    lemma_count_bounds(outside, Kind::Counted);
    assert forall|w: int| 0 <= w < outside.len() implies !(#[trigger] outside[w]).is_of(
        Kind::Counted,
    ) by {
        if w > 0 {
            assert(s.writers[w] is Outside);
        }
    }
    assert forall|r: int| 0 <= r < s.readers.len() implies #[trigger] s.readers[r] is Inside
        || s.readers[r] is Outside by {}
    assert forall|w: int| 0 <= w < s.writers.len() implies #[trigger] s.writers[w] is Inside
        || s.writers[w] is Outside by {}
    assert forall|r: int|
        0 <= r < s.readers.len() && (#[trigger] s.readers[r]).is_registered() implies s.has_seat(
        r,
    ) by {
        assert(r == 0);
    }
}

impl Crowd {
    /// For as long as a stage is not taken, somebody will see to it that it is.
    pub open spec fn is_answered_for(self) -> bool {
        &&& self.readers_gone || !none(self.readers, Kind::Answerable)
        &&& self.writers_gone || !none(self.writers, Kind::Answerable)
    }
}

/// A reader that stops being answerable leaves that to another one.
proof fn lemma_readers_answer(s: Crowd, reader: int, task: LeaveTask)
    requires
        s.inv(),
        s.is_answered_for(),
        0 <= reader < s.readers.len(),
        s.readers[reader] == Handle::Leaving(task),
        s.after_reader_stage(reader, task) is Some,
    ensures
        s.after_reader_stage(reader, task)->0.is_answered_for(),
{
    let w = s.after_reader_stage(reader, task)->0;
    let now = Handle::Leaving(s.stage_after(task));
    assert(w.readers[reader] == now);
    assert(s.readers[reader].is_of(Kind::Reader));
    if !w.readers_gone && !now.is_answerable() {
        lemma_reader_changes(s, reader, now);
        lemma_count_bounds(s.readers, Kind::Competes);
        lemma_count_bounds(w.readers, Kind::Competes);
        if task is LookingAround {
            let index = task->LookingAround_index as int;
            assert(s.seats[index] is Some);
            let other = s.seats[index]->0;
            assert(s.readers[other].is_registered());
            assert(w.readers[other].is_of(Kind::Answerable));
        } else if task is Competing {
            let other = choose|i: int|
                0 <= i < w.readers.len() && (#[trigger] w.readers[i]).is_of(Kind::Competes);
            assert(w.readers[other].is_of(Kind::Answerable));
        } else {
            let other = choose|i: int|
                0 <= i < s.readers.len() && (#[trigger] s.readers[i]).is_of(Kind::Answerable);
            assert(w.readers[other].is_of(Kind::Answerable));
        }
    } else if !w.readers_gone {
        assert(w.readers[reader].is_of(Kind::Answerable));
    }
}

/// A writer that stops being answerable leaves that to another one.
proof fn lemma_writers_answer(s: Crowd, writer: int)
    requires
        s.inv(),
        s.is_answered_for(),
        0 <= writer < s.writers.len(),
        s.writers[writer] == Handle::Leaving(LeaveTask::LeavingWriters),
    ensures
        s.after_writer_stage(writer, LeaveTask::LeavingWriters)->0.is_answered_for(),
{
    let w = s.after_writer_stage(writer, LeaveTask::LeavingWriters)->0;
    let now = Handle::Leaving(s.stage_after(LeaveTask::LeavingWriters));
    lemma_writer_changes(s, writer, now);
    lemma_count_bounds(s.writers, Kind::Counted);
    lemma_count_bounds(w.writers, Kind::Counted);
    assert(s.writers[writer].is_of(Kind::Counted));
    assert(w.writers[writer] == now);
    if now.is_answerable() {
        assert(w.writers[writer].is_of(Kind::Answerable));
    } else {
        let other = choose|i: int|
            0 <= i < w.writers.len() && (#[trigger] w.writers[i]).is_of(Kind::Counted);
        assert(w.writers[other].is_of(Kind::Answerable));
    }
}

/// Whoever enters or leaves when, somebody will see to it that the last one says so.
pub proof fn law_somebody_always_answers(s: Crowd, next: Move)
    requires
        s.inv(),
        s.is_answered_for(),
        s.after(next) is Some,
    ensures
        s.after(next)->0.is_answered_for(),
{
    let w = s.after(next)->0;
    match next {
        Move::LetReaderIn { by, reader, .. } => {
            assert(w.readers[reader].is_of(Kind::Answerable));
        },
        Move::LetWriterIn { by, writer } => {
            assert(w.writers[writer].is_of(Kind::Answerable));
        },
        Move::LeaveReader { reader } => {
            assert(w.readers[reader].is_of(Kind::Answerable));
        },
        Move::LeaveWriter { writer } => {
            assert(w.writers[writer].is_of(Kind::Answerable));
        },
        Move::ReaderStage { reader } => match s.readers[reader] {
            Handle::Leaving(task) => lemma_readers_answer(s, reader, task),
            _ => {},
        },
        Move::WriterStage { writer } => match s.writers[writer] {
            Handle::Leaving(LeaveTask::LeavingWriters) => lemma_writers_answer(s, writer),
            _ => {},
        },
    }
}

/// Whatever has happened since there were one writer and one reader, it was said at most once that
/// nobody is left: it has been said if and only if everybody is out, and then nothing can happen
/// anymore.
///
/// This does not speak of what [`Crowd::after_reader_stage`] leaves out: that a reader which has
/// overlooked one that was let in behind it comes to the stage while there still are others.
pub proof fn law_the_last_one_ends_the_area_once(s: Crowd, made: Seq<Move>, next: Move)
    requires
        s.is_new(),
        s.after_all(made) is Some,
    ensures
        ({
            let w = s.after_all(made)->0;
            &&& w.inv()
            &&& w.is_answered_for()
            &&& 0 <= w.ended <= 1
            &&& w.ended == 1 <==> all(w.readers, Kind::Out) && all(w.writers, Kind::Out)
            &&& w.ended == 1 ==> w.after(next) is None
        }),
    decreases made.len(),
{
    let w = s.after_all(made)->0;
    if made.len() == 0 {
        law_new_crowd_is_in_order(s);
        assert(s.readers[0].is_of(Kind::Answerable));
        assert(s.writers[0].is_of(Kind::Answerable));
    } else {
        let before = s.after_all(made.drop_last())->0;
        law_the_last_one_ends_the_area_once(s, made.drop_last(), next);
        law_every_move_keeps_order(before, made.last());
        law_somebody_always_answers(before, made.last());
    }
    if w.ended == 1 {
        lemma_nothing_can_happen(w, next);
    }
    lemma_ended_when_all_are_out(w);
}

/// As long as nobody is let in where a reader that leaves has seen nobody, there stays nobody
/// there, and nobody is overlooked.
proof fn lemma_nobody_is_behind(s: Crowd, next: Move)
    requires
        s.inv(),
        s.nobody_is_behind(),
        s.after(next) is Some,
        !s.lets_in_behind(next),
    ensures
        s.after(next)->0.nobody_is_behind(),
        s.after(next)->0.overlooked == s.overlooked,
{
    let w = s.after(next)->0;
    assert forall|r: int, seat: int|
        0 <= r < w.readers.len() && 0 <= seat < w.seats.len()
            && #[trigger] w.readers[r].has_looked_at(seat) implies w.seats[seat] is None by {
        assert(s.readers[r].has_looked_at(seat) ==> s.seats[seat] is None);
    }
    if let Move::ReaderStage { reader } = next {
        if s.readers[reader] == Handle::Leaving(LeaveTask::Waiting) {
            assert(s.no_seat_is_taken()) by {
                assert forall|seat: int| 0 <= seat < s.seats.len() implies #[trigger] s.seats[seat]
                    is None by {
                    assert(s.readers[reader].has_looked_at(seat));
                }
            }
        }
    }
}

/// Only who is let in where a reader that leaves has seen nobody can be overlooked. Where this has
/// not happened, nothing is left out: everybody who leaves can go on to the end.
pub proof fn law_only_who_is_let_in_behind_is_overlooked(s: Crowd, made: Seq<Move>)
    requires
        s.is_new(),
        s.after_all(made) is Some,
        !s.has_let_in_behind(made),
    ensures
        ({
            let w = s.after_all(made)->0;
            &&& !w.overlooked
            &&& w.nobody_is_behind()
            &&& forall|r: int|
                0 <= r < w.readers.len() && w.readers[r] is Leaving && !w.readers[r].is_out()
                    ==> #[trigger] w.after(Move::ReaderStage { reader: r }) is Some
        }),
    decreases made.len(),
{
    if made.len() > 0 {
        let before = s.after_all(made.drop_last())->0;
        law_only_who_is_let_in_behind_is_overlooked(s, made.drop_last());
        law_the_last_one_ends_the_area_once(s, made.drop_last(), made.last());
        lemma_nobody_is_behind(before, made.last());
    }
}

/// It has been said that nobody is left if and only if everybody is out.
pub(crate) proof fn lemma_ended_when_all_are_out(w: Crowd)
    requires
        w.inv(),
        w.is_answered_for(),
    ensures
        0 <= w.ended <= 1,
        w.ended == 1 <==> all(w.readers, Kind::Out) && all(w.writers, Kind::Out),
{
    if all(w.readers, Kind::Out) && all(w.writers, Kind::Out) {
        assert(none(w.readers, Kind::Answerable)) by {
            assert forall|i: int| 0 <= i < w.readers.len() implies !(
            #[trigger] w.readers[i]).is_of(Kind::Answerable) by {
                assert(w.readers[i].is_of(Kind::Out));
            }
        }
        assert(none(w.writers, Kind::Answerable)) by {
            assert forall|i: int| 0 <= i < w.writers.len() implies !(
            #[trigger] w.writers[i]).is_of(Kind::Answerable) by {
                assert(w.writers[i].is_of(Kind::Out));
            }
        }
    }
}

/// Where everybody is out, nobody can make a move.
pub(crate) proof fn lemma_nothing_can_happen(s: Crowd, next: Move)
    requires
        all(s.readers, Kind::Out),
        all(s.writers, Kind::Out),
    ensures
        s.after(next) is None,
{
    match next {
        Move::LetReaderIn { by, .. } => {
            if 0 <= by < s.readers.len() {
                assert(s.readers[by].is_of(Kind::Out));
            }
        },
        Move::LetWriterIn { by, .. } => {
            if 0 <= by < s.writers.len() {
                assert(s.writers[by].is_of(Kind::Out));
            }
        },
        Move::LeaveReader { reader } => {
            if 0 <= reader < s.readers.len() {
                assert(s.readers[reader].is_of(Kind::Out));
            }
        },
        Move::LeaveWriter { writer } => {
            if 0 <= writer < s.writers.len() {
                assert(s.writers[writer].is_of(Kind::Out));
            }
        },
        Move::ReaderStage { reader } => {
            if 0 <= reader < s.readers.len() {
                assert(s.readers[reader].is_of(Kind::Out));
            }
        },
        Move::WriterStage { writer } => {
            if 0 <= writer < s.writers.len() {
                assert(s.writers[writer].is_of(Kind::Out));
            }
        },
    }
}

} // verus!
