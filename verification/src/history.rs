//! What becomes of an area by a number of calls, one after the other.
//!
//! A story begins with a new area and its first two handles. Next to the area, it keeps everything
//! that was ever published and everything that was ever dropped, in order, so that it can say what
//! many calls come to.
use crate::area::{self, CleanupResult};
use crate::arithmetics::{self, NumericType};
use crate::bits;
use crate::laws;
use crate::model::{self, AreaView};
use crate::steps;
use vstd::arithmetic::power2::*;
use vstd::prelude::*;

verus! {

/// Something that a handle of an area is used for.
pub enum Call<T> {
    /// Reserve exactly `n` slots.
    Reserve { n: usize },
    /// Reserve as many slots as possible, up to `n`.
    ReserveBestEffort { n: usize },
    /// Write to the slot of a generation that is reserved.
    Write { generation: NumericType, message: Option<T> },
    /// Publish a range of slots that is reserved.
    Publish { start: NumericType, end: NumericType },
    /// Let another reader in.
    CreateReader { seed: NumericType },
    /// Let another writer in.
    CreateWriter,
    /// Get a slice of everything that a reader has not read.
    Read { reader: NumericType },
    /// Drop the slice that a reader holds, as it is or after disarming it.
    DropSlice { reader: NumericType, armed: bool },
    /// Advance a reader.
    Advance { reader: NumericType, generation: NumericType },
    /// Suspend a reader.
    Suspend { reader: NumericType },
    /// Resume a reader where it is.
    Resume { reader: NumericType },
    /// Resume a reader at a generation.
    ResumeAt { reader: NumericType, generation: NumericType },
    /// Clean up.
    Cleanup,
    /// Drop a writer.
    DropWriter,
    /// Drop a reader.
    DropReader { reader: NumericType },
}

/// A slice that a reader holds.
pub struct Held {
    pub start: NumericType,
    pub end: NumericType,
}

/// An area, and what has happened in it.
pub struct Story<T> {
    pub area: AreaView<T>,
    /// Everything that was ever published, oldest first
    pub log: Seq<T>,
    /// What the cleanups that cleaned anything have returned, oldest first
    pub cleanups: Seq<CleanupResult>,
    /// Every message whose place was emptied, by a cleanup or at the end of the area, in order
    pub dropped: Seq<T>,
    /// The slices that readers hold
    pub slices: Map<NumericType, Held>,
    /// How often a handle that was dropped turned out to be the last one
    pub endings: int,
}

/// The messages of `n` generations, the oldest of which is `from`; they must be there.
pub open spec fn contents<T>(v: AreaView<T>, from: NumericType, n: int) -> Seq<T> {
    Seq::new(n as nat, |k: int| v.message(arithmetics::gen_add(from, k))->0)
}

/// The messages whose places a cleanup empties.
pub open spec fn given_up<T>(v: AreaView<T>) -> Seq<T> {
    match v.cleanup_result() {
        Ok(r) => contents(v, r.old_last_valid, r.slots_cleaned as int),
        Err(_) => Seq::empty(),
    }
}

/// The number of messages that some cleanups have cleaned.
pub open spec fn total(cleanups: Seq<CleanupResult>) -> int
    decreases cleanups.len(),
{
    if cleanups.len() == 0 {
        0
    } else {
        total(cleanups.drop_last()) + cleanups.last().slots_cleaned
    }
}

/// A cleanup begins where the ones before it have come to, and goes on from there.
pub open spec fn in_turn(cleanups: Seq<CleanupResult>, i: int) -> bool {
    &&& cleanups[i].old_last_valid == arithmetics::gen_of(total(cleanups.take(i)))
    &&& cleanups[i].new_last_valid == arithmetics::gen_of(total(cleanups.take(i + 1)))
    &&& cleanups[i].slots_cleaned > 0
}

/// A cleanup begins where the one before it has ended; the first one begins at generation 0.
pub open spec fn is_adjacent(cleanups: Seq<CleanupResult>, i: int) -> bool {
    cleanups[i].old_last_valid == (if i == 0 {
        0
    } else {
        cleanups[i - 1].new_last_valid
    })
}

impl<T> Story<T> {
    /// A new area with its first writer and its first reader.
    pub open spec fn beginning(buffer_capacity: usize, reader_capacity: usize) -> Self {
        let fresh = AreaView::<T>::fresh(buffer_capacity as nat, reader_capacity as nat);
        let (reader_id, index) = fresh.registration(1)->0;
        Story {
            area: AreaView { writers_count: 1, ..fresh.with_reader(reader_id, index) },
            log: Seq::empty(),
            cleanups: Seq::empty(),
            dropped: Seq::empty(),
            slices: Map::empty(),
            endings: 0,
        }
    }

    pub open spec fn with_area(self, area: AreaView<T>) -> Self {
        Story { area, ..self }
    }

    /// There is a handle left.
    pub open spec fn somebody_is_there(self) -> bool {
        self.area.writers_count > 0 || self.area.has_readers()
    }

    /// There is a reader with this id.
    pub open spec fn is_reader(self, reader: NumericType) -> bool {
        area::valid_reader_id(reader) && self.area.registered(reader)
    }

    /// The reader is there and holds no slice, so that it can be used.
    pub open spec fn is_free_to_move(self, reader: NumericType) -> bool {
        self.is_reader(reader) && !self.slices.dom().contains(reader)
    }

    /// A generation is published, or comes next.
    pub open spec fn is_published(self, generation: NumericType) -> bool {
        self.area.offset(generation) <= self.area.offset(self.area.read_gen)
    }

    /// The slots of a range are reserved, and hold messages.
    pub open spec fn is_ready(self, start: NumericType, end: NumericType) -> bool {
        let v = self.area;
        &&& end < arithmetics::gen_period()
        &&& v.offset(v.read_gen) <= v.offset(start) <= v.offset(end) <= v.offset(v.write_gen)
        &&& forall|k: int|
            0 <= k < arithmetics::gen_dist(end, start) ==> v.message(
                #[trigger] arithmetics::gen_add(start, k),
            ) is Some
    }

    /// How many messages were ever reserved.
    pub open spec fn reserved(self) -> int {
        self.dropped.len() + self.area.offset(self.area.write_gen)
    }

    /// The ring buffer does not start again with a jump: its capacity is a power of two, or divides
    /// the number of generations after which it starts again, or it has not come so far.
    pub open spec fn no_jump(self) -> bool {
        let capacity = self.area.capacity() as int;
        is_pow2(capacity) || steps::index_period() % capacity == 0 || self.reserved()
            <= steps::index_period()
    }

    /// The call can be made: there is a handle for it, it is used as it is meant to be, and nothing
    /// that is not published is taken for it.
    pub open spec fn is_allowed(self, call: Call<T>) -> bool {
        let v = self.area;
        match call {
            Call::Reserve { n } => self.somebody_is_there() && n != 0 && self.with(call).no_jump(),
            Call::ReserveBestEffort { n } => self.somebody_is_there() && self.with(call).no_jump(),
            Call::Write { generation, .. } => {
                &&& self.somebody_is_there()
                &&& generation < arithmetics::gen_period()
                &&& v.offset(v.read_gen) <= v.offset(generation) < v.offset(v.write_gen)
            },
            Call::Publish { start, end } => self.somebody_is_there() && (arithmetics::gen_gte(
                start,
                end,
            ) || self.is_ready(start, end)),
            Call::CreateReader { .. } => v.has_readers(),
            Call::CreateWriter => 0 < v.writers_count < usize::MAX,
            Call::Read { reader } => self.is_free_to_move(reader),
            Call::DropSlice { reader, armed } => {
                &&& self.is_reader(reader)
                &&& self.slices.dom().contains(reader)
                &&& armed ==> arithmetics::gen_of(v.reader_gen(reader) as int)
                    == self.slices[reader].start
            },
            Call::Advance { reader, generation } => {
                &&& self.is_free_to_move(reader)
                &&& generation < arithmetics::gen_period()
                &&& self.is_published(generation)
            },
            Call::Suspend { reader } => self.is_free_to_move(reader),
            Call::Resume { reader } => self.is_free_to_move(reader),
            Call::ResumeAt { reader, generation } => self.is_free_to_move(reader)
                && self.is_published(generation),
            Call::Cleanup => self.somebody_is_there(),
            Call::DropWriter => v.writers_count > 0,
            Call::DropReader { reader } => self.is_free_to_move(reader),
        }
    }

    /// What a call makes of the story.
    pub open spec fn with(self, call: Call<T>) -> Self {
        let v = self.area;
        match call {
            Call::Reserve { n } => if steps::reserve_plan(
                v.capacity(),
                n as int,
                v.free_gen,
                v.write_gen,
            ) is Ok {
                self.with_area(v.with_reserved(n as int))
            } else {
                self
            },
            Call::ReserveBestEffort { n } => {
                let actual = steps::best_effort(v.capacity(), n as int, v.free_gen, v.write_gen);
                if actual == 0 {
                    self
                } else {
                    self.with_area(v.with_reserved(actual))
                }
            },
            Call::Write { generation, message } => self.with_area(
                v.with_message(generation, message),
            ),
            Call::Publish { start, end } => Story {
                area: v.published(start, end),
                log: if !arithmetics::gen_gte(start, end) && v.read_gen == start {
                    self.log + contents(v, start, arithmetics::gen_dist(end, start))
                } else {
                    self.log
                },
                ..self
            },
            Call::CreateReader { seed } => match v.registration(seed) {
                Some((reader_id, index)) => self.with_area(v.with_reader(reader_id, index)),
                None => self,
            },
            Call::CreateWriter => self.with_area(v.with_writer()),
            Call::Read { reader } => Story {
                slices: self.slices.insert(
                    reader,
                    Held {
                        start: arithmetics::gen_of(v.reader_gen(reader) as int),
                        end: v.read_gen,
                    },
                ),
                ..self
            },
            Call::DropSlice { reader, armed } => Story {
                area: if armed {
                    v.with_gen_set(reader, self.slices[reader].end)
                } else {
                    v
                },
                slices: self.slices.remove(reader),
                ..self
            },
            Call::Advance { reader, generation } => self.with_area(
                v.with_gen_set(reader, generation),
            ),
            Call::Suspend { reader } => self.with_area(v.with_suspended(reader)),
            Call::Resume { reader } => self.with_area(v.with_resumed(reader)),
            Call::ResumeAt { reader, generation } => self.with_area(
                v.with_resumed_at(reader, generation),
            ),
            Call::Cleanup => Story {
                area: v.cleaned(),
                cleanups: match v.cleanup_result() {
                    Ok(r) => self.cleanups.push(r),
                    Err(_) => self.cleanups,
                },
                dropped: self.dropped + given_up(v),
                ..self
            },
            Call::DropWriter => self.with_left(v.with_writer_gone(), v, v.ends_with_writer()),
            Call::DropReader { reader } => self.with_left(
                v.with_reader_gone(reader),
                v.with_reader_unregistered(reader),
                v.ends_with_reader(reader),
            ),
        }
    }

    /// A handle was dropped. The last one cleans up what is left.
    pub open spec fn with_left(self, now: AreaView<T>, left: AreaView<T>, last: bool) -> Self {
        Story {
            area: now,
            dropped: if last {
                self.dropped + given_up(left)
            } else {
                self.dropped
            },
            endings: self.endings + (if last {
                1int
            } else {
                0
            }),
            ..self
        }
    }

    /// What a call makes of the story, if it can be made.
    pub open spec fn after(self, call: Call<T>) -> Option<Self> {
        if self.is_allowed(call) {
            Some(self.with(call))
        } else {
            None
        }
    }

    /// What a number of calls make of the story, if each of them can be made.
    pub open spec fn after_all(self, calls: Seq<Call<T>>) -> Option<Self>
        decreases calls.len(),
    {
        if calls.len() == 0 {
            Some(self)
        } else {
            match self.after_all(calls.drop_last()) {
                Some(before) => before.after(calls.last()),
                None => None,
            }
        }
    }

    /// What is in the place of the message that was published as number `k`.
    pub open spec fn kept(self, k: int) -> Option<T> {
        self.area.message(arithmetics::gen_of(k))
    }

    /// The area is coherent, and has come as far as the story says.
    pub open spec fn numbers_in_order(self) -> bool {
        let v = self.area;
        &&& v.coherent()
        &&& v.capacity() <= usize::MAX
        &&& self.no_jump()
        &&& v.free_gen == arithmetics::gen_of(self.dropped.len() as int)
        &&& self.log.len() == self.dropped.len() + v.offset(v.read_gen)
        &&& self.dropped == self.log.take(self.dropped.len() as int)
    }

    /// Everything that was published and not dropped is there as it was published.
    pub open spec fn contents_in_order(self) -> bool {
        forall|k: int|
            self.dropped.len() <= k < self.log.len() ==> #[trigger] self.kept(k) == Some(
                self.log[k],
            )
    }

    /// A slice that an active reader holds begins where the reader is, and is published.
    pub open spec fn slice_in_order(self, reader: NumericType) -> bool {
        let v = self.area;
        let slice = self.slices[reader];
        &&& self.is_reader(reader)
        &&& !area::suspended(v.reader_gen(reader)) ==> {
            &&& v.reader_gen(reader) == slice.start
            &&& slice.end < arithmetics::gen_period()
            &&& v.offset(slice.start) <= v.offset(slice.end) <= v.offset(v.read_gen)
        }
    }

    /// The slices of readers are in order.
    pub open spec fn slices_in_order(self) -> bool {
        forall|reader: NumericType| #[trigger]
            self.slices.dom().contains(reader) ==> self.slice_in_order(reader)
    }

    /// What is in the area is as the story says.
    pub open spec fn area_in_order(self) -> bool {
        self.numbers_in_order() && self.contents_in_order() && self.slices_in_order()
    }

    /// The cleanups came one after the other, and nothing else has dropped anything for as long as
    /// somebody is there.
    pub open spec fn cleanups_in_order(self) -> bool {
        &&& forall|i: int| 0 <= i < self.cleanups.len() ==> #[trigger] in_turn(self.cleanups, i)
        &&& self.somebody_is_there() ==> self.dropped.len() == total(self.cleanups)
    }

    /// Everybody is counted, and when nobody is left, one was told so, and nothing is left.
    pub open spec fn handles_in_order(self) -> bool {
        &&& self.area.counted()
        &&& self.endings == (if self.somebody_is_there() {
            0int
        } else {
            1
        })
        &&& !self.somebody_is_there() ==> self.dropped == self.log
    }

    /// Everything is in order.
    #[verifier::opaque]
    pub open spec fn inv(self) -> bool {
        self.area_in_order() && self.cleanups_in_order() && self.handles_in_order()
    }
}

/// The generation of a message in terms of the oldest slot in use.
pub(crate) proof fn lemma_generation<T>(s: Story<T>, k: int)
    requires
        s.area.free_gen == arithmetics::gen_of(s.dropped.len() as int),
    ensures
        arithmetics::gen_of(k) == arithmetics::gen_add(s.area.free_gen, k - s.dropped.len()),
        0 <= k - s.dropped.len() < arithmetics::gen_period() ==> s.area.offset(
            arithmetics::gen_of(k),
        ) == k - s.dropped.len(),
{
}

/// The read generation is that of the message that comes next.
pub(crate) proof fn lemma_read_generation<T>(s: Story<T>)
    requires
        s.numbers_in_order(),
    ensures
        s.area.read_gen == arithmetics::gen_of(s.log.len() as int),
{
}

/// The slots in use have different places.
proof fn lemma_distinct<T>(s: Story<T>)
    requires
        s.numbers_in_order(),
    ensures
        s.area.places_are_distinct(),
{
    let d = s.dropped.len() as int;
    let period = steps::index_period();
    if !is_pow2(s.area.capacity() as int) && period % s.area.capacity() as int != 0 {
        assert(d + s.area.offset(s.area.write_gen) <= period);
        assert(0 < period <= arithmetics::gen_period()) by {
            if usize::BITS == 32 {
                assert(usize::MAX == 0xffff_ffff);
            } else {
                assert(usize::MAX == 0xffff_ffff_ffff_ffff);
            }
        }
        if d < period {
            vstd::arithmetic::div_mod::lemma_small_mod(
                d as nat,
                arithmetics::gen_period() as nat,
            );
            vstd::arithmetic::div_mod::lemma_small_mod(d as nat, period as nat);
        } else {
            assert(d == period && s.area.offset(s.area.write_gen) == 0);
            vstd::arithmetic::div_mod::lemma_mod_bound(s.area.free_gen as int, period);
        }
    }
    laws::law_places_are_distinct(s.area);
}

/// Where a reader is registered.
pub(crate) proof fn lemma_reader_slot<T>(v: AreaView<T>, reader: NumericType)
    requires
        v.keys.len() > 0,
    ensures
        0 <= v.reader_slot(reader) < v.keys.len(),
{
    vstd::arithmetic::div_mod::lemma_mod_bound(
        reader as usize + crate::map::ZERO_OFFSET,
        v.keys.len() as int,
    );
}

/// A reader that is there is a reason why somebody is there.
pub(crate) proof fn lemma_reader_is_somebody<T>(v: AreaView<T>, reader: NumericType)
    requires
        v.coherent(),
        area::valid_reader_id(reader),
        v.registered(reader),
    ensures
        v.has_readers(),
{
    bits::lemma_power_divides(v.keys.len() as usize);
    lemma_reader_slot(v, reader);
    assert(v.keys[v.reader_slot(reader)] != crate::map::EMPTY);
}

/// Reserving slots keeps everything in order.
proof fn lemma_reserve<T>(s: Story<T>, n: int)
    requires
        s.inv(),
        0 <= n <= steps::available(s.area.capacity(), s.area.free_gen, s.area.write_gen),
        s.with_area(s.area.with_reserved(n)).no_jump(),
    ensures
        s.with_area(s.area.with_reserved(n)).inv(),
{
    reveal(Story::inv);
    let w = s.with_area(s.area.with_reserved(n));
    laws::law_reserving_keeps_coherence(s.area, n);
    assert forall|k: int| w.dropped.len() <= k < w.log.len() implies #[trigger] w.kept(k) == Some(
        w.log[k],
    ) by {
        assert(w.kept(k) == s.kept(k));
    }
    assert forall|reader: NumericType| #[trigger]
        w.slices.dom().contains(reader) implies w.slice_in_order(reader) by {
        assert(s.slice_in_order(reader));
    }
}

/// What is reserved has another place than what is published and not dropped.
proof fn lemma_reserved_place<T>(s: Story<T>, generation: NumericType, k: int)
    requires
        s.numbers_in_order(),
        generation < arithmetics::gen_period(),
        s.area.offset(s.area.read_gen) <= s.area.offset(generation) < s.area.offset(
            s.area.write_gen,
        ),
        s.dropped.len() <= k < s.log.len(),
    ensures
        s.area.place(arithmetics::gen_of(k)) != s.area.place(generation),
{
    let v = s.area;
    let a = k - s.dropped.len();
    let b = v.offset(generation);
    lemma_distinct(s);
    assert(generation == arithmetics::gen_add(v.free_gen, b)) by {
        laws::lemma_place_by_offset(v, generation, 0);
    }
    assert(arithmetics::gen_of(k) == arithmetics::gen_add(v.free_gen, a)) by {
        lemma_generation(s, k);
    }
    assert(v.place(arithmetics::gen_add(v.free_gen, a)) != v.place(
        arithmetics::gen_add(v.free_gen, b),
    ));
}

/// Writing to a reserved slot keeps everything in order.
proof fn lemma_write<T>(s: Story<T>, generation: NumericType, message: Option<T>)
    requires
        s.inv(),
        s.is_allowed(Call::Write { generation, message }),
    ensures
        s.with(Call::Write { generation, message }).inv(),
{
    reveal(Story::inv);
    let v = s.area;
    let w = s.with(Call::Write { generation, message });
    assert(w.numbers_in_order()) by {
        lemma_distinct(s);
        assert(v.gens.len() > 0) by {
            bits::lemma_power_divides(v.keys.len() as usize);
        }
        laws::law_writing_disturbs_no_reader(v, generation, message, 0);
    }
    assert(w.contents_in_order()) by {
        assert forall|k: int|
            w.dropped.len() <= k < w.log.len() implies #[trigger] w.kept(k) == Some(w.log[k]) by {
            assert(s.kept(k) == Some(s.log[k]));
            lemma_reserved_place(s, generation, k);
        }
    }
    assert(w.slices_in_order()) by {
        assert forall|reader: NumericType| #[trigger]
            w.slices.dom().contains(reader) implies w.slice_in_order(reader) by {
            assert(s.slice_in_order(reader));
        }
    }
}

/// Publishing slots makes the read generation move on by as many.
proof fn lemma_published_numbers<T>(s: Story<T>, start: NumericType, end: NumericType)
    requires
        s.numbers_in_order(),
        s.is_ready(start, end),
        s.area.read_gen == start,
        !arithmetics::gen_gte(start, end),
    ensures
        ({
            let n = arithmetics::gen_dist(end, start);
            &&& n > 0
            &&& s.area.published(start, end).coherent()
            &&& s.area.offset(end) == s.area.offset(start) + n
        }),
{
    let v = s.area;
    laws::law_publishing_keeps_coherence(v, start, end);
    laws::lemma_order_by_offset(end, start, v.free_gen);
    laws::lemma_order_by_offset(start, end, v.free_gen);
}

/// The messages that are published follow on those that were.
proof fn lemma_published_generation<T>(s: Story<T>, j: int)
    requires
        s.numbers_in_order(),
    ensures
        arithmetics::gen_of(s.log.len() + j) == arithmetics::gen_add(s.area.read_gen, j),
{
    lemma_read_generation(s);
}

/// Publishing slots keeps everything in order.
proof fn lemma_publish<T>(s: Story<T>, start: NumericType, end: NumericType)
    requires
        s.inv(),
        s.is_allowed(Call::Publish { start, end }),
    ensures
        s.with(Call::Publish { start, end }).inv(),
{
    reveal(Story::inv);
    let v = s.area;
    let call = Call::<T>::Publish { start, end };
    let w = s.with(call);
    if !arithmetics::gen_gte(start, end) && v.read_gen == start {
        let n = arithmetics::gen_dist(end, start);
        let added = contents(v, start, n);
        lemma_published_numbers(s, start, end);
        assert(w.log == s.log + added);
        assert(w.numbers_in_order()) by {
            assert(w.dropped =~= w.log.take(w.dropped.len() as int)) by {
                assert(s.dropped =~= s.log.take(s.dropped.len() as int));
            }
        }
        assert(w.contents_in_order()) by {
            assert forall|k: int|
                w.dropped.len() <= k < w.log.len() implies #[trigger] w.kept(k) == Some(
                w.log[k],
            ) by {
                assert(w.kept(k) == s.kept(k));
                if k >= s.log.len() {
                    let j = k - s.log.len();
                    lemma_published_generation(s, j);
                    assert(v.message(arithmetics::gen_add(start, j)) is Some);
                    assert(w.log[k] == added[j]);
                }
            }
        }
        assert(w.slices_in_order()) by {
            assert forall|reader: NumericType| #[trigger]
                w.slices.dom().contains(reader) implies w.slice_in_order(reader) by {
                assert(s.slice_in_order(reader));
            }
        }
    } else {
        assert(w.log == s.log);
        assert(w.area == s.area);
    }
}

/// Letting a reader in keeps everything in order.
proof fn lemma_create_reader<T>(s: Story<T>, seed: NumericType)
    requires
        s.inv(),
        s.area.has_readers(),
    ensures
        s.with(Call::CreateReader { seed }).inv(),
{
    reveal(Story::inv);
    let v = s.area;
    let w = s.with(Call::CreateReader { seed });
    if v.registration(seed) is Some {
        let (reader_id, index) = v.registration(seed)->0;
        laws::law_registered_reader_is_new(v, seed);
        laws::law_entering_keeps_count(v, seed);
        assert(w.area.has_readers()) by {
            assert(w.area.keys[index] == reader_id);
        }
        assert forall|k: int|
            w.dropped.len() <= k < w.log.len() implies #[trigger] w.kept(k) == Some(w.log[k]) by {
            assert(w.kept(k) == s.kept(k));
        }
        assert forall|reader: NumericType| #[trigger]
            w.slices.dom().contains(reader) implies w.slice_in_order(reader) by {
            assert(s.slice_in_order(reader));
            assert(w.area.registered(reader));
        }
    }
}

/// Moving a reader that holds no slice keeps everything in order.
proof fn lemma_move_reader<T>(s: Story<T>, reader: NumericType, g: NumericType)
    requires
        s.inv(),
        s.is_free_to_move(reader),
        s.is_published(g),
    ensures
        s.with_area(s.area.with_reader_gen(reader, g)).inv(),
{
    reveal(Story::inv);
    let v = s.area;
    let w = s.with_area(v.with_reader_gen(reader, g));
    laws::law_moving_a_reader_keeps_coherence(v, reader, g);
    bits::lemma_power_divides(v.keys.len() as usize);
    assert forall|k: int| w.dropped.len() <= k < w.log.len() implies #[trigger] w.kept(k) == Some(
        w.log[k],
    ) by {
        assert(w.kept(k) == s.kept(k));
    }
    assert forall|other: NumericType| #[trigger]
        w.slices.dom().contains(other) implies w.slice_in_order(other) by {
        assert(s.slice_in_order(other));
        assert(other != reader);
        lemma_reader_slot(v, other);
        lemma_reader_slot(v, reader);
        assert(v.reader_slot(other) != v.reader_slot(reader));
        assert(w.area.reader_gen(other) == v.reader_gen(other));
        assert(w.area.registered(other));
    }
}

/// How far a cleanup of a coherent area comes, and what it reports.
pub(crate) proof fn lemma_cleanup_numbers<T>(v: AreaView<T>)
    requires
        v.coherent(),
    ensures
        ({
            let h = v.offset(v.held());
            let w = v.cleaned();
            &&& 0 <= h <= v.offset(v.read_gen)
            &&& v.held() < arithmetics::gen_period()
            &&& w.coherent()
            &&& w.keys == v.keys
            &&& w.gens.len() == v.gens.len()
            &&& w.buffer.len() == v.buffer.len()
            &&& w.free_gen == v.held()
            &&& w.read_gen == v.read_gen
            &&& w.write_gen == v.write_gen
            &&& w.offset(w.read_gen) == v.offset(v.read_gen) - h
            &&& w.offset(w.write_gen) == v.offset(v.write_gen) - h
            &&& given_up(v) == contents(v, v.free_gen, h)
            &&& match v.cleanup_result() {
                Ok(r) => {
                    &&& h > 0
                    &&& r.old_last_valid == v.free_gen
                    &&& r.new_last_valid == v.held()
                    &&& r.slots_cleaned == h
                },
                Err(_) => h == 0,
            }
        }),
{
    laws::law_cleanup_keeps_what_active_readers_hold(v);
    laws::law_cleanup_keeps_coherence(v);
    laws::lemma_order_by_offset(v.read_gen, v.held(), v.free_gen);
    laws::lemma_order_by_offset(v.write_gen, v.held(), v.free_gen);
    laws::lemma_order_by_offset(v.last_valid_gen, v.held(), v.free_gen);
    laws::lemma_order_by_offset(v.last_valid_gen, v.read_gen, v.free_gen);
    assert(given_up(v) =~= contents(v, v.free_gen, v.offset(v.held())));
}

/// What a cleanup of a coherent area empties, and what it leaves alone.
proof fn lemma_cleanup_buffer<T>(v: AreaView<T>)
    requires
        v.coherent(),
    ensures
        forall|k: int|
            0 <= k < v.offset(v.held()) ==> v.cleaned().message(
                #[trigger] arithmetics::gen_add(v.free_gen, k),
            ) is None,
        forall|i: int|
            0 <= i < v.capacity() && !model::covers(
                v.capacity(),
                v.free_gen,
                v.offset(v.held()),
                i,
            ) ==> #[trigger] v.cleaned().buffer[i] == v.buffer[i],
        v.offset(v.held()) == 0 ==> v.cleaned().buffer == v.buffer,
{
    lemma_cleanup_numbers(v);
    assert forall|k: int| 0 <= k < v.offset(v.held()) implies v.cleaned().message(
        #[trigger] arithmetics::gen_add(v.free_gen, k),
    ) is None by {
        arithmetics::law_distance_after_add(v.free_gen, k);
        laws::law_cleanup_drops_all_the_rest(v, arithmetics::gen_add(v.free_gen, k));
    }
}

/// What is published and not given up by a cleanup stays.
proof fn lemma_cleanup_keeps<T>(s: Story<T>, k: int)
    requires
        s.numbers_in_order(),
        s.dropped.len() + s.area.offset(s.area.held()) <= k < s.log.len(),
    ensures
        s.area.cleaned().message(arithmetics::gen_of(k)) == s.kept(k),
{
    let v = s.area;
    let h = v.offset(v.held());
    let a = k - s.dropped.len();
    let place = v.place(arithmetics::gen_of(k));
    lemma_cleanup_numbers(v);
    lemma_distinct(s);
    assert(arithmetics::gen_of(k) == arithmetics::gen_add(v.free_gen, a)) by {
        lemma_generation(s, k);
    }
    vstd::arithmetic::div_mod::lemma_mod_bound(
        arithmetics::gen_of(k) as usize as int,
        v.capacity() as int,
    );
    assert(!model::covers(v.capacity(), v.free_gen, h, place)) by {
        assert forall|b: int| 0 <= b < h implies #[trigger] steps::slot_index(
            arithmetics::gen_add(v.free_gen, b),
            v.capacity(),
        ) != place by {
            assert(v.place(arithmetics::gen_add(v.free_gen, b)) != v.place(
                arithmetics::gen_add(v.free_gen, a),
            ));
        }
    }
    lemma_cleanup_buffer(v);
}

/// A cleanup keeps the slices of active readers in order.
proof fn lemma_cleanup_slice<T>(s: Story<T>, reader: NumericType)
    requires
        s.numbers_in_order(),
        s.slice_in_order(reader),
    ensures
        s.with_area(s.area.cleaned()).slice_in_order(reader),
{
    let v = s.area;
    let w = v.cleaned();
    let slice = s.slices[reader];
    lemma_cleanup_numbers(v);
    laws::law_cleanup_keeps_coherence(v);
    laws::law_cleanup_keeps_what_active_readers_hold(v);
    bits::lemma_power_divides(v.keys.len() as usize);
    lemma_reader_slot(v, reader);
    let slot = v.reader_slot(reader);
    assert(laws::sweeps_to(v.gens[slot], w.gens[slot]));
    if !area::suspended(w.gens[slot]) {
        assert(v.offset(v.held()) <= v.offset(v.gens[slot]));
        laws::lemma_order_by_offset(slice.start, v.held(), v.free_gen);
        laws::lemma_order_by_offset(slice.end, v.held(), v.free_gen);
    }
}

impl<T> Story<T> {
    /// The area is cleaned up.
    spec fn cleaned_up(self) -> Self {
        Story {
            area: self.area.cleaned(),
            dropped: self.dropped + given_up(self.area),
            ..self
        }
    }
}

/// A cleanup goes on to drop what was published next.
pub(crate) proof fn lemma_given_up<T>(s: Story<T>)
    requires
        s.numbers_in_order(),
        s.contents_in_order(),
    ensures
        given_up(s.area).len() == s.area.offset(s.area.held()),
        forall|k: int|
            0 <= k < given_up(s.area).len() ==> {
                &&& #[trigger] given_up(s.area)[k] == s.log[s.dropped.len() + k]
                &&& s.area.message(arithmetics::gen_add(s.area.free_gen, k)) == Some(
                    s.log[s.dropped.len() + k],
                )
            },
{
    let v = s.area;
    lemma_cleanup_numbers(v);
    assert forall|k: int| 0 <= k < given_up(v).len() implies #[trigger] given_up(v)[k]
        == s.log[s.dropped.len() + k] && v.message(arithmetics::gen_add(v.free_gen, k)) == Some(
        s.log[s.dropped.len() + k],
    ) by {
        lemma_generation(s, s.dropped.len() + k);
        assert(s.kept(s.dropped.len() + k) == Some(s.log[s.dropped.len() + k]));
    }
}

/// A cleanup keeps what is in the area in order.
#[verifier::rlimit(20)]
proof fn lemma_cleaned_up<T>(s: Story<T>)
    requires
        s.area_in_order(),
    ensures
        s.cleaned_up().area_in_order(),
{
    let v = s.area;
    let h = v.offset(v.held());
    let w = s.cleaned_up();
    lemma_given_up(s);
    assert(w.dropped =~= w.log.take(w.dropped.len() as int)) by {
        lemma_cleanup_numbers(v);
    }
    assert(w.numbers_in_order()) by {
        lemma_cleanup_numbers(v);
        assert(v.held() == arithmetics::gen_of(s.dropped.len() + h)) by {
            lemma_generation(s, s.dropped.len() + h);
            laws::lemma_place_by_offset(v, v.held(), 0);
        }
    }
    assert(w.contents_in_order()) by {
        assert forall|k: int|
            w.dropped.len() <= k < w.log.len() implies #[trigger] w.kept(k) == Some(w.log[k]) by {
            lemma_cleanup_keeps(s, k);
            assert(s.kept(k) == Some(s.log[k]));
        }
    }
    assert(w.slices_in_order()) by {
        assert forall|reader: NumericType| #[trigger]
            w.slices.dom().contains(reader) implies w.slice_in_order(reader) by {
            assert(s.slice_in_order(reader));
            lemma_cleanup_slice(s, reader);
        }
    }
}

/// Adding a result leaves the earlier ones as they are.
proof fn lemma_in_turn_before(cleanups: Seq<CleanupResult>, r: CleanupResult, i: int)
    requires
        0 <= i < cleanups.len(),
        in_turn(cleanups, i),
    ensures
        in_turn(cleanups.push(r), i),
{
    assert(cleanups.push(r).take(i) =~= cleanups.take(i));
    assert(cleanups.push(r).take(i + 1) =~= cleanups.take(i + 1));
}

/// A cleanup keeps everything in order.
proof fn lemma_cleanup<T>(s: Story<T>)
    requires
        s.inv(),
        s.somebody_is_there(),
    ensures
        s.with(Call::Cleanup).inv(),
{
    reveal(Story::inv);
    let v = s.area;
    let w = s.with(Call::Cleanup);
    lemma_cleaned_up(s);
    assert(w.area_in_order()) by {
        let c = s.cleaned_up();
        assert forall|k: int|
            w.dropped.len() <= k < w.log.len() implies #[trigger] w.kept(k) == Some(w.log[k]) by {
            assert(c.kept(k) == Some(c.log[k]));
        }
        assert forall|reader: NumericType| #[trigger]
            w.slices.dom().contains(reader) implies w.slice_in_order(reader) by {
            assert(c.slice_in_order(reader));
        }
    }
    lemma_cleanup_numbers(v);
    assert(w.cleanups_in_order()) by {
        match v.cleanup_result() {
            Ok(r) => {
                let n = s.cleanups.len() as int;
                assert(w.cleanups.drop_last() =~= s.cleanups);
                assert(w.cleanups.take(n) =~= s.cleanups);
                assert(w.cleanups.take(n + 1) =~= w.cleanups);
                assert forall|i: int| 0 <= i < w.cleanups.len() implies #[trigger] in_turn(
                    w.cleanups,
                    i,
                ) by {
                    if i < n {
                        assert(in_turn(s.cleanups, i));
                        lemma_in_turn_before(s.cleanups, r, i);
                    }
                }
            },
            Err(_) => {},
        }
    }
    assert(w.handles_in_order());
}

/// The numbers of participants do not matter for what is in the area, nor for what a cleanup gives
/// up.
proof fn lemma_counts_are_no_matter<T>(s: Story<T>, writers_count: usize, destroy_stages: usize)
    requires
        s.area_in_order(),
    ensures
        ({
            let area = AreaView { writers_count, destroy_stages, ..s.area };
            &&& s.with_area(area).area_in_order()
            &&& given_up(area) == given_up(s.area)
            &&& area.held() == s.area.held()
        }),
{
    let area = AreaView { writers_count, destroy_stages, ..s.area };
    let w = s.with_area(area);
    laws::lemma_counts_are_no_matter(s.area, writers_count, destroy_stages);
    assert forall|k: int| w.dropped.len() <= k < w.log.len() implies #[trigger] w.kept(k) == Some(
        w.log[k],
    ) by {
        assert(w.kept(k) == s.kept(k));
    }
    assert forall|reader: NumericType| #[trigger]
        w.slices.dom().contains(reader) implies w.slice_in_order(reader) by {
        assert(s.slice_in_order(reader));
    }
    assert(given_up(area) =~= given_up(s.area));
}

/// Two stories of the same area in which the same was said and dropped are both in order.
proof fn lemma_same_area<T>(s: Story<T>, w: Story<T>)
    requires
        s.area_in_order(),
        w.area == s.area,
        w.log == s.log,
        w.dropped == s.dropped,
        w.slices == s.slices,
    ensures
        w.area_in_order(),
{
    assert forall|k: int| w.dropped.len() <= k < w.log.len() implies #[trigger] w.kept(k) == Some(
        w.log[k],
    ) by {
        assert(w.kept(k) == s.kept(k));
    }
    assert forall|reader: NumericType| #[trigger]
        w.slices.dom().contains(reader) implies w.slice_in_order(reader) by {
        assert(s.slice_in_order(reader));
    }
}

/// Where nobody is registered, a cleanup drops everything that is left.
proof fn lemma_nothing_left<T>(s: Story<T>)
    requires
        s.area_in_order(),
        !s.area.has_readers(),
    ensures
        s.cleaned_up().dropped == s.log,
        s.area.held() == s.area.read_gen,
{
    laws::law_cleanup_without_readers_drops_everything(s.area);
    lemma_cleaned_up(s);
    lemma_given_up(s);
    assert(s.log.take(s.log.len() as int) =~= s.log);
}

/// Dropping a writer keeps everything in order.
proof fn lemma_drop_writer<T>(s: Story<T>)
    requires
        s.inv(),
        s.area.writers_count > 0,
    ensures
        s.with(Call::DropWriter).inv(),
{
    reveal(Story::inv);
    let v = s.area;
    let w = s.with(Call::DropWriter);
    let count = (v.writers_count - 1) as usize;
    laws::law_writer_leaves(v);
    if v.ends_with_writer() {
        lemma_counts_are_no_matter(s, count, 0);
        let gone = s.with_area(AreaView { writers_count: count, destroy_stages: 0, ..v });
        lemma_cleaned_up(gone);
        lemma_nothing_left(gone);
        lemma_same_area(gone.cleaned_up(), w);
    } else if v.writers_count == 1 {
        let stages = v.destroy_stages.wrapping_sub(1);
        lemma_counts_are_no_matter(s, count, stages);
        lemma_same_area(
            s.with_area(AreaView { writers_count: count, destroy_stages: stages, ..v }),
            w,
        );
    } else {
        lemma_counts_are_no_matter(s, count, v.destroy_stages);
        lemma_same_area(s.with_area(AreaView { writers_count: count, ..v }), w);
    }
}

/// Unregistering a reader that holds no slice keeps what is in the area in order.
proof fn lemma_unregister<T>(s: Story<T>, reader: NumericType)
    requires
        s.area_in_order(),
        s.is_free_to_move(reader),
    ensures
        s.with_area(s.area.without_reader(reader)).area_in_order(),
{
    let v = s.area;
    let w = s.with_area(v.without_reader(reader));
    laws::law_reader_that_leaves_is_gone(v, reader);
    assert forall|k: int| w.dropped.len() <= k < w.log.len() implies #[trigger] w.kept(k) == Some(
        w.log[k],
    ) by {
        assert(w.kept(k) == s.kept(k));
    }
    assert forall|other: NumericType| #[trigger]
        w.slices.dom().contains(other) implies w.slice_in_order(other) by {
        assert(s.slice_in_order(other));
        assert(other != reader);
        assert(w.area.registered(other));
    }
}

/// Dropping a reader keeps everything in order.
proof fn lemma_drop_reader<T>(s: Story<T>, reader: NumericType)
    requires
        s.inv(),
        s.is_free_to_move(reader),
    ensures
        s.with(Call::DropReader { reader }).inv(),
{
    reveal(Story::inv);
    let v = s.area;
    let w = s.with(Call::DropReader { reader });
    let left = s.with_area(v.without_reader(reader));
    lemma_unregister(s, reader);
    lemma_reader_is_somebody(v, reader);
    laws::law_reader_leaves(v, reader);
    if v.ends_with_reader(reader) {
        lemma_counts_are_no_matter(left, v.writers_count, 0);
        let gone = s.with_area(AreaView { destroy_stages: 0, ..left.area });
        lemma_cleaned_up(gone);
        lemma_nothing_left(gone);
        lemma_same_area(gone.cleaned_up(), w);
    } else if v.reader_takes_stage(reader) {
        let stages = v.destroy_stages.wrapping_sub(1);
        lemma_counts_are_no_matter(left, v.writers_count, stages);
        lemma_same_area(s.with_area(AreaView { destroy_stages: stages, ..left.area }), w);
    } else {
        lemma_same_area(left, w);
    }
}

/// A reader that is there is at a generation that is published, or comes next.
pub(crate) proof fn lemma_reader_is_published<T>(v: AreaView<T>, reader: NumericType)
    requires
        v.coherent(),
        v.registered(reader),
    ensures
        0 <= v.reader_slot(reader) < v.keys.len(),
        0 <= v.offset(v.reader_gen(reader)) <= v.offset(v.read_gen),
        !area::suspended(v.reader_gen(reader)) ==> arithmetics::gen_of(
            v.reader_gen(reader) as int,
        ) == v.reader_gen(reader),
{
    bits::lemma_power_divides(v.keys.len() as usize);
    lemma_reader_slot(v, reader);
    assert(v.offset(v.gens[v.reader_slot(reader)]) <= v.offset(v.read_gen));
}

/// Reading keeps everything in order.
proof fn lemma_read<T>(s: Story<T>, reader: NumericType)
    requires
        s.inv(),
        s.is_allowed(Call::Read { reader }),
    ensures
        s.with(Call::Read { reader }).inv(),
{
    reveal(Story::inv);
    let w = s.with(Call::Read { reader });
    assert(w.contents_in_order()) by {
        assert forall|k: int|
            w.dropped.len() <= k < w.log.len() implies #[trigger] w.kept(k) == Some(w.log[k]) by {
            assert(w.kept(k) == s.kept(k));
        }
    }
    assert(w.slices_in_order()) by {
        lemma_reader_is_published(s.area, reader);
        assert forall|other: NumericType| #[trigger]
            w.slices.dom().contains(other) implies w.slice_in_order(other) by {
            if other != reader {
                assert(s.slices.dom().contains(other));
                assert(s.slice_in_order(other));
            }
        }
    }
}

/// Forgetting a slice keeps everything in order.
proof fn lemma_forget_slice<T>(s: Story<T>, reader: NumericType)
    requires
        s.inv(),
    ensures
        (Story { slices: s.slices.remove(reader), ..s }).inv(),
{
    reveal(Story::inv);
    let w = Story { slices: s.slices.remove(reader), ..s };
    assert(w.contents_in_order()) by {
        assert forall|k: int|
            w.dropped.len() <= k < w.log.len() implies #[trigger] w.kept(k) == Some(w.log[k]) by {
            assert(w.kept(k) == s.kept(k));
        }
    }
    assert(w.slices_in_order()) by {
        assert forall|other: NumericType| #[trigger]
            w.slices.dom().contains(other) implies w.slice_in_order(other) by {
            assert(s.slices.dom().contains(other));
            assert(s.slice_in_order(other));
        }
    }
}

/// Dropping a slice keeps everything in order.
proof fn lemma_drop_slice<T>(s: Story<T>, reader: NumericType, armed: bool)
    requires
        s.inv(),
        s.is_allowed(Call::DropSlice { reader, armed }),
    ensures
        s.with(Call::DropSlice { reader, armed }).inv(),
{
    reveal(Story::inv);
    let v = s.area;
    let w = s.with(Call::DropSlice { reader, armed });
    let free = Story { slices: s.slices.remove(reader), ..s };
    let end = s.slices[reader].end;
    lemma_forget_slice(s, reader);
    assert(s.slice_in_order(reader));
    if armed && v.set_gen_result(reader, end) is Ok {
        lemma_move_reader(free, reader, end);
        assert(w == free.with_area(v.with_reader_gen(reader, end)));
    } else {
        assert(w == free);
    }
}

/// Moving a reader by the calls that do so keeps everything in order.
proof fn lemma_reader_calls<T>(s: Story<T>, reader: NumericType, generation: NumericType)
    requires
        s.inv(),
        s.is_free_to_move(reader),
    ensures
        s.with(Call::Suspend { reader }).inv(),
        s.with(Call::Resume { reader }).inv(),
        s.is_published(generation) ==> s.with(Call::ResumeAt { reader, generation }).inv(),
        s.is_published(generation) ==> s.with(Call::Advance { reader, generation }).inv(),
{
    reveal(Story::inv);
    let v = s.area;
    laws::law_reader_moves_are_in_range(v, reader, generation);
    lemma_move_reader(s, reader, area::suspended_at(v.reader_gen(reader)));
    lemma_move_reader(s, reader, arithmetics::gen_of(v.reader_gen(reader) as int));
    if s.is_published(generation) {
        lemma_move_reader(s, reader, arithmetics::gen_of(generation as int));
        lemma_move_reader(s, reader, generation);
    }
}

/// Letting a writer in keeps everything in order.
proof fn lemma_create_writer<T>(s: Story<T>)
    requires
        s.inv(),
        0 < s.area.writers_count < usize::MAX,
    ensures
        s.with(Call::CreateWriter).inv(),
{
    reveal(Story::inv);
    let v = s.area;
    let count = v.writers_count.wrapping_add(1);
    laws::law_entering_keeps_count(v, 0);
    lemma_counts_are_no_matter(s, count, v.destroy_stages);
    assert(v.with_writer() == (AreaView { writers_count: count, ..v }));
}

/// Everything is in order at the beginning.
pub proof fn law_the_beginning_is_in_order<T>(buffer_capacity: usize, reader_capacity: usize)
    requires
        0 < buffer_capacity <= arithmetics::gen_horizon(),
        is_pow2(reader_capacity as int),
        reader_capacity < crate::map::IN_PROGRESS,
    ensures
        Story::<T>::beginning(buffer_capacity, reader_capacity).inv(),
{
    reveal(Story::inv);
    let s = Story::<T>::beginning(buffer_capacity, reader_capacity);
    laws::law_area_starts_counted::<T>(buffer_capacity, reader_capacity);
    assert(s.dropped =~= s.log.take(0));
    assert(steps::index_period() > 0) by {
        if usize::BITS == 32 {
            assert(usize::MAX == 0xffff_ffff);
        } else {
            assert(usize::MAX == 0xffff_ffff_ffff_ffff);
        }
    }
}

/// Whatever a handle is used for, everything stays in order.
pub proof fn law_every_call_keeps_order<T>(s: Story<T>, call: Call<T>)
    requires
        s.inv(),
    ensures
        s.after(call) matches Some(w) ==> w.inv(),
{
    if s.is_allowed(call) {
        let v = s.area;
        match call {
            Call::Reserve { n } => {
                if s.with(call) != s {
                    lemma_reserve(s, n as int);
                }
            },
            Call::ReserveBestEffort { n } => {
                let actual = steps::best_effort(v.capacity(), n as int, v.free_gen, v.write_gen);
                if actual != 0 {
                    lemma_reserve(s, actual);
                }
            },
            Call::Write { generation, message } => lemma_write(s, generation, message),
            Call::Publish { start, end } => lemma_publish(s, start, end),
            Call::CreateReader { seed } => lemma_create_reader(s, seed),
            Call::CreateWriter => lemma_create_writer(s),
            Call::Read { reader } => lemma_read(s, reader),
            Call::DropSlice { reader, armed } => lemma_drop_slice(s, reader, armed),
            Call::Advance { reader, generation } => lemma_reader_calls(s, reader, generation),
            Call::Suspend { reader } => lemma_reader_calls(s, reader, 0),
            Call::Resume { reader } => lemma_reader_calls(s, reader, 0),
            Call::ResumeAt { reader, generation } => lemma_reader_calls(s, reader, generation),
            Call::Cleanup => lemma_cleanup(s),
            Call::DropWriter => lemma_drop_writer(s),
            Call::DropReader { reader } => lemma_drop_reader(s, reader),
        }
    }
}

/// Whatever the handles were used for since the beginning, everything is in order.
pub proof fn law_everything_stays_in_order<T>(s: Story<T>, calls: Seq<Call<T>>)
    requires
        s.inv(),
    ensures
        s.after_all(calls) matches Some(w) ==> w.inv(),
    decreases calls.len(),
{
    if calls.len() > 0 {
        law_everything_stays_in_order(s, calls.drop_last());
        match s.after_all(calls.drop_last()) {
            Some(before) => law_every_call_keeps_order(before, calls.last()),
            None => {},
        }
    }
}

impl<T> Story<T> {
    /// The place is that of one of the `n` messages that come next to be dropped.
    pub open spec fn is_place_of_next(self, n: int, i: int) -> bool {
        model::covers(self.area.capacity(), self.area.last_valid_gen, n, i)
    }

    /// A call that leads to `w` has emptied the places of the `n` oldest messages that were there,
    /// and of nothing else.
    pub open spec fn empties(self, w: Self, n: int) -> bool {
        let v = self.area;
        let d = self.dropped.len() as int;
        &&& 0 <= n <= self.log.len() - d
        &&& w.dropped == self.dropped + self.log.subrange(d, d + n)
        &&& forall|k: int|
            0 <= k < n ==> {
                let generation = #[trigger] arithmetics::gen_add(v.last_valid_gen, k);
                &&& v.message(generation) == Some(self.log[d + k])
                &&& w.area.message(generation) is None
            }
        &&& w.area.capacity() == v.capacity()
        &&& forall|i: int|
            0 <= i < v.capacity() && !self.is_place_of_next(n, i) ==> #[trigger] w.area.buffer[i]
                == v.buffer[i]
    }
}

/// What a cleanup empties, whatever else the call does.
proof fn lemma_empties<T>(s: Story<T>, cleaned: Story<T>, w: Story<T>)
    requires
        s.area_in_order(),
        cleaned.area_in_order(),
        cleaned.log == s.log,
        cleaned.dropped == s.dropped,
        cleaned.area.buffer == s.area.buffer,
        cleaned.area.free_gen == s.area.free_gen,
        w.area.buffer == cleaned.area.cleaned().buffer,
        w.dropped == s.dropped + given_up(cleaned.area),
    ensures
        s.empties(w, cleaned.area.offset(cleaned.area.held())),
{
    let v = cleaned.area;
    let n = v.offset(v.held());
    let d = s.dropped.len() as int;
    lemma_cleanup_numbers(v);
    lemma_cleanup_buffer(v);
    lemma_given_up(cleaned);
    assert(given_up(v) =~= s.log.subrange(d, d + n));
    assert forall|k: int| 0 <= k < n implies ({
        let generation = #[trigger] arithmetics::gen_add(s.area.last_valid_gen, k);
        &&& s.area.message(generation) == Some(s.log[d + k])
        &&& w.area.message(generation) is None
    }) by {
        assert(given_up(v)[k] == s.log[d + k]);
        assert(v.cleaned().message(arithmetics::gen_add(v.free_gen, k)) is None);
    }
}

/// A cleanup that returns a result has emptied the places of the messages from where the result
/// begins up to where it ends, each of which was there as it was published, and no other place. A
/// cleanup that returns an error has emptied none.
pub proof fn law_a_cleanup_drops_what_it_says<T>(s: Story<T>)
    requires
        s.inv(),
        s.after(Call::Cleanup) is Some,
    ensures
        ({
            let w = s.after(Call::Cleanup)->0;
            match s.area.cleanup_result() {
                Ok(r) => {
                    &&& w.cleanups == s.cleanups.push(r)
                    &&& r.old_last_valid == s.area.last_valid_gen
                    &&& r.new_last_valid == arithmetics::gen_add(
                        r.old_last_valid,
                        r.slots_cleaned as int,
                    )
                    &&& s.empties(w, r.slots_cleaned as int)
                },
                Err(_) => {
                    &&& w.cleanups == s.cleanups
                    &&& w.area.buffer == s.area.buffer
                    &&& s.empties(w, 0)
                },
            }
        }),
{
    reveal(Story::inv);
    let v = s.area;
    let w = s.with(Call::Cleanup);
    let n = v.offset(v.held());
    lemma_cleanup_numbers(v);
    assert(s.empties(w, n)) by {
        lemma_empties(s, s, w);
    }
    assert(n == 0 ==> w.area.buffer == v.buffer) by {
        lemma_cleanup_buffer(v);
    }
    assert(v.held() == arithmetics::gen_add(v.free_gen, n)) by {
        arithmetics::law_add_distance(v.held(), v.free_gen);
    }
}

/// Nothing but a cleanup, and the last handle that is dropped, empties any place; only writing
/// changes what a place holds besides.
pub proof fn law_nothing_else_drops_messages<T>(s: Story<T>, call: Call<T>)
    requires
        s.inv(),
        s.after(call) is Some,
        call !is Cleanup,
        call !is DropWriter,
        call !is DropReader,
    ensures
        ({
            let w = s.after(call)->0;
            &&& w.dropped == s.dropped
            &&& w.cleanups == s.cleanups
            &&& w.endings == s.endings
            &&& call !is Write ==> w.area.buffer == s.area.buffer
        }),
{
    reveal(Story::inv);
}

/// A handle that is dropped is told that it was the last one if and only if nobody is left. It has
/// then emptied the places of all messages that were still there, from the last valid generation
/// up to the read generation. Otherwise it has emptied none. Nothing that it does has to wait.
pub proof fn law_the_last_handle_drops_what_is_left<T>(s: Story<T>, call: Call<T>)
    requires
        s.inv(),
        s.after(call) is Some,
        call is DropWriter || call is DropReader,
    ensures
        ({
            let w = s.after(call)->0;
            let last = match call {
                Call::DropReader { reader } => s.area.ends_with_reader(reader),
                _ => s.area.ends_with_writer(),
            };
            &&& last <==> !w.somebody_is_there()
            &&& w.endings == s.endings + (if last {
                1int
            } else {
                0
            })
            &&& last ==> {
                &&& s.empties(
                    w,
                    arithmetics::gen_dist(s.area.read_gen, s.area.last_valid_gen),
                )
                &&& w.dropped == s.log
                &&& w.area.last_valid_gen == s.area.read_gen
            }
            &&& !last ==> w.area.buffer == s.area.buffer && w.dropped == s.dropped
            &&& w.cleanups == s.cleanups
            &&& match call {
                Call::DropReader { reader } => s.area.reader_can_leave(reader),
                _ => s.area.writer_can_leave(),
            }
        }),
{
    reveal(Story::inv);
    let v = s.area;
    let w = s.with(call);
    law_every_call_keeps_order(s, call);
    match call {
        Call::DropReader { reader } => {
            let left = s.with_area(v.without_reader(reader));
            lemma_unregister(s, reader);
            lemma_reader_is_somebody(v, reader);
            laws::law_reader_leaves(v, reader);
            if v.ends_with_reader(reader) {
                lemma_counts_are_no_matter(left, v.writers_count, 0);
                let gone = s.with_area(AreaView { destroy_stages: 0, ..left.area });
                lemma_nothing_left(gone);
                lemma_empties(s, gone, w);
            }
        },
        _ => {
            laws::law_writer_leaves(v);
            if v.ends_with_writer() {
                lemma_counts_are_no_matter(s, 0, 0);
                let gone = s.with_area(AreaView { writers_count: 0, destroy_stages: 0, ..v });
                lemma_nothing_left(gone);
                lemma_empties(s, gone, w);
            }
        },
    }
}

/// Each of some cleanups that came in turn begins where the one before it has ended.
proof fn lemma_adjacent(cleanups: Seq<CleanupResult>, i: int)
    requires
        forall|j: int| 0 <= j < cleanups.len() ==> #[trigger] in_turn(cleanups, j),
        0 <= i < cleanups.len(),
    ensures
        is_adjacent(cleanups, i),
{
    assert(in_turn(cleanups, i));
    if i > 0 {
        assert(in_turn(cleanups, i - 1));
    } else {
        assert(cleanups.take(0).len() == 0);
    }
}

/// Over all that happens to an area, each cleanup begins where the one before it has ended, and the
/// first one at generation 0. What was dropped is what was published, in order, each message once
/// and none left out: by the cleanups for as long as somebody is there, and all the rest by the last
/// handle that is dropped.
pub proof fn law_every_message_is_dropped_once<T>(
    buffer_capacity: usize,
    reader_capacity: usize,
    calls: Seq<Call<T>>,
)
    requires
        0 < buffer_capacity <= arithmetics::gen_horizon(),
        is_pow2(reader_capacity as int),
        reader_capacity < crate::map::IN_PROGRESS,
        Story::<T>::beginning(buffer_capacity, reader_capacity).after_all(calls) is Some,
    ensures
        ({
            let w = Story::<T>::beginning(buffer_capacity, reader_capacity).after_all(calls)->0;
            &&& forall|i: int|
                0 <= i < w.cleanups.len() ==> #[trigger] is_adjacent(w.cleanups, i)
            &&& forall|i: int| 0 <= i < w.cleanups.len() ==> #[trigger] in_turn(w.cleanups, i)
            &&& w.area.last_valid_gen == arithmetics::gen_of(w.dropped.len() as int)
            &&& w.area.read_gen == arithmetics::gen_of(w.log.len() as int)
            &&& w.dropped.len() <= w.log.len()
            &&& w.dropped == w.log.take(w.dropped.len() as int)
            &&& w.somebody_is_there() ==> w.dropped.len() == total(w.cleanups)
            &&& !w.somebody_is_there() ==> w.dropped == w.log
        }),
{
    reveal(Story::inv);
    let s = Story::<T>::beginning(buffer_capacity, reader_capacity);
    let w = s.after_all(calls)->0;
    law_the_beginning_is_in_order::<T>(buffer_capacity, reader_capacity);
    law_everything_stays_in_order(s, calls);
    lemma_read_generation(w);
    assert forall|i: int| 0 <= i < w.cleanups.len() implies #[trigger] is_adjacent(
        w.cleanups,
        i,
    ) by {
        lemma_adjacent(w.cleanups, i);
    }
}

/// Over all that happens to an area, exactly one handle is told that it was the last one, when all
/// have been dropped, and nothing can be done with the area after that.
pub proof fn law_one_handle_is_the_last<T>(
    buffer_capacity: usize,
    reader_capacity: usize,
    calls: Seq<Call<T>>,
    next: Call<T>,
)
    requires
        0 < buffer_capacity <= arithmetics::gen_horizon(),
        is_pow2(reader_capacity as int),
        reader_capacity < crate::map::IN_PROGRESS,
        Story::<T>::beginning(buffer_capacity, reader_capacity).after_all(calls) is Some,
    ensures
        ({
            let w = Story::<T>::beginning(buffer_capacity, reader_capacity).after_all(calls)->0;
            &&& w.endings == (if w.somebody_is_there() {
                0int
            } else {
                1
            })
            &&& !w.somebody_is_there() ==> {
                &&& calls.len() > 0
                &&& calls.last() is DropWriter || calls.last() is DropReader
                &&& w.after(next) is None
            }
        }),
{
    reveal(Story::inv);
    let s = Story::<T>::beginning(buffer_capacity, reader_capacity);
    let w = s.after_all(calls)->0;
    law_the_beginning_is_in_order::<T>(buffer_capacity, reader_capacity);
    law_everything_stays_in_order(s, calls);
    if !w.somebody_is_there() {
        if calls.len() > 0 {
            let before = s.after_all(calls.drop_last())->0;
            law_everything_stays_in_order(s, calls.drop_last());
            lemma_who_leaves(before, calls.last());
        }
        lemma_nobody_calls(w, next);
    }
}

/// Only dropping a handle makes nobody be there anymore, and somebody was there before.
proof fn lemma_who_leaves<T>(s: Story<T>, call: Call<T>)
    requires
        s.inv(),
        s.after(call) is Some,
    ensures
        s.somebody_is_there(),
        !s.after(call)->0.somebody_is_there() ==> call is DropWriter || call is DropReader,
{
    reveal(Story::inv);
    if !s.somebody_is_there() {
        lemma_nobody_calls(s, call);
    }
    if call !is DropWriter && call !is DropReader {
        assert(s.with(call).somebody_is_there()) by {
            match call {
                Call::CreateReader { seed } => {
                    if s.area.registration(seed) is Some {
                        let (reader_id, index) = s.area.registration(seed)->0;
                        laws::law_registered_reader_is_new(s.area, seed);
                        assert(s.with(call).area.keys[index] == reader_id);
                    }
                },
                Call::Cleanup => lemma_cleanup_numbers(s.area),
                _ => {},
            }
        }
    }
}

/// Where nobody is there, no call can be made.
proof fn lemma_nobody_calls<T>(s: Story<T>, call: Call<T>)
    requires
        s.inv(),
        !s.somebody_is_there(),
    ensures
        s.after(call) is None,
{
    reveal(Story::inv);
    match call {
        Call::Read { reader } | Call::Suspend { reader } | Call::Resume { reader }
        | Call::DropReader { reader } => {
            if s.is_reader(reader) {
                lemma_reader_is_somebody(s.area, reader);
            }
        },
        Call::DropSlice { reader, .. } | Call::Advance { reader, .. }
        | Call::ResumeAt { reader, .. } => {
            if s.is_reader(reader) {
                lemma_reader_is_somebody(s.area, reader);
            }
        },
        _ => {},
    }
}

impl<T> Story<T> {
    /// How many messages were published before the one that a reader is at.
    pub open spec fn position(self, reader: NumericType) -> int {
        self.dropped.len() + self.area.offset(self.area.reader_gen(reader))
    }

    /// The reader is there, and is not suspended.
    pub open spec fn is_active(self, reader: NumericType) -> bool {
        self.is_reader(reader) && !area::suspended(self.area.reader_gen(reader))
    }

    /// The number of messages of the slice that a reader holds.
    pub open spec fn slice_len(self, reader: NumericType) -> int {
        arithmetics::gen_dist(self.slices[reader].end, self.slices[reader].start)
    }

    /// The messages of the slice that a reader holds, as they are in their places.
    pub open spec fn slice_messages(self, reader: NumericType) -> Seq<Option<T>> {
        self.area.messages(self.slices[reader].start, self.slice_len(reader))
    }

    /// Some messages that were published, in order.
    pub open spec fn said(self, from: int, to: int) -> Seq<Option<T>> {
        Seq::new((to - from) as nat, |k: int| Some(self.log[from + k]))
    }

    /// What a reader gets to read by a number of calls: the messages of each slice that it drops.
    pub open spec fn heard(self, calls: Seq<Call<T>>, reader: NumericType) -> Seq<Option<T>>
        decreases calls.len(),
    {
        if calls.len() == 0 {
            Seq::empty()
        } else {
            let earlier = self.heard(calls.drop_last(), reader);
            match self.after_all(calls.drop_last()) {
                Some(before) => if calls.last() == (Call::<T>::DropSlice { reader, armed: true }) {
                    earlier + before.slice_messages(reader)
                } else {
                    earlier
                },
                None => earlier,
            }
        }
    }
}

/// The call moves the reader in another way than by dropping a slice.
pub open spec fn moves<T>(call: Call<T>, reader: NumericType) -> bool {
    match call {
        Call::Advance { reader: other, .. } => other == reader,
        Call::Suspend { reader: other } => other == reader,
        Call::Resume { reader: other } => other == reader,
        Call::ResumeAt { reader: other, .. } => other == reader,
        Call::DropReader { reader: other } => other == reader,
        _ => false,
    }
}

/// A reader moves only by dropping slices.
pub open spec fn only_reads<T>(calls: Seq<Call<T>>, reader: NumericType) -> bool {
    forall|i: int| 0 <= i < calls.len() ==> !moves(#[trigger] calls[i], reader)
}

/// Reading moves nobody. The slice begins where the reader is and ends with what is published: it
/// holds every message that was published and that the reader has not passed.
pub proof fn law_reading_covers_everything_unread<T>(s: Story<T>, reader: NumericType)
    requires
        s.inv(),
        s.is_active(reader),
        s.after(Call::Read { reader }) is Some,
    ensures
        ({
            let w = s.after(Call::Read { reader })->0;
            &&& w.area == s.area
            &&& w.log == s.log
            &&& w.slices[reader].start == s.area.reader_gen(reader)
            &&& w.slices[reader].end == s.area.read_gen
            &&& w.slice_len(reader) == arithmetics::gen_dist(
                s.area.read_gen,
                s.area.reader_gen(reader),
            )
            &&& s.position(reader) + w.slice_len(reader) == s.log.len()
        }),
{
    reveal(Story::inv);
    let w = s.with(Call::Read { reader });
    lemma_read(s, reader);
    assert(w.slices.dom().contains(reader));
    assert(w.slice_in_order(reader));
    laws::lemma_order_by_offset(s.area.read_gen, s.area.reader_gen(reader), s.area.free_gen);
}

/// For as long as an active reader holds a slice, the slice is made of the messages that were
/// published from where the reader is on, as they were published.
pub proof fn law_slices_are_what_was_published<T>(s: Story<T>, reader: NumericType)
    requires
        s.inv(),
        s.slices.dom().contains(reader),
        !area::suspended(s.area.reader_gen(reader)),
    ensures
        0 <= s.slice_len(reader),
        s.position(reader) + s.slice_len(reader) <= s.log.len(),
        s.slice_messages(reader) == s.said(
            s.position(reader),
            s.position(reader) + s.slice_len(reader),
        ),
{
    reveal(Story::inv);
    let v = s.area;
    let slice = s.slices[reader];
    let at = s.position(reader);
    let n = s.slice_len(reader);
    assert(s.slice_in_order(reader));
    laws::lemma_order_by_offset(slice.end, slice.start, v.free_gen);
    assert forall|k: int| 0 <= k < n implies s.slice_messages(reader)[k] == s.said(at, at + n)[k] by {
        assert(s.kept(at + k) == Some(s.log[at + k]));
        assert(arithmetics::gen_of(at + k) == arithmetics::gen_add(slice.start, k)) by {
            lemma_generation(s, at + k);
            laws::lemma_place_by_offset(v, slice.start, k);
        }
    }
    assert(s.slice_messages(reader) =~= s.said(at, at + n));
}

/// A reader that drops a slice is then at its end, where the next slice begins.
pub proof fn law_dropping_a_slice_passes_it<T>(s: Story<T>, reader: NumericType)
    requires
        s.inv(),
        s.is_active(reader),
        s.slices.dom().contains(reader),
    ensures
        s.after(Call::DropSlice { reader, armed: true }) is Some,
        ({
            let w = s.after(Call::DropSlice { reader, armed: true })->0;
            &&& w.is_active(reader)
            &&& w.area.reader_gen(reader) == s.slices[reader].end
            &&& w.position(reader) == s.position(reader) + s.slice_len(reader)
            &&& w.log == s.log
        }),
{
    reveal(Story::inv);
    let v = s.area;
    let slice = s.slices[reader];
    let w = s.with(Call::DropSlice { reader, armed: true });
    assert(s.slice_in_order(reader));
    lemma_reader_is_published(v, reader);
    assert(s.slice_len(reader) == v.offset(slice.end) - v.offset(slice.start)) by {
        laws::lemma_order_by_offset(slice.end, slice.start, v.free_gen);
    }
    if v.set_gen_result(reader, slice.end) is Ok {
        assert(w.area.reader_gen(reader) == slice.end);
        assert(!area::suspended(slice.end));
    } else {
        assert(slice.start == slice.end) by {
            laws::lemma_order_by_offset(slice.start, slice.end, v.free_gen);
            laws::lemma_place_by_offset(v, slice.start, 0);
            laws::lemma_place_by_offset(v, slice.end, 0);
        }
    }
}

/// Setting the generation of one reader leaves the others where they are.
pub(crate) proof fn lemma_other_moves<T>(
    v: AreaView<T>,
    reader: NumericType,
    other: NumericType,
    g: NumericType,
)
    requires
        v.coherent(),
        area::valid_reader_id(reader),
        area::valid_reader_id(other),
        v.registered(reader),
        v.registered(other),
        reader != other,
    ensures
        v.with_reader_gen(other, g).registered(reader),
        v.with_reader_gen(other, g).reader_gen(reader) == v.reader_gen(reader),
{
    bits::lemma_power_divides(v.keys.len() as usize);
    lemma_reader_slot(v, reader);
    lemma_reader_slot(v, other);
    assert(v.reader_slot(other) != v.reader_slot(reader));
}

/// A cleanup leaves an active reader where it is.
proof fn lemma_cleanup_leaves_reader<T>(s: Story<T>, reader: NumericType)
    requires
        s.area_in_order(),
        s.is_active(reader),
    ensures
        s.cleaned_up().is_active(reader),
        s.cleaned_up().area.reader_gen(reader) == s.area.reader_gen(reader),
        s.cleaned_up().position(reader) == s.position(reader),
{
    let v = s.area;
    let slot = v.reader_slot(reader);
    lemma_given_up(s);
    lemma_cleanup_numbers(v);
    laws::law_cleanup_keeps_coherence(v);
    laws::law_cleanup_keeps_what_active_readers_hold(v);
    bits::lemma_power_divides(v.keys.len() as usize);
    lemma_reader_slot(v, reader);
    assert(laws::sweeps_to(v.gens[slot], v.cleaned().gens[slot]));
    assert(v.offset(v.gens[slot]) <= v.offset(v.read_gen));
    laws::lemma_order_by_offset(v.gens[slot], v.held(), v.free_gen);
}

/// An active reader is moved by nothing but by itself: neither by the calls of others, nor by
/// reading. What was published stays as it was.
pub proof fn law_nobody_else_moves_a_reader<T>(s: Story<T>, call: Call<T>, reader: NumericType)
    requires
        s.inv(),
        s.is_active(reader),
        s.after(call) is Some,
        !moves(call, reader),
        call != (Call::<T>::DropSlice { reader, armed: true }),
    ensures
        ({
            let w = s.after(call)->0;
            &&& w.is_active(reader)
            &&& w.area.reader_gen(reader) == s.area.reader_gen(reader)
            &&& w.position(reader) == s.position(reader)
            &&& s.log.len() <= w.log.len()
            &&& s.log == w.log.take(s.log.len() as int)
        }),
{
    reveal(Story::inv);
    let v = s.area;
    let w = s.with(call);
    assert(s.log =~= w.log.take(s.log.len() as int));
    match call {
        Call::CreateReader { seed } => {
            if v.registration(seed) is Some {
                laws::law_registered_reader_is_new(v, seed);
                assert(w.area.registered(reader));
            }
        },
        Call::DropSlice { reader: other, armed } => {
            if armed {
                lemma_other_moves(v, reader, other, s.slices[other].end);
            }
        },
        Call::Advance { reader: other, generation } => {
            lemma_other_moves(v, reader, other, generation);
        },
        Call::Suspend { reader: other } => {
            lemma_other_moves(v, reader, other, area::suspended_at(v.reader_gen(other)));
        },
        Call::Resume { reader: other } => {
            lemma_other_moves(
                v,
                reader,
                other,
                arithmetics::gen_of(v.reader_gen(other) as int),
            );
        },
        Call::ResumeAt { reader: other, generation } => {
            lemma_other_moves(v, reader, other, arithmetics::gen_of(generation as int));
        },
        Call::Cleanup => lemma_cleanup_leaves_reader(s, reader),
        Call::DropWriter => {
            lemma_reader_is_somebody(v, reader);
            laws::law_writer_leaves(v);
        },
        Call::DropReader { reader: other } => {
            laws::law_reader_that_leaves_is_gone(v, other);
            assert(v.without_reader(other).registered(reader));
            lemma_reader_is_somebody(v.without_reader(other), reader);
            laws::law_reader_leaves(v, other);
        },
        _ => {},
    }
}

/// A reader that stays active and moves only by dropping its slices hears every message from where
/// it was on, in order and once, as it was published: the slices that it has dropped, one after the
/// other, are the messages from where it was up to where it is.
pub proof fn law_slices_make_up_everything<T>(
    s: Story<T>,
    calls: Seq<Call<T>>,
    reader: NumericType,
)
    requires
        s.inv(),
        s.is_active(reader),
        only_reads(calls, reader),
        s.after_all(calls) is Some,
    ensures
        ({
            let w = s.after_all(calls)->0;
            &&& w.inv()
            &&& w.is_active(reader)
            &&& s.position(reader) <= w.position(reader) <= w.log.len()
            &&& s.heard(calls, reader) == w.said(s.position(reader), w.position(reader))
        }),
    decreases calls.len(),
{
    let w = s.after_all(calls)->0;
    let start = s.position(reader);
    law_everything_stays_in_order(s, calls);
    lemma_position_is_published(s, reader);
    if calls.len() == 0 {
        assert(s.heard(calls, reader) =~= w.said(start, start));
    } else {
        let earlier = calls.drop_last();
        let before = s.after_all(earlier)->0;
        let call = calls.last();
        assert(only_reads(earlier, reader)) by {
            assert forall|i: int| 0 <= i < earlier.len() implies !moves(
                #[trigger] earlier[i],
                reader,
            ) by {
                assert(earlier[i] == calls[i]);
            }
        }
        assert(!moves(calls[calls.len() - 1], reader));
        law_slices_make_up_everything(s, earlier, reader);
        let at = before.position(reader);
        if call == (Call::<T>::DropSlice { reader, armed: true }) {
            law_slices_are_what_was_published(before, reader);
            law_dropping_a_slice_passes_it(before, reader);
            let end = w.position(reader);
            assert(before.said(start, at) + before.said(at, end) =~= w.said(start, end));
        } else {
            law_nobody_else_moves_a_reader(before, call, reader);
            assert forall|k: int| 0 <= k < at - start implies before.said(start, at)[k] == w.said(
                start,
                at,
            )[k] by {
                assert(w.log.take(before.log.len() as int)[start + k] == before.log[start + k]);
            }
            assert(before.said(start, at) =~= w.said(start, at));
        }
        lemma_position_is_published(w, reader);
    }
}

/// An active reader is not ahead of what is published.
proof fn lemma_position_is_published<T>(s: Story<T>, reader: NumericType)
    requires
        s.inv(),
        s.is_active(reader),
    ensures
        s.dropped.len() <= s.position(reader) <= s.log.len(),
{
    reveal(Story::inv);
    lemma_reader_is_published(s.area, reader);
}

} // verus!
