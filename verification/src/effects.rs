//! What the operations do to an area, told by what they report, what they change and what they
//! leave alone.
use crate::area::{self, RegisterError, ResumeError, SetGenError, SuspendError};
use crate::arithmetics::{self, NumericType};
use crate::bits;
use crate::laws;
use crate::model::{self, AreaView};
use crate::steps;
use vstd::arithmetic::power2::*;
use vstd::prelude::*;

verus! {

/// A reservation of `n` slots gets them if and only if there is room for them next to the slots
/// that are in use: from the next one to hand out on, and exactly `n`. One of up to `n` slots gets
/// all that there is room for, but no more than `n`.
pub proof fn law_a_reservation_gets_what_there_is_room_for(
    capacity: nat,
    n: int,
    free: NumericType,
    write: NumericType,
)
    requires
        0 < n,
        capacity < 0x8000_0000_0000_0000,
    ensures
        ({
            let used = arithmetics::gen_dist(write, free);
            let some = steps::best_effort(capacity, n, free, write);
            &&& match steps::reserve_plan(capacity, n, free, write) {
                Ok((start, end)) => {
                    &&& used + n <= capacity
                    &&& start == write
                    &&& end < 0x8000_0000_0000_0000
                    &&& arithmetics::gen_dist(end, start) == n
                },
                Err(err) => used + n > capacity && err is NoSpace,
            }
            &&& steps::available(capacity, free, write) == (if used < capacity {
                capacity - used
            } else {
                0
            })
            &&& 0 <= some <= n
            &&& some > 0 ==> used + some <= capacity
            &&& some < n ==> used + some >= capacity
        }),
{
}

/// Reserving takes slots from the next one to hand out on, so that the one after it gets the slots
/// that follow, and does nothing else.
pub proof fn law_reserving_moves_the_next_slot<T>(v: AreaView<T>, n: int)
    requires
        0 <= n < 0x8000_0000_0000_0000,
    ensures
        ({
            let w = v.with_reserved(n);
            &&& w == (AreaView { write_gen: w.write_gen, ..v })
            &&& w.write_gen < 0x8000_0000_0000_0000
            &&& arithmetics::gen_dist(w.write_gen, v.write_gen) == n
        }),
{
}

/// In a coherent area a reservation of `n` slots succeeds if and only if `n` is at most the
/// capacity less the number of slots in use; the range it reports is what was taken, and the slots
/// in use are `n` more then. Otherwise there is no space, and a reservation of up to `n` slots
/// takes all that is left.
pub proof fn law_reserving_takes_what_is_reported<T>(v: AreaView<T>, n: int)
    requires
        v.coherent(),
        0 < n,
    ensures
        ({
            let used = arithmetics::gen_dist(v.write_gen, v.free_gen);
            let left = v.capacity() - used;
            &&& 0 <= left
            &&& match steps::reserve_plan(v.capacity(), n, v.free_gen, v.write_gen) {
                Ok((start, end)) => {
                    let w = v.with_reserved(n);
                    &&& n <= left
                    &&& start == v.write_gen
                    &&& end == w.write_gen
                    &&& arithmetics::gen_dist(w.write_gen, w.free_gen) == used + n
                },
                Err(err) => n > left && err is NoSpace,
            }
            &&& steps::best_effort(v.capacity(), n, v.free_gen, v.write_gen) == (if n < left {
                n
            } else {
                left
            })
        }),
{
    law_a_reservation_gets_what_there_is_room_for(v.capacity(), n, v.free_gen, v.write_gen);
    if n <= v.capacity() - v.offset(v.write_gen) {
        laws::law_reserving_keeps_coherence(v, n);
    }
}

/// Publishing a range that is not empty succeeds if and only if it begins where what is published
/// ends, which is then at the end of the range. Whoever is told of an error finds everything as it
/// was. An empty range can be published at any time, and nothing comes of it.
pub proof fn law_publishing_is_all_or_nothing<T>(
    v: AreaView<T>,
    start: NumericType,
    end: NumericType,
    exclusive: bool,
)
    ensures
        ({
            let n = arithmetics::gen_dist(end, start);
            let r = v.publish_result(start, end, exclusive);
            let w = v.published(start, end);
            &&& 0 < n <= 0x4000_0000_0000_0000 ==> {
                &&& r is Ok <==> v.read_gen == start
                &&& r is Ok ==> w == (AreaView { read_gen: end, ..v })
            }
            &&& n == 0 || n > 0x4000_0000_0000_0000 ==> r is Ok && w == v
            &&& r matches Err(err) ==> {
                &&& w == v
                &&& exclusive ==> err is OutOfOrderPublishAttempt
                &&& !exclusive ==> err is CasFailed
            }
        }),
{
}

/// Who is told that a range was published can rely on it: every reader has its messages to read,
/// in order, after those that it had already.
pub proof fn law_what_is_reported_as_published_can_be_read<T>(
    v: AreaView<T>,
    start: NumericType,
    end: NumericType,
    exclusive: bool,
    index: int,
)
    requires
        v.coherent(),
        end < 0x8000_0000_0000_0000,
        v.offset(start) < v.offset(end) <= v.offset(v.write_gen),
        0 <= index < v.gens.len(),
        v.publish_result(start, end, exclusive) is Ok,
    ensures
        v.published(start, end).read_gen == end,
        v.published(start, end).unread(index) == v.unread(index) + v.messages(
            start,
            v.offset(end) - v.offset(start),
        ),
{
    laws::lemma_order_by_offset(end, start, v.free_gen);
    laws::lemma_order_by_offset(start, end, v.free_gen);
    laws::law_published_messages_reach_every_reader(v, end, index);
}

/// Writing a message puts it in the place of its generation, and leaves everything else alone.
pub proof fn law_writing_touches_one_place<T>(
    v: AreaView<T>,
    generation: NumericType,
    message: Option<T>,
    other: NumericType,
)
    requires
        v.capacity() > 0,
    ensures
        ({
            let w = v.with_message(generation, message);
            &&& w == (AreaView { buffer: w.buffer, ..v })
            &&& w.buffer.len() == v.buffer.len()
            &&& w.message(generation) == message
            &&& v.place(other) != v.place(generation) ==> w.message(other) == v.message(other)
            &&& forall|i: int|
                0 <= i < v.buffer.len() && i != v.place(generation) ==> #[trigger] w.buffer[i]
                    == v.buffer[i]
        }),
{
    vstd::arithmetic::div_mod::lemma_mod_bound(generation as usize as int, v.capacity() as int);
    vstd::arithmetic::div_mod::lemma_mod_bound(other as usize as int, v.capacity() as int);
}

/// Setting the flag of a suspended reader, or taking it off, changes nothing of the generation.
pub proof fn law_the_flag_is_apart_from_the_generation(g: NumericType)
    ensures
        area::suspended(g) <==> g >= 0x8000_0000_0000_0000,
        area::suspended(area::suspended_at(g)),
        arithmetics::gen_dist(area::suspended_at(g), g) == 0,
        !area::suspended(arithmetics::gen_of(g as int)),
        arithmetics::gen_dist(arithmetics::gen_of(g as int), g) == 0,
{
}

/// Every reader has a slot, and its id leads there.
pub open spec fn can_be_found<T>(v: AreaView<T>) -> bool {
    &&& v.gens.len() == v.keys.len()
    &&& v.keys.len() > 0
    &&& crate::map::folded(v.keys)
}

/// In a coherent area every reader can be found.
pub proof fn law_readers_of_a_coherent_area_can_be_found<T>(v: AreaView<T>)
    requires
        v.coherent(),
    ensures
        can_be_found(v),
{
    bits::lemma_power_divides(v.keys.len() as usize);
}

/// A reader is registered where its id is found.
proof fn lemma_reader_slot<T>(v: AreaView<T>, reader_id: NumericType, slot: int)
    requires
        can_be_found(v),
        area::valid_reader_id(reader_id),
        0 <= slot < v.keys.len(),
        crate::map::logical_key(v.keys[slot]) == reader_id,
    ensures
        v.registered(reader_id),
        v.reader_slot(reader_id) == slot,
{
    assert(v.keys[slot] != crate::map::EMPTY);
    assert(crate::map::leads_to(v.keys[slot], slot, v.keys.len()));
}

/// The ids of the readers are in the slots, and where an id is not, there is no reader. The
/// generation of a reader is that of the slot with its id.
pub proof fn law_readers_are_found_by_their_ids<T>(v: AreaView<T>, reader_id: NumericType)
    requires
        can_be_found(v),
        area::valid_reader_id(reader_id),
    ensures
        v.registered(reader_id) <==> exists|slot: int|
            0 <= slot < v.keys.len() && crate::map::logical_key(#[trigger] v.keys[slot])
                == reader_id,
        forall|slot: int|
            0 <= slot < v.keys.len() && crate::map::logical_key(#[trigger] v.keys[slot])
                == reader_id ==> v.reader_gen(reader_id) == v.gens[slot] && v.reader_slot(reader_id)
                == slot,
{
    assert forall|slot: int|
        0 <= slot < v.keys.len() && crate::map::logical_key(#[trigger] v.keys[slot])
            == reader_id implies v.reader_gen(reader_id) == v.gens[slot] && v.reader_slot(reader_id)
        == slot by {
        lemma_reader_slot(v, reader_id, slot);
    }
    let home = v.reader_slot(reader_id);
    assert(0 <= home < v.keys.len()) by {
        vstd::arithmetic::div_mod::lemma_mod_bound(
            reader_id as usize + crate::map::ZERO_OFFSET,
            v.keys.len() as int,
        );
    }
    if v.registered(reader_id) {
        assert(crate::map::logical_key(v.keys[home]) == reader_id);
    } else if exists|slot: int|
        0 <= slot < v.keys.len() && crate::map::logical_key(#[trigger] v.keys[slot]) == reader_id {
        let slot = choose|slot: int|
            0 <= slot < v.keys.len() && crate::map::logical_key(#[trigger] v.keys[slot])
                == reader_id;
        lemma_reader_slot(v, reader_id, slot);
    }
}

/// Nothing that is asked of a reader that is not there is done, and whoever asked is told so.
pub proof fn law_who_is_not_there_is_not_found<T>(
    v: AreaView<T>,
    reader_id: NumericType,
    generation: NumericType,
)
    requires
        !v.registered(reader_id),
    ensures
        v.set_gen_result(reader_id, generation) == Err::<(), _>(SetGenError::ReaderNotFound),
        v.with_gen_set(reader_id, generation) == v,
        v.suspend_result(reader_id) == Err::<(), _>(SuspendError::ReaderNotFound),
        v.with_suspended(reader_id) == v,
        v.resume_result(reader_id) == Err::<bool, _>(ResumeError::ReaderNotFound),
        v.with_resumed(reader_id) == v,
        v.resume_at_result(reader_id, generation) == Err::<bool, _>(ResumeError::ReaderNotFound),
        v.with_resumed_at(reader_id, generation) == v,
        v.with_reader_unregistered(reader_id) == v,
{
}

/// The value of a reader slot is now `g`, and nothing else has changed.
pub open spec fn only_moved<T>(v: AreaView<T>, w: AreaView<T>, slot: int, g: NumericType) -> bool {
    w == (AreaView { gens: v.gens.update(slot, g), ..v })
}

/// A reader that is not suspended moves to exactly the generation that it asks for if that one is
/// ahead of it. Otherwise it stays where it is, and is told why.
pub proof fn law_advancing_goes_where_it_is_asked_to<T>(
    v: AreaView<T>,
    reader_id: NumericType,
    slot: int,
    generation: NumericType,
)
    requires
        can_be_found(v),
        area::valid_reader_id(reader_id),
        0 <= slot < v.keys.len(),
        crate::map::logical_key(v.keys[slot]) == reader_id,
    ensures
        ({
            let r = v.set_gen_result(reader_id, generation);
            let w = v.with_gen_set(reader_id, generation);
            let behind = arithmetics::gen_dist(v.gens[slot], generation);
            &&& match r {
                Ok(_) => {
                    &&& v.gens[slot] < 0x8000_0000_0000_0000
                    &&& behind >= 0x4000_0000_0000_0000
                    &&& only_moved(v, w, slot, generation)
                },
                Err(SetGenError::ReaderSuspended) => v.gens[slot] >= 0x8000_0000_0000_0000 && w
                    == v,
                Err(SetGenError::InvalidGeneration) => {
                    &&& v.gens[slot] < 0x8000_0000_0000_0000
                    &&& behind < 0x4000_0000_0000_0000
                    &&& w == v
                },
                Err(SetGenError::ReaderNotFound) => false,
            }
            &&& v.coherent() && v.gens[slot] < 0x8000_0000_0000_0000 && v.offset(generation)
                <= v.offset(v.read_gen) ==> {
                &&& r is Ok <==> v.offset(generation) > v.offset(v.gens[slot])
                &&& r is Ok ==> w.unread(slot) == v.unread(slot).skip(
                    v.offset(generation) - v.offset(v.gens[slot]),
                )
            }
        }),
{
    lemma_reader_slot(v, reader_id, slot);
    let current = v.gens[slot];
    if v.coherent() && v.offset(generation) <= v.offset(v.read_gen) {
        assert(v.offset(current) <= v.offset(v.read_gen));
        laws::lemma_order_by_offset(current, generation, v.free_gen);
        if !area::suspended(current) && v.offset(generation) > v.offset(current) {
            laws::lemma_order_by_offset(generation, current, v.free_gen);
            laws::law_advancing_skips_what_was_read(v, reader_id, generation);
        }
    }
}

/// A reader that is not suspended can suspend itself: from then on it is, at the generation where
/// it was. One that is suspended stays as it is.
pub proof fn law_suspending_leaves_a_reader_where_it_is<T>(
    v: AreaView<T>,
    reader_id: NumericType,
    slot: int,
)
    requires
        can_be_found(v),
        area::valid_reader_id(reader_id),
        0 <= slot < v.keys.len(),
        crate::map::logical_key(v.keys[slot]) == reader_id,
    ensures
        ({
            let r = v.suspend_result(reader_id);
            let w = v.with_suspended(reader_id);
            &&& r is Ok <==> v.gens[slot] < 0x8000_0000_0000_0000
            &&& r is Ok ==> {
                &&& only_moved(v, w, slot, w.gens[slot])
                &&& w.gens[slot] == v.gens[slot] + 0x8000_0000_0000_0000
            }
            &&& r matches Err(err) ==> err is AlreadySuspended && w == v
        }),
{
    lemma_reader_slot(v, reader_id, slot);
}

/// A reader that resumes is not suspended anymore, at the generation that its slot has by then. It
/// is told whether it was suspended; if it was not, nothing changes.
pub proof fn law_resuming_leaves_a_reader_where_it_is<T>(
    v: AreaView<T>,
    reader_id: NumericType,
    slot: int,
)
    requires
        can_be_found(v),
        area::valid_reader_id(reader_id),
        0 <= slot < v.keys.len(),
        crate::map::logical_key(v.keys[slot]) == reader_id,
    ensures
        ({
            let r = v.resume_result(reader_id);
            let w = v.with_resumed(reader_id);
            &&& r == Ok::<_, ResumeError>(v.gens[slot] >= 0x8000_0000_0000_0000)
            &&& v.gens[slot] < 0x8000_0000_0000_0000 ==> w == v
            &&& v.gens[slot] >= 0x8000_0000_0000_0000 ==> {
                &&& only_moved(v, w, slot, w.gens[slot])
                &&& w.gens[slot] == v.gens[slot] - 0x8000_0000_0000_0000
            }
        }),
{
    lemma_reader_slot(v, reader_id, slot);
}

/// A reader that suspends itself and resumes, with nothing in between, has changed nothing.
pub proof fn law_resuming_undoes_suspending<T>(v: AreaView<T>, reader_id: NumericType, slot: int)
    requires
        can_be_found(v),
        area::valid_reader_id(reader_id),
        0 <= slot < v.keys.len(),
        crate::map::logical_key(v.keys[slot]) == reader_id,
        v.gens[slot] < 0x8000_0000_0000_0000,
    ensures
        v.with_suspended(reader_id).with_resumed(reader_id) == v,
        v.with_suspended(reader_id).resume_result(reader_id) == Ok::<_, ResumeError>(true),
{
    lemma_reader_slot(v, reader_id, slot);
    let w = v.with_suspended(reader_id);
    assert(w.with_resumed(reader_id).gens =~= v.gens);
}

/// A suspended reader that resumes at a generation which is published is not suspended anymore, and
/// has yet to read exactly what was published from that generation on. It can do so if and only if
/// that generation is not older than the one it has been moved to. One that is not suspended is
/// told so, and stays where it is.
pub proof fn law_resuming_at_a_generation_goes_there<T>(
    v: AreaView<T>,
    reader_id: NumericType,
    slot: int,
    entry: NumericType,
)
    requires
        can_be_found(v),
        area::valid_reader_id(reader_id),
        0 <= slot < v.keys.len(),
        crate::map::logical_key(v.keys[slot]) == reader_id,
    ensures
        ({
            let r = v.resume_at_result(reader_id, entry);
            let w = v.with_resumed_at(reader_id, entry);
            let away = v.gens[slot] >= 0x8000_0000_0000_0000;
            &&& !away ==> r == Ok::<_, ResumeError>(false) && w == v
            &&& away ==> (r matches Ok(was_away) ==> was_away)
            &&& r == Ok::<_, ResumeError>(true) ==> {
                &&& only_moved(v, w, slot, w.gens[slot])
                &&& w.gens[slot] < 0x8000_0000_0000_0000
                &&& arithmetics::gen_dist(w.gens[slot], entry) == 0
            }
            &&& r matches Err(err) ==> err is GenerationTooOld && w == v
            &&& v.coherent() && away && entry < 0x8000_0000_0000_0000 && v.offset(entry) <= v.offset(
                v.read_gen,
            ) ==> (r is Ok <==> v.offset(entry) >= v.offset(v.gens[slot]))
            &&& v.coherent() && r == Ok::<_, ResumeError>(true) && v.offset(entry) <= v.offset(
                v.read_gen,
            ) ==> {
                &&& w.unread(slot).len() == v.offset(v.read_gen) - v.offset(entry)
                &&& forall|k: int|
                    0 <= k < w.unread(slot).len() ==> #[trigger] w.unread(slot)[k] == v.message(
                        arithmetics::gen_add(entry, k),
                    )
            }
        }),
{
    lemma_reader_slot(v, reader_id, slot);
    let current = v.gens[slot];
    let w = v.with_resumed_at(reader_id, entry);
    let entered = arithmetics::gen_of(entry as int);
    assert(entered < 0x8000_0000_0000_0000 && arithmetics::gen_dist(entered, entry) == 0) by {
        law_the_flag_is_apart_from_the_generation(entry);
    }
    if v.coherent() && v.offset(entry) <= v.offset(v.read_gen) {
        assert(v.offset(current) <= v.offset(v.read_gen));
        if current >= 0x8000_0000_0000_0000 && entry < 0x8000_0000_0000_0000 {
            lemma_resume_decision(current, entry, v.free_gen, v.offset(v.read_gen));
        }
        if v.resume_at_result(reader_id, entry) == Ok::<_, ResumeError>(true) {
            assert(w.gens[slot] == entered);
            lemma_unread_from(v, w, slot, entry);
        }
    }
}

/// What is decided when a suspended reader resumes at a generation, in terms of distances from a
/// common one.
proof fn lemma_resume_decision(
    current: NumericType,
    entry: NumericType,
    base: NumericType,
    top: int,
)
    requires
        current >= 0x8000_0000_0000_0000,
        entry < 0x8000_0000_0000_0000,
        arithmetics::gen_dist(current, base) <= top <= arithmetics::gen_horizon(),
        arithmetics::gen_dist(entry, base) <= top,
    ensures
        steps::resume_at_plan(current, entry) is Ok <==> arithmetics::gen_dist(entry, base)
            >= arithmetics::gen_dist(current, base),
{
    let position = arithmetics::gen_of(current as int);
    assert(arithmetics::gen_dist(position, base) == arithmetics::gen_dist(current, base)) by {
        arithmetics::law_msb_is_ignored(current, base, 0);
    }
    laws::lemma_order_by_offset(position, entry, base);
}

/// What a reader that has entered at a generation has yet to read.
proof fn lemma_unread_from<T>(v: AreaView<T>, w: AreaView<T>, slot: int, entry: NumericType)
    requires
        v.coherent(),
        0 <= slot < v.gens.len(),
        only_moved(v, w, slot, arithmetics::gen_of(entry as int)),
        v.offset(entry) <= v.offset(v.read_gen),
    ensures
        w.unread(slot).len() == v.offset(v.read_gen) - v.offset(entry),
        forall|k: int|
            0 <= k < w.unread(slot).len() ==> #[trigger] w.unread(slot)[k] == v.message(
                arithmetics::gen_add(entry, k),
            ),
{
    let entered = arithmetics::gen_of(entry as int);
    assert(arithmetics::gen_dist(v.read_gen, entered) == v.offset(v.read_gen) - v.offset(entry)) by {
        arithmetics::law_msb_is_ignored(v.read_gen, entry, 0);
        laws::lemma_order_by_offset(v.read_gen, entry, v.free_gen);
    }
    assert forall|k: int| 0 <= k < w.unread(slot).len() implies #[trigger] w.unread(slot)[k]
        == v.message(arithmetics::gen_add(entry, k)) by {
        arithmetics::law_msb_is_ignored(entry, 0, k);
    }
}

/// What registering a reader comes to: it fails if and only if every slot is taken, and then
/// nothing changes. Otherwise the reader gets the first free slot, going round from the one that
/// the seed leads to, under an id that leads to that slot and to no other reader. It is active
/// there, at the generation where the slot was, and nothing else changes.
pub proof fn law_a_reader_gets_the_first_free_slot<T>(
    v: AreaView<T>,
    seed: NumericType,
    r: Result<NumericType, RegisterError>,
    w: AreaView<T>,
)
    requires
        v.coherent(),
        area::registers(v, seed, r, w),
    ensures
        match r {
            Ok(reader_id) => exists|i: int| #[trigger] has_entered(v, w, seed, reader_id, i),
            Err(err) => {
                &&& err is ReaderCapacityReached
                &&& w == v
                &&& forall|slot: int| 0 <= slot < v.keys.len() ==> #[trigger] v.keys[slot] != 0
            },
        },
{
    laws::law_registration_fails_only_when_full(v, seed);
    if v.registration(seed) is Some {
        let (reader_id, index) = v.registration(seed)->0;
        let i = model::free_step(v.keys, steps::seed_key(seed), 0)->0;
        lemma_has_entered(v, seed);
        assert(r == Ok::<_, RegisterError>(reader_id));
        assert(has_entered(v, w, seed, r->Ok_0, i));
    }
}

/// A reader has entered by the seed `seed`, as `reader_id`, at the slot that comes `i` after the
/// first one that was looked at.
pub open spec fn has_entered<T>(
    v: AreaView<T>,
    w: AreaView<T>,
    seed: NumericType,
    reader_id: NumericType,
    i: int,
) -> bool {
    let n = v.keys.len() as int;
    let slot = going_round(seed, i, n);
    &&& 0 <= i < n
    &&& v.keys[slot] == 0
    &&& forall|j: int| 0 <= j < i ==> v.keys[#[trigger] going_round(seed, j, n)] != 0
    &&& area::valid_reader_id(reader_id)
    &&& reader_id == (first_key(seed) + i) % 0x8000_0000_0000_0000 || (first_key(seed) + i)
        % 0x8000_0000_0000_0000 == 0 && reader_id == n
    &&& !v.registered(reader_id)
    &&& w.registered(reader_id)
    &&& w.keys == v.keys.update(slot, reader_id)
    &&& only_moved(v, AreaView { keys: v.keys, ..w }, slot, w.gens[slot])
    &&& w.gens[slot] < 0x8000_0000_0000_0000
    &&& arithmetics::gen_dist(w.gens[slot], v.gens[slot]) == 0
}

/// The first id that is tried: the seed without its most significant bit, or 1 if nothing is left
/// of it.
pub open spec fn first_key(seed: NumericType) -> NumericType {
    if seed % 0x8000_0000_0000_0000 == 0 {
        1
    } else {
        seed % 0x8000_0000_0000_0000
    }
}

/// The slot that comes `i` after the one that a seed leads to, going round among `n` slots.
pub open spec fn going_round(seed: NumericType, i: int, n: int) -> int {
    (first_key(seed) as usize + i) % n
}

/// The slots that the search for a free one comes to.
proof fn lemma_going_round(seed: NumericType, i: int, n: nat)
    requires
        0 < n,
    ensures
        crate::map::probe_index(steps::seed_key(seed), crate::map::ZERO_OFFSET, i, n)
            == going_round(seed, i, n as int),
{
    let key = steps::seed_key(seed);
    assert(key == first_key(seed));
    vstd::arithmetic::div_mod::lemma_add_mod_noop_right(i, key as usize as int, n as int);
}

/// Who registers enters.
proof fn lemma_has_entered<T>(v: AreaView<T>, seed: NumericType)
    requires
        v.coherent(),
        v.registration(seed) is Some,
    ensures
        ({
            let (reader_id, index) = v.registration(seed)->0;
            let i = model::free_step(v.keys, steps::seed_key(seed), 0)->0;
            has_entered(v, v.with_reader(reader_id, index), seed, reader_id, i)
        }),
{
    let key = steps::seed_key(seed);
    let n = v.keys.len();
    let (reader_id, index) = v.registration(seed)->0;
    let i = model::free_step(v.keys, key, 0)->0;
    let w = v.with_reader(reader_id, index);
    model::lemma_free_step_found(v.keys, key, 0);
    laws::law_registered_reader_is_new(v, seed);
    lemma_going_round(seed, i, n);
    let slot = going_round(seed, i, n as int);
    let kept = AreaView { keys: v.keys, ..w };
    assert(only_moved(v, kept, slot, w.gens[slot])) by {
        assert(kept.gens =~= v.gens.update(slot, w.gens[slot]));
    }
    lemma_first_free(v.keys, key, 0);
    assert forall|j: int| 0 <= j < i implies v.keys[#[trigger] going_round(seed, j, n as int)]
        != 0 by {
        lemma_going_round(seed, j, n);
    }
    law_the_flag_is_apart_from_the_generation(v.gens[index]);
    lemma_new_id(key, i, n);
}

/// The search for a free slot passes only slots that are taken.
proof fn lemma_first_free(keys: Seq<u64>, key: u64, from: nat)
    ensures
        model::free_step(keys, key, from) matches Some(i) ==> forall|j: int|
            from <= j < i ==> keys[#[trigger] crate::map::probe_index(
                key,
                crate::map::ZERO_OFFSET,
                j,
                keys.len(),
            )] != crate::map::EMPTY,
    decreases keys.len() - from,
{
    if from < keys.len() {
        lemma_first_free(keys, key, from + 1);
    }
}

/// The id of a reader that comes after `i` steps.
proof fn lemma_new_id(key: u64, i: int, n: nat)
    requires
        0 <= i,
        n < 0x8000_0000_0000_0000,
    ensures
        ({
            let id = crate::map::logical_key(
                crate::map::claimed_key(key, crate::map::ZERO_OFFSET, i, n, true),
            );
            id == (key + i) % 0x8000_0000_0000_0000 || (key + i) % 0x8000_0000_0000_0000 == 0 && id
                == n
        }),
{
}

/// A reader that unregisters is not found anymore. Its slot is free and suspended, at the
/// generation where the reader was, and nothing else changes.
pub proof fn law_unregistering_frees_one_slot<T>(v: AreaView<T>, reader_id: NumericType, slot: int)
    requires
        can_be_found(v),
        area::valid_reader_id(reader_id),
        0 <= slot < v.keys.len(),
        crate::map::logical_key(v.keys[slot]) == reader_id,
    ensures
        ({
            let w = v.without_reader(reader_id);
            &&& w.keys == v.keys.update(slot, 0)
            &&& only_moved(v, AreaView { keys: v.keys, ..w }, slot, w.gens[slot])
            &&& w.gens[slot] >= 0x8000_0000_0000_0000
            &&& arithmetics::gen_dist(w.gens[slot], v.gens[slot]) == 0
            &&& !w.registered(reader_id)
            &&& v.with_reader_unregistered(reader_id) == w
        }),
{
    lemma_reader_slot(v, reader_id, slot);
    law_the_flag_is_apart_from_the_generation(v.gens[slot]);
}

/// The distance from the oldest slot in use to the oldest generation that must be kept on account
/// of the first `n` reader slots: what is published ends there, or a reader that is not suspended
/// is there, and no such reader is further behind.
pub open spec fn is_oldest_held<T>(v: AreaView<T>, n: int, held: int) -> bool {
    &&& held <= v.offset(v.read_gen)
    &&& forall|i: int|
        0 <= i < n && (#[trigger] v.gens[i]) < 0x8000_0000_0000_0000 ==> held <= v.offset(v.gens[i])
    &&& held == v.offset(v.read_gen) || exists|i: int|
        0 <= i < n && (#[trigger] v.gens[i]) < 0x8000_0000_0000_0000 && v.offset(v.gens[i]) == held
}

/// What a cleanup decides at a reader slot, in terms of distances from a common generation.
proof fn lemma_sweep_decision(
    before: NumericType,
    g: NumericType,
    base: NumericType,
    top: int,
)
    requires
        before < 0x8000_0000_0000_0000,
        arithmetics::gen_dist(before, base) <= top <= arithmetics::gen_horizon(),
        arithmetics::gen_dist(g, base) <= top,
    ensures
        ({
            let ahead = arithmetics::gen_dist(g, base) >= arithmetics::gen_dist(before, base);
            match steps::sweep_plan(before, g) {
                steps::Sweep::Force(now) => {
                    &&& g >= 0x8000_0000_0000_0000
                    &&& !ahead
                    &&& now >= 0x8000_0000_0000_0000
                    &&& arithmetics::gen_dist(now, base) == arithmetics::gen_dist(before, base)
                },
                steps::Sweep::Keep(held) => {
                    &&& g >= 0x8000_0000_0000_0000 ==> ahead && held == before
                    &&& g < 0x8000_0000_0000_0000 ==> {
                        &&& held == before || held == g
                        &&& arithmetics::gen_dist(held, base) <= arithmetics::gen_dist(g, base)
                        &&& arithmetics::gen_dist(held, base) <= arithmetics::gen_dist(before, base)
                    }
                },
            }
        }),
{
    law_the_flag_is_apart_from_the_generation(g);
    law_the_flag_is_apart_from_the_generation(before);
    if g >= 0x8000_0000_0000_0000 {
        let position = arithmetics::gen_of(g as int);
        assert(arithmetics::gen_dist(position, base) == arithmetics::gen_dist(g, base)) by {
            arithmetics::law_msb_is_ignored(g, base, 0);
        }
        assert(arithmetics::gen_dist(area::suspended_at(before), base) == arithmetics::gen_dist(
            before,
            base,
        ));
        laws::lemma_order_by_offset(before, position, base);
    } else {
        laws::lemma_order_by_offset(before, g, base);
    }
}

/// One more slot, in which the reader is at `g`, makes `held` the oldest generation that is held.
proof fn lemma_one_more_held<T>(v: AreaView<T>, n: int, before: int, held: int)
    requires
        0 <= n < v.gens.len(),
        is_oldest_held(v, n, before),
        held <= before,
        v.gens[n] >= 0x8000_0000_0000_0000 ==> held == before,
        v.gens[n] < 0x8000_0000_0000_0000 ==> held <= v.offset(v.gens[n]) && (held == before
            || held == v.offset(v.gens[n])),
    ensures
        is_oldest_held(v, n + 1, held),
{
    if held == before && held != v.offset(v.read_gen) {
        let i = choose|i: int|
            0 <= i < n && (#[trigger] v.gens[i]) < 0x8000_0000_0000_0000 && v.offset(v.gens[i])
                == before;
        assert(v.gens[i] < 0x8000_0000_0000_0000);
    }
}

/// What a cleanup gathers is the oldest generation that is held, and what it does to a slot is to
/// move it there if nobody is there and it is behind.
proof fn lemma_sweep<T>(v: AreaView<T>, n: nat)
    requires
        v.coherent(),
        n <= v.gens.len(),
    ensures
        model::min_held(v.gens, v.read_gen, n) < 0x8000_0000_0000_0000,
        is_oldest_held(v, n as int, v.offset(model::min_held(v.gens, v.read_gen, n))),
        forall|i: int| 0 <= i < n ==> #[trigger] is_swept(v, i),
    decreases n,
{
    if n > 0 {
        let m = (n - 1) as nat;
        lemma_sweep(v, m);
        let before = model::min_held(v.gens, v.read_gen, m);
        let held = model::min_held(v.gens, v.read_gen, n);
        let g = v.gens[m as int];
        assert(v.offset(g) <= v.offset(v.read_gen));
        lemma_sweep_decision(before, g, v.free_gen, v.offset(v.read_gen));
        lemma_one_more_held(v, m as int, v.offset(before), v.offset(held));
        assert(is_swept(v, m as int)) by {
            reveal(model::swept);
        }
    }
}

/// What a cleanup makes of the reader slot `i`: one with a reader that is not suspended stays as it
/// is; another one goes forward to the oldest generation that is held on account of the slots
/// before it, unless it is there already or ahead.
pub open spec fn is_swept<T>(v: AreaView<T>, i: int) -> bool {
    let g = v.gens[i];
    let now = model::swept(v.gens, v.read_gen, v.gens.len())[i];
    let held = v.offset(model::min_held(v.gens, v.read_gen, i as nat));
    is_swept_to(v, i, held, now)
}

/// The reader slot `i` is now `now`, where `held` is held on account of the slots before it.
pub open spec fn is_swept_to<T>(v: AreaView<T>, i: int, held: int, now: NumericType) -> bool {
    let g = v.gens[i];
    &&& g < 0x8000_0000_0000_0000 || v.offset(g) >= held ==> now == g
    &&& g >= 0x8000_0000_0000_0000 && v.offset(g) < held ==> {
        &&& now >= 0x8000_0000_0000_0000
        &&& v.offset(now) == held
    }
}

/// The reader slot `i` goes from where it is to `now`, heeding the slots before it.
pub open spec fn moves_up<T>(v: AreaView<T>, i: int, now: NumericType) -> bool {
    exists|held: int| #[trigger] is_oldest_held(v, i, held) && is_swept_to(v, i, held, now)
}

/// Once it has begun, and something is published, a cleanup goes to all slots; where nothing is, it
/// leaves all alone, as they are where they would be moved to.
proof fn lemma_cleaned<T>(v: AreaView<T>)
    requires
        v.coherent(),
    ensures
        v.cleaned().gens.len() == v.gens.len(),
        forall|i: int|
            0 <= i < v.gens.len() ==> moves_up(v, i, #[trigger] v.cleaned().gens[i]),
        v.held() < 0x8000_0000_0000_0000,
        v.held() == v.cleaned().free_gen,
        v.held() == v.cleaned().last_valid_gen,
        is_oldest_held(v, v.gens.len() as int, v.offset(v.held())),
{
    let n = v.gens.len();
    let w = v.cleaned();
    model::lemma_sweep_len(v.gens, v.read_gen, n);
    lemma_sweep(v, n);
    laws::law_cleanup_keeps_what_active_readers_hold(v);
    laws::lemma_order_by_offset(v.last_valid_gen, v.read_gen, v.free_gen);
    assert forall|i: int| 0 <= i < n implies moves_up(v, i, #[trigger] w.gens[i]) by {
        lemma_sweep(v, i as nat);
        let held = v.offset(model::min_held(v.gens, v.read_gen, i as nat));
        assert(is_swept(v, i));
        assert(is_oldest_held(v, i, held) && is_swept_to(v, i, held, w.gens[i])) by {
            if v.all_clean() {
                assert(v.offset(v.gens[i]) <= v.offset(v.read_gen));
            }
        }
    }
}

/// What a cleanup makes of each reader slot: one with a reader that is not suspended stays as it is;
/// another one goes forward to the oldest generation that is held on account of the slots before
/// it, unless it is there already or ahead, where it stays as it is. So no slot is ever moved back,
/// and none is left behind the oldest generation that is held.
pub proof fn law_a_cleanup_moves_no_reader_back<T>(v: AreaView<T>, i: int)
    requires
        v.coherent(),
        0 <= i < v.gens.len(),
    ensures
        ({
            let w = v.cleaned();
            let g = v.gens[i];
            let now = w.gens[i];
            &&& now >= 0x8000_0000_0000_0000 <==> g >= 0x8000_0000_0000_0000
            &&& v.offset(g) <= v.offset(now) <= v.offset(v.read_gen)
            &&& v.offset(w.last_valid_gen) <= v.offset(now)
            &&& g < 0x8000_0000_0000_0000 || v.offset(now) == v.offset(g) ==> now == g
            &&& moves_up(v, i, now)
        }),
{
    let w = v.cleaned();
    let now = w.gens[i];
    lemma_cleaned(v);
    assert(moves_up(v, i, now));
    let held = choose|held: int| #[trigger]
        is_oldest_held(v, i, held) && is_swept_to(v, i, held, now);
    assert(v.offset(v.gens[i]) <= v.offset(v.read_gen));
    let oldest = v.offset(v.held());
    assert(oldest <= held) by {
        if held != v.offset(v.read_gen) {
            let j = choose|j: int|
                0 <= j < i && (#[trigger] v.gens[j]) < 0x8000_0000_0000_0000 && v.offset(v.gens[j])
                    == held;
            assert(oldest <= v.offset(v.gens[j]));
        }
    }
}

/// What a cleanup reports is what it has done: it cleans from the oldest slot in use up to the
/// oldest generation that is held, if there is anything in between, and there is room for as much
/// more afterwards. It touches nothing but the reader slots, the messages that it drops, and the
/// two numbers that tell from where on messages are kept.
pub proof fn law_a_cleanup_reports_what_it_does<T>(v: AreaView<T>)
    requires
        v.coherent(),
    ensures
        ({
            let w = v.cleaned();
            let n = v.offset(w.last_valid_gen);
            &&& w == (AreaView {
                gens: w.gens,
                buffer: w.buffer,
                last_valid_gen: w.last_valid_gen,
                free_gen: w.last_valid_gen,
                ..v
            })
            &&& w.last_valid_gen < 0x8000_0000_0000_0000
            &&& w.gens.len() == v.gens.len()
            &&& w.buffer.len() == v.buffer.len()
            &&& is_oldest_held(v, v.gens.len() as int, n)
            &&& match v.cleanup_result() {
                Ok(r) => {
                    &&& n > 0
                    &&& r.old_last_valid == v.last_valid_gen
                    &&& r.new_last_valid == w.last_valid_gen
                    &&& r.slots_cleaned == n
                },
                Err(err) => err is NothingToClean && n == 0 && w.last_valid_gen
                    == v.last_valid_gen && w.buffer == v.buffer,
            }
            &&& v.cleanup_ends()
        }),
{
    lemma_cleaned(v);
    laws::lemma_order_by_offset(v.last_valid_gen, v.read_gen, v.free_gen);
    laws::lemma_order_by_offset(v.last_valid_gen, v.held(), v.free_gen);
}

/// A cleanup drops the messages from the oldest slot in use up to where it reports to have come,
/// and no other: neither what is published after that, nor what is reserved.
pub proof fn law_a_cleanup_drops_what_it_reports<T>(v: AreaView<T>, k: int)
    requires
        v.coherent(),
        v.places_are_distinct(),
        0 <= k < v.offset(v.write_gen),
    ensures
        ({
            let w = v.cleaned();
            let generation = arithmetics::gen_add(v.free_gen, k);
            if k < v.offset(w.last_valid_gen) {
                w.message(generation) is None
            } else {
                w.message(generation) == v.message(generation)
            }
        }),
{
    let w = v.cleaned();
    let generation = arithmetics::gen_add(v.free_gen, k);
    let n = v.offset(w.last_valid_gen);
    let place = v.place(generation);
    lemma_cleaned(v);
    arithmetics::law_distance_after_add(v.free_gen, k);
    law_a_cleanup_reports_what_it_does(v);
    vstd::arithmetic::div_mod::lemma_mod_bound(generation as usize as int, v.capacity() as int);
    if k < n {
        laws::law_cleanup_drops_all_the_rest(v, generation);
    } else if n > 0 {
        assert forall|b: int| 0 <= b < n implies #[trigger] steps::slot_index(
            arithmetics::gen_add(v.last_valid_gen, b),
            v.capacity(),
        ) != place by {
            assert(v.place(arithmetics::gen_add(v.free_gen, b)) != v.place(
                arithmetics::gen_add(v.free_gen, k),
            ));
        }
        assert(!model::covers(v.capacity(), v.last_valid_gen, n, place));
    }
}

/// A place of the ring buffer that a cleanup changes is that of a message which it reports to have
/// dropped, and is empty afterwards.
pub proof fn law_a_cleanup_empties_no_other_place<T>(v: AreaView<T>, place: int)
    requires
        v.coherent(),
        0 <= place < v.buffer.len(),
        v.cleaned().buffer[place] != v.buffer[place],
    ensures
        v.cleaned().buffer[place] is None,
        exists|k: int|
            0 <= k < v.offset(v.cleaned().last_valid_gen) && v.place(
                #[trigger] arithmetics::gen_add(v.free_gen, k),
            ) == place,
{
    lemma_cleaned(v);
    law_a_cleanup_reports_what_it_does(v);
    let n = v.offset(v.held());
    assert(model::covers(v.capacity(), v.last_valid_gen, n, place));
    let k = choose|k: int|
        0 <= k < n && #[trigger] steps::slot_index(
            arithmetics::gen_add(v.last_valid_gen, k),
            v.capacity(),
        ) == place;
    assert(v.place(arithmetics::gen_add(v.free_gen, k)) == place);
}

/// Letting a writer in makes the number of writers exactly one more than it was, and changes
/// nothing else.
pub proof fn law_letting_a_writer_in_counts_one_more<T>(v: AreaView<T>)
    requires
        v.writers_count < usize::MAX,
    ensures
        v.with_writer().writers_count == v.writers_count + 1,
        v.with_writer() == (AreaView { writers_count: v.with_writer().writers_count, ..v }),
{
}

/// A writer that leaves makes the number of writers exactly one less than it was. If others stay,
/// nothing else changes. With the last writer one stage less is to go; whoever takes the last stage
/// is the last one there of all, and cleans up.
pub proof fn law_a_writer_that_leaves_counts_one_less<T>(v: AreaView<T>)
    requires
        v.writers_count > 0,
        v.destroy_stages > 0,
    ensures
        ({
            let w = v.with_writer_gone();
            let last = v.ends_with_writer();
            let fewer = AreaView { writers_count: (v.writers_count - 1) as usize, ..v };
            let gone = AreaView { destroy_stages: (v.destroy_stages - 1) as usize, ..fewer };
            &&& v.writers_count > 1 ==> !last && w == fewer
            &&& v.writers_count == 1 ==> {
                &&& last <==> v.destroy_stages == 1
                &&& !last ==> w == gone
                &&& last ==> w == gone.cleaned()
            }
        }),
{
}

/// A reader that leaves frees its slot. If there are other readers, nothing else changes. With the
/// last reader one stage less is to go; whoever takes the last stage is the last one there of all,
/// and cleans up.
pub proof fn law_a_reader_that_leaves_frees_its_slot<T>(
    v: AreaView<T>,
    reader_id: NumericType,
    slot: int,
)
    requires
        v.coherent(),
        area::valid_reader_id(reader_id),
        0 <= slot < v.keys.len(),
        crate::map::logical_key(v.keys[slot]) == reader_id,
        v.destroy_stages > 0,
        v.reader_stage_tickets == 0,
    ensures
        ({
            let w = v.with_reader_gone(reader_id);
            let last = v.ends_with_reader(reader_id);
            let left = v.without_reader(reader_id);
            let gone = AreaView { destroy_stages: (v.destroy_stages - 1) as usize, ..left };
            let others = exists|i: int|
                0 <= i < v.keys.len() && i != slot && #[trigger] v.keys[i] != 0;
            &&& others ==> !last && w == left
            &&& !others ==> {
                &&& last <==> v.destroy_stages == 1
                &&& !last ==> w == gone
                &&& last ==> w == gone.cleaned()
            }
        }),
{
    law_readers_of_a_coherent_area_can_be_found(v);
    lemma_reader_slot(v, reader_id, slot);
    let left = v.without_reader(reader_id);
    assert(left.keys == v.keys.update(slot, 0));
    if exists|i: int| 0 <= i < v.keys.len() && i != slot && #[trigger] v.keys[i] != 0 {
        let i = choose|i: int| 0 <= i < v.keys.len() && i != slot && #[trigger] v.keys[i] != 0;
        assert(left.keys[i] != 0);
    } else if left.has_readers() {
        let i = choose|i: int| 0 <= i < left.keys.len() && #[trigger] left.keys[i] != 0;
        assert(v.keys[i] != 0);
    }
}

/// There are readers if and only if a slot is taken, and for as long as somebody is registered.
pub proof fn law_there_are_readers_while_slots_are_taken<T>(v: AreaView<T>)
    ensures
        v.has_readers() <==> exists|i: int| 0 <= i < v.keys.len() && #[trigger] v.keys[i] != 0,
{
}

/// In a coherent area in which everybody is counted, nobody has to wait: neither for a cleanup nor
/// in order to leave.
pub proof fn law_nobody_has_to_wait<T>(v: AreaView<T>, reader_id: NumericType)
    requires
        v.coherent(),
        v.counted(),
        area::valid_reader_id(reader_id),
    ensures
        v.cleanup_ends(),
        v.writer_can_leave(),
        v.reader_can_leave(reader_id),
{
    if v.registered(reader_id) {
        laws::law_reader_that_leaves_is_gone(v, reader_id);
    }
}

/// A new area is empty: nothing is reserved or published, no slot is taken, no place holds a
/// message, and both groups have yet to leave.
pub proof fn law_a_new_area_is_empty<T>(buffer_capacity: nat, reader_capacity: nat)
    ensures
        ({
            let v = AreaView::<T>::fresh(buffer_capacity, reader_capacity);
            &&& v.write_gen == 0 && v.read_gen == 0 && v.last_valid_gen == 0 && v.free_gen == 0
            &&& v.writers_count == 0
            &&& v.destroy_stages == 2
            &&& v.reader_keep_alloc_tickets == 0
            &&& v.reader_stage_tickets == 0
            &&& v.capacity() == buffer_capacity
            &&& v.buffer.len() == buffer_capacity
            &&& v.keys.len() == reader_capacity
            &&& v.gens.len() == reader_capacity
            &&& forall|i: int| 0 <= i < buffer_capacity ==> #[trigger] v.buffer[i] is None
            &&& forall|i: int| 0 <= i < reader_capacity ==> #[trigger] v.keys[i] == 0
            &&& forall|i: int|
                0 <= i < reader_capacity ==> #[trigger] v.gens[i] == 0x8000_0000_0000_0000
        }),
{
}

/// The first reader of a new area is at the beginning, with nothing to read, and there is room for
/// as many messages as the area was made for.
pub proof fn law_the_first_reader_is_at_the_beginning<T>(
    buffer_capacity: usize,
    reader_capacity: usize,
)
    requires
        0 < buffer_capacity <= arithmetics::gen_horizon(),
        is_pow2(reader_capacity as int),
        reader_capacity < 0x8000_0000_0000_0000,
    ensures
        ({
            let fresh = AreaView::<T>::fresh(buffer_capacity as nat, reader_capacity as nat);
            let (reader_id, index) = fresh.registration(1)->0;
            let v = fresh.with_reader(reader_id, index);
            &&& fresh.registration(1) is Some
            &&& reader_id == 1
            &&& v.registered(1)
            &&& v.reader_gen(1) == 0
            &&& v.unread(index).len() == 0
            &&& steps::available(v.capacity(), v.free_gen, v.write_gen) == buffer_capacity
        }),
{
    let fresh = AreaView::<T>::fresh(buffer_capacity as nat, reader_capacity as nat);
    laws::law_area_starts_counted::<T>(buffer_capacity, reader_capacity);
    fresh.lemma_registration(1);
    lemma_has_entered(fresh, 1);
    model::lemma_free_step(fresh.keys, 1, 0, 0);
}

/// The messages of some generations are in their places, one after the other, and what a reader has
/// yet to read begins where it is and ends where what is published ends.
pub proof fn law_unread_messages_follow_on_each_other<T>(v: AreaView<T>, index: int, k: int)
    requires
        0 <= index < v.gens.len(),
        0 <= k < arithmetics::gen_dist(v.read_gen, v.gens[index]),
    ensures
        v.unread(index).len() == arithmetics::gen_dist(v.read_gen, v.gens[index]),
        v.unread(index)[k] == v.buffer[v.place(arithmetics::gen_add(v.gens[index], k))],
        v.place(v.gens[index]) == (v.gens[index] as usize) as int % v.buffer.len() as int,
{
}

/// The place of a generation is its number modulo the number of places.
pub proof fn law_places_go_round(generation: NumericType, capacity: nat)
    requires
        0 < capacity,
    ensures
        0 <= steps::slot_index(generation, capacity) < capacity,
        generation <= usize::MAX && capacity <= usize::MAX ==> steps::slot_index(generation, capacity)
            == generation as int % capacity as int,
{
    vstd::arithmetic::div_mod::lemma_mod_bound(generation as usize as int, capacity as int);
}

/// The message of a generation is what its place holds.
pub proof fn law_a_message_is_in_its_place<T>(v: AreaView<T>, generation: NumericType)
    ensures
        v.place(generation) == (generation as usize) as int % v.buffer.len() as int,
        v.message(generation) == v.buffer[(generation as usize) as int % v.buffer.len() as int],
        v.capacity() == v.buffer.len(),
{
}

/// Whatever state the area is in, what a cleanup reports is what has become of its numbers: it
/// cleans up to where everything must be kept if that is ahead of where it was cleaned to before,
/// and otherwise leaves the numbers and the messages alone. It never touches anything else but the
/// reader slots.
pub proof fn law_a_cleanup_keeps_its_word_in_any_state<T>(v: AreaView<T>)
    ensures
        ({
            let w = v.cleaned();
            let clean_to = |g: NumericType|
                arithmetics::gen_dist(v.last_valid_gen, g) < 0x4000_0000_0000_0000;
            &&& w == (AreaView {
                gens: w.gens,
                buffer: w.buffer,
                last_valid_gen: w.last_valid_gen,
                free_gen: w.free_gen,
                ..v
            })
            &&& w.gens.len() == v.gens.len()
            &&& w.buffer.len() == v.buffer.len()
            &&& match v.cleanup_result() {
                Ok(r) => {
                    &&& !clean_to(v.read_gen) && !clean_to(v.held())
                    &&& r.old_last_valid == v.last_valid_gen
                    &&& r.new_last_valid == v.held()
                    &&& r.slots_cleaned == arithmetics::gen_dist(r.new_last_valid, r.old_last_valid)
                    &&& w.last_valid_gen == r.new_last_valid
                    &&& w.free_gen == r.new_last_valid
                },
                Err(err) => {
                    &&& err is NothingToClean
                    &&& clean_to(v.read_gen) || clean_to(v.held())
                    &&& w == (AreaView { gens: w.gens, ..v })
                },
            }
            &&& v.cleanup_ends() <==> v.cleanup_result() is Err || v.free_gen == v.last_valid_gen
            &&& clean_to(v.read_gen) ==> w == v
            &&& !clean_to(v.read_gen) ==> w.gens == model::swept(
                v.gens,
                v.read_gen,
                v.gens.len(),
            )
        }),
{
    model::lemma_sweep_len(v.gens, v.read_gen, v.gens.len());
}

/// A stretch of the ring buffer is one part, unless it goes beyond the end of the buffer: then it
/// breaks off there, and the rest of it begins at the start of the buffer.
pub proof fn law_a_stretch_breaks_only_at_the_end<T>(v: AreaView<T>, from: NumericType, n: int)
    requires
        0 <= n <= v.capacity(),
        0 < v.capacity(),
    ensures
        ({
            let (first, second) = v.segments(from, n);
            let start = v.place(from);
            let most = v.buffer.len() - start;
            &&& first.len() + second.len() == n
            &&& first.len() == (if n < most {
                n
            } else {
                most
            })
            &&& forall|k: int| 0 <= k < first.len() ==> #[trigger] first[k] == v.buffer[start + k]
            &&& forall|k: int| 0 <= k < second.len() ==> #[trigger] second[k] == v.buffer[k]
        }),
{
    vstd::arithmetic::div_mod::lemma_mod_bound(from as usize as int, v.capacity() as int);
}

/// The place is that of one of the `n` generations from `from` on.
pub open spec fn is_place_of_one<T>(v: AreaView<T>, from: NumericType, n: int, place: int) -> bool {
    exists|k: int| 0 <= k < n && v.place(#[trigger] arithmetics::gen_add(from, k)) == place
}

/// Whatever state the area is in, a cleanup empties the places of the messages that it reports to
/// have cleaned, and leaves every other place as it is.
pub proof fn law_a_cleanup_empties_what_it_reports_in_any_state<T>(v: AreaView<T>, place: int)
    requires
        0 <= place < v.buffer.len(),
    ensures
        match v.cleanup_result() {
            Ok(r) => v.cleaned().buffer[place] == (if is_place_of_one(
                v,
                r.old_last_valid,
                r.slots_cleaned as int,
                place,
            ) {
                None
            } else {
                v.buffer[place]
            }),
            Err(_) => v.cleaned().buffer[place] == v.buffer[place],
        },
{
    if v.cleanup_result() is Ok {
        let from = v.last_valid_gen;
        let n = arithmetics::gen_dist(v.held(), from);
        law_a_cleanup_keeps_its_word_in_any_state(v);
        assert(v.cleaned().buffer == v.with_emptied(from, n).buffer);
        if model::covers(v.capacity(), from, n, place) {
            let k = choose|k: int|
                0 <= k < n && #[trigger] steps::slot_index(
                    arithmetics::gen_add(from, k),
                    v.capacity(),
                ) == place;
            assert(v.place(arithmetics::gen_add(from, k)) == place);
            assert(is_place_of_one(v, from, n, place));
        } else {
            assert forall|k: int| 0 <= k < n implies v.place(
                #[trigger] arithmetics::gen_add(from, k),
            ) != place by {
                assert(steps::slot_index(arithmetics::gen_add(from, k), v.capacity()) != place);
            }
        }
    }
}

} // verus!
