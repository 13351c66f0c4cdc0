//! What holds of an area whatever is done with it.
use crate::area;
use crate::arithmetics::{self, NumericType};
use crate::bits;
use crate::model::{self, AreaView};
use crate::steps;
use vstd::arithmetic::power2::*;
use vstd::prelude::*;

verus! {

/// Among generations that are not far from a common one, the circular comparison is the
/// comparison of their distances from there.
pub(crate) proof fn lemma_order_by_offset(x: NumericType, y: NumericType, base: NumericType)
    requires
        arithmetics::gen_dist(x, base) <= arithmetics::gen_horizon(),
        arithmetics::gen_dist(y, base) <= arithmetics::gen_horizon(),
    ensures
        arithmetics::gen_gte(x, y) <==> arithmetics::gen_dist(x, base) >= arithmetics::gen_dist(
            y,
            base,
        ),
        x < arithmetics::gen_period() && y < arithmetics::gen_period() ==> (arithmetics::gen_gt(x, y)
            <==> arithmetics::gen_dist(x, base) > arithmetics::gen_dist(y, base)),
        arithmetics::gen_dist(x, base) >= arithmetics::gen_dist(y, base) ==> arithmetics::gen_dist(
            x,
            y,
        ) == arithmetics::gen_dist(x, base) - arithmetics::gen_dist(y, base),
{
}

/// A new area is coherent.
pub proof fn law_new_area_is_coherent<T>(buffer_capacity: usize, reader_capacity: usize)
    requires
        0 < buffer_capacity <= arithmetics::gen_horizon(),
        is_pow2(reader_capacity as int),
        reader_capacity < crate::map::IN_PROGRESS,
    ensures
        AreaView::<T>::fresh(buffer_capacity as nat, reader_capacity as nat).coherent(),
{
}

/// Reserving slots moves the write generation forward by as many, and leaves the area coherent.
pub proof fn law_reserving_keeps_coherence<T>(v: AreaView<T>, n: int)
    requires
        v.coherent(),
        0 <= n <= steps::available(v.capacity(), v.free_gen, v.write_gen),
    ensures
        v.with_reserved(n).coherent(),
        v.with_reserved(n).offset(v.with_reserved(n).write_gen) == v.offset(v.write_gen) + n,
{
}

/// Publishing slots that are reserved leaves the area coherent.
pub proof fn law_publishing_keeps_coherence<T>(
    v: AreaView<T>,
    start_generation: NumericType,
    end_generation: NumericType,
)
    requires
        v.coherent(),
        end_generation < arithmetics::gen_period(),
        v.offset(start_generation) <= v.offset(end_generation) <= v.offset(v.write_gen),
    ensures
        v.published(start_generation, end_generation).coherent(),
{
    let w = v.published(start_generation, end_generation);
    assert forall|i: int| 0 <= i < w.gens.len() implies w.offset(#[trigger] w.gens[i]) <= w.offset(
        w.read_gen,
    ) by {
        assert(v.offset(v.gens[i]) <= v.offset(v.read_gen));
    }
}

/// Moving a reader to any generation that is still valid and is published already leaves the area
/// coherent.
pub proof fn law_moving_a_reader_keeps_coherence<T>(
    v: AreaView<T>,
    reader_id: NumericType,
    g: NumericType,
)
    requires
        v.coherent(),
        area::valid_reader_id(reader_id),
        v.registered(reader_id),
        v.offset(g) <= v.offset(v.read_gen),
    ensures
        v.with_reader_gen(reader_id, g).coherent(),
        v.with_reader_gen(reader_id, g).registered(reader_id),
        v.with_reader_gen(reader_id, g).reader_gen(reader_id) == g,
{
    bits::lemma_power_divides(v.keys.len() as usize);
}

/// The three ways in which a reader moves lead to such generations: suspending, resuming where one
/// is, and resuming at or advancing to a published generation.
pub proof fn law_reader_moves_are_in_range<T>(
    v: AreaView<T>,
    reader_id: NumericType,
    entry_generation: NumericType,
)
    requires
        v.coherent(),
        area::valid_reader_id(reader_id),
        v.registered(reader_id),
    ensures
        v.offset(area::suspended_at(v.reader_gen(reader_id))) <= v.offset(v.read_gen),
        v.offset(arithmetics::gen_of(v.reader_gen(reader_id) as int)) <= v.offset(v.read_gen),
        v.offset(entry_generation) <= v.offset(v.read_gen) ==> v.offset(
            arithmetics::gen_of(entry_generation as int),
        ) <= v.offset(v.read_gen),
{
    let g = v.reader_gen(reader_id);
    assert(v.offset(g) <= v.offset(v.read_gen)) by {
        bits::lemma_power_divides(v.keys.len() as usize);
        assert(v.offset(v.gens[v.reader_slot(reader_id)]) <= v.offset(v.read_gen));
    }
    lemma_flag_is_no_distance(g, v.free_gen);
    lemma_flag_is_no_distance(entry_generation, v.free_gen);
}

/// The search for a free slot comes to every slot.
proof fn lemma_probe_reaches(key: u64, index: int, capacity: nat) -> (i: int)
    requires
        0 <= index < capacity,
    ensures
        0 <= i < capacity,
        crate::map::probe_index(key, crate::map::ZERO_OFFSET, i, capacity) == index,
{
    let home = crate::map::home_index(key, crate::map::ZERO_OFFSET, capacity);
    let i = (index - home) % capacity as int;
    vstd::arithmetic::div_mod::lemma_add_mod_noop_right(home, index - home, capacity as int);
    vstd::arithmetic::div_mod::lemma_small_mod(index as nat, capacity);
    i
}

/// A reader can register if and only if there is a slot that no reader has.
pub proof fn law_registration_fails_only_when_full<T>(v: AreaView<T>, seed: NumericType)
    requires
        v.coherent(),
    ensures
        v.registration(seed) is Some <==> exists|i: int|
            0 <= i < v.keys.len() && #[trigger] v.keys[i] == crate::map::EMPTY,
{
    let key = steps::seed_key(seed);
    model::lemma_free_step_found(v.keys, key, 0);
    if v.registration(seed) is Some {
        let i = model::free_step(v.keys, key, 0)->0;
        let index = crate::map::probe_index(key, crate::map::ZERO_OFFSET, i, v.keys.len());
        assert(v.keys[index] == crate::map::EMPTY);
    } else {
        assert forall|i: int| 0 <= i < v.keys.len() implies #[trigger] v.keys[i]
            != crate::map::EMPTY by {
            let j = lemma_probe_reaches(key, i, v.keys.len());
        }
    }
}

/// Entering at a free slot keeps the reader slots coherent.
proof fn lemma_entering<T>(v: AreaView<T>, reader_id: NumericType, index: int)
    requires
        v.coherent(),
        0 <= index < v.keys.len(),
        v.keys[index] == crate::map::EMPTY,
        area::valid_reader_id(reader_id),
        v.reader_slot(reader_id) == index,
    ensures
        v.with_reader(reader_id, index).coherent(),
{
    let w = v.with_reader(reader_id, index);
    assert forall|j: int|
        0 <= j < w.keys.len() && #[trigger] w.keys[j] != crate::map::EMPTY implies crate::map::leads_to(
        w.keys[j],
        j,
        w.keys.len(),
    ) by {
        if j != index {
            assert(v.keys[j] == w.keys[j]);
        }
    }
    assert forall|j: int|
        0 <= j < w.keys.len() && #[trigger] w.keys[j] == crate::map::EMPTY implies area::suspended(
        w.gens[j],
    ) by {
        assert(v.keys[j] == w.keys[j]);
    }
    assert forall|j: int| 0 <= j < w.gens.len() implies w.offset(#[trigger] w.gens[j]) <= w.offset(
        w.read_gen,
    ) by {
        assert(v.offset(v.gens[j]) <= v.offset(v.read_gen));
    }
}

/// Who is registered after a reader has entered at a free slot, and where.
proof fn lemma_entered<T>(v: AreaView<T>, reader_id: NumericType, index: int)
    requires
        v.readers_coherent(),
        0 <= index < v.keys.len(),
        v.keys[index] == crate::map::EMPTY,
        area::valid_reader_id(reader_id),
        v.reader_slot(reader_id) == index,
    ensures
        ({
            let w = v.with_reader(reader_id, index);
            &&& !v.registered(reader_id)
            &&& w.registered(reader_id)
            &&& !area::suspended(w.reader_gen(reader_id))
            &&& w.offset(w.reader_gen(reader_id)) <= w.offset(w.read_gen)
            &&& forall|other: NumericType|
                area::valid_reader_id(other) && v.registered(other) ==> {
                    &&& #[trigger] w.registered(other)
                    &&& w.reader_gen(other) == v.reader_gen(other)
                }
        }),
{
    let w = v.with_reader(reader_id, index);
    assert(w.reader_gen(reader_id) == arithmetics::gen_of(v.gens[index] as int));
    lemma_flag_is_no_distance(v.gens[index], v.free_gen);
    assert(v.offset(v.gens[index]) <= v.offset(v.read_gen));
    assert forall|other: NumericType|
        area::valid_reader_id(other) && v.registered(other) implies #[trigger] w.registered(other)
        && w.reader_gen(other) == v.reader_gen(other) by {
        let slot = v.reader_slot(other);
        assert(slot != index);
        vstd::arithmetic::div_mod::lemma_mod_bound(
            other as usize + crate::map::ZERO_OFFSET,
            v.keys.len() as int,
        );
        assert(w.keys[slot] == v.keys[slot]);
        assert(w.gens[slot] == v.gens[slot]);
    }
}

/// A reader that registers gets an id that no other reader has, is active from then on, at a
/// generation that is still valid, and leaves the other readers where they are.
pub proof fn law_registered_reader_is_new<T>(v: AreaView<T>, seed: NumericType)
    requires
        v.coherent(),
        v.registration(seed) is Some,
    ensures
        ({
            let (reader_id, index) = v.registration(seed)->0;
            let w = v.with_reader(reader_id, index);
            &&& area::valid_reader_id(reader_id)
            &&& !v.registered(reader_id)
            &&& w.coherent()
            &&& w.registered(reader_id)
            &&& w.reader_slot(reader_id) == index
            &&& 0 <= index < v.keys.len()
            &&& !area::suspended(w.reader_gen(reader_id))
            &&& w.offset(w.reader_gen(reader_id)) <= w.offset(w.read_gen)
            &&& forall|other: NumericType|
                area::valid_reader_id(other) && v.registered(other) ==> {
                    &&& #[trigger] w.registered(other)
                    &&& w.reader_gen(other) == v.reader_gen(other)
                }
        }),
{
    let (reader_id, index) = v.registration(seed)->0;
    let w = v.with_reader(reader_id, index);
    v.lemma_registration(seed);
    lemma_entering(v, reader_id, index);
    lemma_entered(v, reader_id, index);
}

/// A reader that leaves is not registered anymore, and the others stay where they are.
pub proof fn law_reader_that_leaves_is_gone<T>(v: AreaView<T>, reader_id: NumericType)
    requires
        v.coherent(),
        area::valid_reader_id(reader_id),
        v.registered(reader_id),
    ensures
        v.without_reader(reader_id).coherent(),
        !v.without_reader(reader_id).registered(reader_id),
        forall|other: NumericType|
            area::valid_reader_id(other) && other != reader_id && v.registered(other) ==> {
                &&& #[trigger] v.without_reader(reader_id).registered(other)
                &&& v.without_reader(reader_id).reader_gen(other) == v.reader_gen(other)
            },
{
    let w = v.without_reader(reader_id);
    let index = v.reader_slot(reader_id);
    bits::lemma_power_divides(v.keys.len() as usize);
    assert forall|j: int|
        0 <= j < w.keys.len() && #[trigger] w.keys[j] != crate::map::EMPTY implies crate::map::leads_to(
        w.keys[j],
        j,
        w.keys.len(),
    ) by {
        assert(v.keys[j] == w.keys[j]);
    }
    assert forall|j: int|
        0 <= j < w.keys.len() && #[trigger] w.keys[j] == crate::map::EMPTY implies area::suspended(
        w.gens[j],
    ) by {
        if j != index {
            assert(v.keys[j] == w.keys[j]);
        }
    }
    assert forall|j: int| 0 <= j < w.gens.len() implies w.offset(#[trigger] w.gens[j]) <= w.offset(
        w.read_gen,
    ) by {
        assert(v.offset(v.gens[j]) <= v.offset(v.read_gen));
    }
}

/// The suspended flag does not count in distances.
proof fn lemma_flag_is_no_distance(g: NumericType, base: NumericType)
    ensures
        arithmetics::gen_of(g as int) < arithmetics::gen_period(),
        area::suspended(area::suspended_at(g)),
        arithmetics::gen_dist(arithmetics::gen_of(g as int), base) == arithmetics::gen_dist(g, base),
        arithmetics::gen_dist(area::suspended_at(g), base) == arithmetics::gen_dist(g, base),
{
}

/// What a cleanup decides at a reader slot, in terms of distances from a common generation.
proof fn lemma_sweep_decision(
    before: NumericType,
    reader_gen: NumericType,
    base: NumericType,
    top: int,
)
    requires
        before < arithmetics::gen_period(),
        arithmetics::gen_dist(before, base) <= top <= arithmetics::gen_horizon(),
        arithmetics::gen_dist(reader_gen, base) <= top,
    ensures
        match steps::sweep_plan(before, reader_gen) {
            steps::Sweep::Force(g) => {
                &&& area::suspended(reader_gen)
                &&& area::suspended(g)
                &&& arithmetics::gen_dist(g, base) == arithmetics::gen_dist(before, base)
            },
            steps::Sweep::Keep(g) => {
                &&& g < arithmetics::gen_period()
                &&& g == before || g == reader_gen && !area::suspended(reader_gen)
                &&& arithmetics::gen_dist(g, base) <= arithmetics::gen_dist(before, base)
                &&& arithmetics::gen_dist(g, base) <= arithmetics::gen_dist(reader_gen, base)
            },
        },
{
    let position = arithmetics::gen_of(reader_gen as int);
    lemma_flag_is_no_distance(reader_gen, base);
    if area::suspended(reader_gen) {
        lemma_flag_is_no_distance(before, base);
        lemma_order_by_offset(before, position, base);
    } else {
        lemma_order_by_offset(before, reader_gen, base);
    }
}

/// What a cleanup has gathered, and what it has done, once it has been at the first `n` reader
/// slots.
proof fn lemma_sweep<T>(v: AreaView<T>, n: nat)
    requires
        v.coherent(),
        n <= v.gens.len(),
    ensures
        ({
            let held = model::min_held(v.gens, v.read_gen, n);
            let gens = model::swept(v.gens, v.read_gen, n);
            &&& held < arithmetics::gen_period()
            &&& v.offset(held) <= v.offset(v.read_gen)
            &&& held == v.read_gen || exists|i: int|
                0 <= i < n && !area::suspended(v.gens[i]) && #[trigger] v.gens[i] == held
            &&& gens.len() == v.gens.len()
            &&& forall|i: int|
                0 <= i < n ==> v.offset(held) <= v.offset(#[trigger] gens[i]) <= v.offset(
                    v.read_gen,
                )
            &&& forall|i: int| 0 <= i < gens.len() ==> sweeps_to(v.gens[i], #[trigger] gens[i])
            &&& forall|i: int| n <= i < gens.len() ==> #[trigger] gens[i] == v.gens[i]
        }),
    decreases n,
{
    model::lemma_sweep_len(v.gens, v.read_gen, n);
    if n == 0 {
        model::lemma_sweep_start(v.gens, v.read_gen);
    } else {
        let m = (n - 1) as nat;
        let before = model::min_held(v.gens, v.read_gen, m);
        let held = model::min_held(v.gens, v.read_gen, n);
        let gens = model::swept(v.gens, v.read_gen, n);
        let gens_before = model::swept(v.gens, v.read_gen, m);
        lemma_sweep(v, m);
        let reader_gen = v.gens[m as int];
        assert(v.offset(reader_gen) <= v.offset(v.read_gen));
        lemma_sweep_decision(before, reader_gen, v.free_gen, v.offset(v.read_gen));
        model::lemma_sweep_step(v.gens, v.read_gen, m);
        match steps::sweep_plan(before, reader_gen) {
            steps::Sweep::Force(g) => {
                assert(gens == gens_before.update(m as int, g));
                assert(held == before);
            },
            steps::Sweep::Keep(g) => {
                assert(gens == gens_before);
                assert(held == g);
            },
        }
    }
}

/// What a cleanup may make of a reader slot: an active reader stays where it is, and a slot
/// without one stays without one.
pub open spec fn sweeps_to(before: NumericType, after: NumericType) -> bool {
    if area::suspended(before) {
        area::suspended(after)
    } else {
        after == before
    }
}

/// A cleanup keeps everything from the oldest generation on that an active reader is at, and
/// nothing before it. Where there is no active reader, it keeps what is not published yet.
pub proof fn law_cleanup_keeps_what_active_readers_hold<T>(v: AreaView<T>)
    requires
        v.coherent(),
    ensures
        v.cleaned().last_valid_gen == v.held(),
        v.cleaned().free_gen == v.held(),
        v.offset(v.held()) <= v.offset(v.read_gen),
        forall|i: int|
            0 <= i < v.gens.len() && !area::suspended(#[trigger] v.gens[i]) ==> v.offset(v.held())
                <= v.offset(v.gens[i]),
        v.held() == v.read_gen || exists|i: int|
            0 <= i < v.gens.len() && !area::suspended(v.gens[i]) && #[trigger] v.gens[i]
                == v.held(),
{
    lemma_sweep(v, v.gens.len());
    lemma_order_by_offset(v.last_valid_gen, v.held(), v.free_gen);
    lemma_order_by_offset(v.last_valid_gen, v.read_gen, v.free_gen);
    let gens = model::swept(v.gens, v.read_gen, v.gens.len());
    assert forall|i: int|
        0 <= i < v.gens.len() && !area::suspended(#[trigger] v.gens[i]) implies v.offset(v.held())
        <= v.offset(v.gens[i]) by {
        assert(gens[i] == v.gens[i]);
    }
}

/// A cleanup leaves an area coherent, with every reader still registered, the active ones where
/// they were, and the others still away.
pub proof fn law_cleanup_keeps_coherence<T>(v: AreaView<T>)
    requires
        v.coherent(),
    ensures
        v.cleaned().coherent(),
        v.cleaned().keys == v.keys,
        v.cleaned().read_gen == v.read_gen,
        v.cleaned().write_gen == v.write_gen,
        forall|i: int|
            0 <= i < v.gens.len() ==> sweeps_to(v.gens[i], #[trigger] v.cleaned().gens[i]),
{
    let w = v.cleaned();
    lemma_sweep(v, v.gens.len());
    law_cleanup_keeps_what_active_readers_hold(v);
    lemma_order_by_offset(v.read_gen, v.held(), v.free_gen);
    lemma_order_by_offset(v.write_gen, v.held(), v.free_gen);
    assert forall|i: int| 0 <= i < w.gens.len() implies w.offset(#[trigger] w.gens[i]) <= w.offset(
        w.read_gen,
    ) by {
        assert(v.offset(v.gens[i]) <= v.offset(v.read_gen));
        if !v.all_clean() {
            let gens = model::swept(v.gens, v.read_gen, v.gens.len());
            assert(v.offset(v.held()) <= v.offset(gens[i]) <= v.offset(v.read_gen));
            lemma_order_by_offset(gens[i], v.held(), v.free_gen);
        }
    }
    assert forall|i: int|
        0 <= i < w.keys.len() && #[trigger] w.keys[i] == crate::map::EMPTY implies area::suspended(
        w.gens[i],
    ) by {
        assert(v.keys[i] == crate::map::EMPTY);
    }
}

/// The place of the `k`-th message from a generation on, counted from the oldest slot in use.
pub(crate) proof fn lemma_place_by_offset<T>(v: AreaView<T>, g: NumericType, k: int)
    requires
        0 <= k,
    ensures
        arithmetics::gen_add(g, k) == arithmetics::gen_add(v.free_gen, v.offset(g) + k),
{
}

/// What the ring buffer holds does not matter for coherence, nor for where things are.
proof fn lemma_buffer_is_no_matter<T>(v: AreaView<T>, buffer: Seq<Option<T>>)
    requires
        v.coherent(),
        v.places_are_distinct(),
        buffer.len() == v.buffer.len(),
    ensures
        (AreaView { buffer, ..v }).coherent(),
        (AreaView { buffer, ..v }).places_are_distinct(),
{
    let w = AreaView { buffer, ..v };
    assert forall|i: int| 0 <= i < w.gens.len() implies w.offset(#[trigger] w.gens[i]) <= w.offset(
        w.read_gen,
    ) by {
        assert(v.offset(v.gens[i]) <= v.offset(v.read_gen));
    }
    assert forall|a: int, b: int| 0 <= a < b < w.offset(w.write_gen) implies #[trigger] w.place(
        arithmetics::gen_add(w.free_gen, a),
    ) != #[trigger] w.place(arithmetics::gen_add(w.free_gen, b)) by {
        assert(v.place(arithmetics::gen_add(v.free_gen, a)) != v.place(
            arithmetics::gen_add(v.free_gen, b),
        ));
    }
}

/// Writing into a slot that is reserved changes nothing of what any reader has yet to read.
pub proof fn law_writing_disturbs_no_reader<T>(
    v: AreaView<T>,
    generation: NumericType,
    message: Option<T>,
    index: int,
)
    requires
        v.coherent(),
        v.places_are_distinct(),
        generation < arithmetics::gen_period(),
        v.offset(v.read_gen) <= v.offset(generation) < v.offset(v.write_gen),
        0 <= index < v.gens.len(),
    ensures
        v.with_message(generation, message).coherent(),
        v.with_message(generation, message).places_are_distinct(),
        v.with_message(generation, message).unread(index) == v.unread(index),
        v.with_message(generation, message).message(generation) == message,
{
    let w = v.with_message(generation, message);
    let start = v.gens[index];
    assert(v.offset(start) <= v.offset(v.read_gen));
    assert(v.unread(index).len() == v.offset(v.read_gen) - v.offset(start)) by {
        lemma_order_by_offset(v.read_gen, start, v.free_gen);
    }
    assert(generation == arithmetics::gen_add(v.free_gen, v.offset(generation))) by {
        lemma_place_by_offset(v, generation, 0);
    }
    vstd::arithmetic::div_mod::lemma_mod_bound(generation as usize as int, v.capacity() as int);
    lemma_buffer_is_no_matter(v, w.buffer);
    assert forall|k: int| 0 <= k < v.unread(index).len() implies w.unread(index)[k] == v.unread(
        index,
    )[k] by {
        let a = v.offset(start) + k;
        assert(arithmetics::gen_add(start, k) == arithmetics::gen_add(v.free_gen, a)) by {
            lemma_place_by_offset(v, start, k);
        }
        assert(v.place(arithmetics::gen_add(v.free_gen, a)) != v.place(
            arithmetics::gen_add(v.free_gen, v.offset(generation)),
        ));
    }
    assert(w.unread(index) =~= v.unread(index));
}

/// Publishing slots adds their messages, in order, to what every reader has yet to read, and
/// changes nothing else of it.
pub proof fn law_published_messages_reach_every_reader<T>(
    v: AreaView<T>,
    end_generation: NumericType,
    index: int,
)
    requires
        v.coherent(),
        end_generation < arithmetics::gen_period(),
        v.offset(v.read_gen) <= v.offset(end_generation) <= v.offset(v.write_gen),
        0 <= index < v.gens.len(),
    ensures
        v.published(v.read_gen, end_generation).unread(index) == v.unread(index) + v.messages(
            v.read_gen,
            arithmetics::gen_dist(end_generation, v.read_gen),
        ),
{
    let w = v.published(v.read_gen, end_generation);
    let start = v.gens[index];
    let published = v.messages(
        v.read_gen,
        arithmetics::gen_dist(end_generation, v.read_gen),
    );
    assert(v.offset(start) <= v.offset(v.read_gen));
    lemma_order_by_offset(v.read_gen, start, v.free_gen);
    lemma_order_by_offset(end_generation, start, v.free_gen);
    lemma_order_by_offset(end_generation, v.read_gen, v.free_gen);
    lemma_order_by_offset(v.read_gen, end_generation, v.free_gen);
    assert(w.read_gen == end_generation);
    assert forall|k: int| 0 <= k < w.unread(index).len() implies w.unread(index)[k] == (v.unread(
        index,
    ) + published)[k] by {
        if k >= v.unread(index).len() {
            lemma_place_by_offset(v, start, k);
            lemma_place_by_offset(v, v.read_gen, k - v.unread(index).len());
        }
    }
    assert(w.unread(index) =~= v.unread(index) + published);
}

/// Whatever a cleanup drops, an active reader does not miss: what it has yet to read stays as it
/// is.
pub proof fn law_cleanup_drops_nothing_that_is_held<T>(v: AreaView<T>, index: int)
    requires
        v.coherent(),
        v.places_are_distinct(),
        0 <= index < v.gens.len(),
        !area::suspended(v.gens[index]),
    ensures
        v.cleaned().unread(index) == v.unread(index),
{
    let w = v.cleaned();
    let start = v.gens[index];
    law_cleanup_keeps_what_active_readers_hold(v);
    law_cleanup_keeps_coherence(v);
    assert(sweeps_to(v.gens[index], w.gens[index]));
    assert(v.offset(start) <= v.offset(v.read_gen));
    lemma_order_by_offset(v.read_gen, start, v.free_gen);
    assert forall|k: int| 0 <= k < v.unread(index).len() implies w.unread(index)[k] == v.unread(
        index,
    )[k] by {
        let a = v.offset(start) + k;
        assert(arithmetics::gen_add(start, k) == arithmetics::gen_add(v.free_gen, a)) by {
            lemma_place_by_offset(v, start, k);
        }
        let place = v.place(arithmetics::gen_add(start, k));
        vstd::arithmetic::div_mod::lemma_mod_bound(
            arithmetics::gen_add(start, k) as usize as int,
            v.capacity() as int,
        );
        assert forall|b: int| 0 <= b < v.offset(v.held()) implies #[trigger] steps::slot_index(
            arithmetics::gen_add(v.last_valid_gen, b),
            v.capacity(),
        ) != place by {
            assert(v.place(arithmetics::gen_add(v.free_gen, b)) != v.place(
                arithmetics::gen_add(v.free_gen, a),
            ));
        }
        assert(!model::covers(v.capacity(), v.last_valid_gen, v.offset(v.held()), place));
    }
    assert(w.unread(index) =~= v.unread(index));
}

/// A cleanup drops every message before the ones that are held.
pub proof fn law_cleanup_drops_all_the_rest<T>(v: AreaView<T>, generation: NumericType)
    requires
        v.coherent(),
        generation < arithmetics::gen_period(),
        v.offset(generation) < v.offset(v.held()),
    ensures
        v.cleaned().message(generation) is None,
{
    law_cleanup_keeps_what_active_readers_hold(v);
    lemma_sweep(v, v.gens.len());
    lemma_order_by_offset(v.last_valid_gen, v.held(), v.free_gen);
    lemma_order_by_offset(v.last_valid_gen, v.read_gen, v.free_gen);
    lemma_place_by_offset(v, generation, 0);
    vstd::arithmetic::div_mod::lemma_mod_bound(generation as usize as int, v.capacity() as int);
    let n = v.offset(v.held());
    let k = v.offset(generation);
    assert(steps::slot_index(arithmetics::gen_add(v.last_valid_gen, k), v.capacity()) == v.place(
        generation,
    ));
    assert(model::covers(v.capacity(), v.last_valid_gen, n, v.place(generation)));
}

/// After a cleanup there is room for everything that the readers do not hold.
pub proof fn law_cleanup_makes_room<T>(v: AreaView<T>)
    requires
        v.coherent(),
    ensures
        steps::available(v.capacity(), v.cleaned().free_gen, v.cleaned().write_gen) == v.capacity()
            - arithmetics::gen_dist(v.write_gen, v.held()),
        steps::available(v.capacity(), v.cleaned().free_gen, v.cleaned().write_gen)
            >= steps::available(v.capacity(), v.free_gen, v.write_gen),
{
    law_cleanup_keeps_what_active_readers_hold(v);
    law_cleanup_keeps_coherence(v);
    lemma_order_by_offset(v.write_gen, v.held(), v.free_gen);
}

/// What others do with the area — reserving slots, entering, leaving, and moving — changes nothing
/// of what a reader has yet to read.
pub proof fn law_others_disturb_no_reader<T>(
    v: AreaView<T>,
    index: int,
    n: int,
    other_id: NumericType,
    g: NumericType,
    other_index: int,
)
    requires
        v.coherent(),
        0 <= index < v.gens.len(),
        0 <= other_index < v.gens.len(),
        index != other_index,
        v.reader_slot(other_id) != index,
    ensures
        v.with_reserved(n).unread(index) == v.unread(index),
        v.with_reader_gen(other_id, g).unread(index) == v.unread(index),
        v.with_reader(other_id, other_index).unread(index) == v.unread(index),
        v.without_reader(other_id).unread(index) == v.unread(index),
{
    bits::lemma_power_divides(v.keys.len() as usize);
    assert(v.with_reserved(n).unread(index) =~= v.unread(index));
    assert(v.with_reader_gen(other_id, g).unread(index) =~= v.unread(index));
    assert(v.with_reader(other_id, other_index).unread(index) =~= v.unread(index));
    assert(v.without_reader(other_id).unread(index) =~= v.unread(index));
}

/// A reader that moves on has left the messages in between behind, and nothing else.
pub proof fn law_advancing_skips_what_was_read<T>(
    v: AreaView<T>,
    reader_id: NumericType,
    new_generation: NumericType,
)
    requires
        v.coherent(),
        area::valid_reader_id(reader_id),
        v.registered(reader_id),
        steps::set_gen_plan(v.reader_gen(reader_id), new_generation) is Ok,
        v.offset(new_generation) <= v.offset(v.read_gen),
    ensures
        ({
            let index = v.reader_slot(reader_id);
            let read = arithmetics::gen_dist(new_generation, v.reader_gen(reader_id));
            &&& 0 <= read <= v.unread(index).len()
            &&& v.with_reader_gen(reader_id, new_generation).unread(index) == v.unread(index).skip(
                read,
            )
        }),
{
    let index = v.reader_slot(reader_id);
    let w = v.with_reader_gen(reader_id, new_generation);
    let start = v.gens[index];
    let read = arithmetics::gen_dist(new_generation, start);
    assert(0 <= index < v.gens.len()) by {
        bits::lemma_power_divides(v.keys.len() as usize);
    }
    assert(v.offset(start) <= v.offset(v.read_gen));
    assert(0 <= read && v.offset(new_generation) == v.offset(start) + read) by {
        lemma_order_by_offset(start, new_generation, v.free_gen);
        lemma_order_by_offset(new_generation, start, v.free_gen);
    }
    assert(v.unread(index).len() == v.offset(v.read_gen) - v.offset(start)) by {
        lemma_order_by_offset(v.read_gen, start, v.free_gen);
    }
    assert(w.unread(index).len() == v.offset(v.read_gen) - v.offset(new_generation)) by {
        lemma_order_by_offset(v.read_gen, new_generation, v.free_gen);
    }
    assert forall|k: int| 0 <= k < w.unread(index).len() implies w.unread(index)[k] == v.unread(
        index,
    ).skip(read)[k] by {
        assert(arithmetics::gen_add(start, read + k) == arithmetics::gen_add(new_generation, k)) by {
            lemma_place_by_offset(v, start, read + k);
            lemma_place_by_offset(v, new_generation, k);
        }
    }
    assert(w.unread(index) =~= v.unread(index).skip(read));
}

/// The place of a generation depends only on how far the ring buffer has come since it last
/// started again.
proof fn lemma_place_by_period(g: NumericType, capacity: nat)
    requires
        g < arithmetics::gen_period(),
    ensures
        steps::slot_index(g, capacity) == (g as int % steps::index_period()) % capacity as int,
{
    bits::lemma_truncation(g);
    if usize::BITS == 32 {
        assert(usize::MAX == 0xffff_ffff);
    } else {
        assert(usize::MAX == 0xffff_ffff_ffff_ffff);
        vstd::arithmetic::div_mod::lemma_small_mod(g as nat, arithmetics::gen_period() as nat);
        vstd::arithmetic::div_mod::lemma_small_mod(g as nat, bits::usize_span() as nat);
    }
}

/// The place of a generation some steps ahead, where the ring buffer does not start again on the
/// way, or where it does so without a jump.
pub(crate) proof fn lemma_place_ahead(g: NumericType, n: int, capacity: nat)
    requires
        0 <= n,
        0 < capacity,
        steps::index_period() % capacity as int == 0 || g as int % steps::index_period() + n
            < steps::index_period(),
    ensures
        steps::slot_index(arithmetics::gen_add(g, n), capacity) == (g as int
            % steps::index_period() + n) % capacity as int,
{
    let period = steps::index_period();
    let ahead = arithmetics::gen_add(g, n);
    let start = g as int % period;
    assert(arithmetics::gen_period() % period == 0 && period > 0) by {
        if usize::BITS == 32 {
            assert(usize::MAX == 0xffff_ffff);
        } else {
            assert(usize::MAX == 0xffff_ffff_ffff_ffff);
        }
    }
    lemma_place_by_period(ahead, capacity);
    bits::lemma_remainder_of_remainder(g + n, arithmetics::gen_period(), period);
    assert(ahead as int % period == (g + n) % period);
    vstd::arithmetic::div_mod::lemma_add_mod_noop(g as int, n, period);
    vstd::arithmetic::div_mod::lemma_add_mod_noop(start, n, period);
    vstd::arithmetic::div_mod::lemma_mod_twice(g as int, period);
    assert((g + n) % period == (start + n) % period);
    if start + n < period {
        vstd::arithmetic::div_mod::lemma_small_mod((start + n) as nat, period as nat);
    } else {
        bits::lemma_remainder_of_remainder(start + n, period, capacity as int);
    }
}

/// The slots that are in use have different places for as long as the ring buffer does not start
/// again among them; and always, if its capacity divides the number of generations after which it
/// starts again, as every power of two does.
pub proof fn law_places_are_distinct<T>(v: AreaView<T>)
    requires
        v.coherent(),
        v.capacity() <= usize::MAX,
        is_pow2(v.capacity() as int) || steps::index_period() % v.capacity() as int == 0
            || v.free_gen as int % steps::index_period() + v.offset(v.write_gen)
            <= steps::index_period(),
    ensures
        v.places_are_distinct(),
{
    let capacity = v.capacity() as int;
    let start = v.free_gen as int % steps::index_period();
    if is_pow2(capacity) {
        bits::lemma_power_divides(v.capacity() as usize);
    }
    assert forall|a: int, b: int| 0 <= a < b < v.offset(v.write_gen) implies #[trigger] v.place(
        arithmetics::gen_add(v.free_gen, a),
    ) != #[trigger] v.place(arithmetics::gen_add(v.free_gen, b)) by {
        lemma_place_ahead(v.free_gen, a, v.capacity());
        lemma_place_ahead(v.free_gen, b, v.capacity());
        if (start + a) % capacity == (start + b) % capacity {
            vstd::arithmetic::div_mod::lemma_mod_equivalence(start + b, start + a, capacity);
            vstd::arithmetic::div_mod::lemma_small_mod((b - a) as nat, v.capacity());
        }
    }
}

/// The two parts of a stretch of the ring buffer are the messages, in order, unless the ring buffer
/// starts again with a jump on the way.
pub proof fn law_segments_are_the_messages<T>(v: AreaView<T>, from: NumericType, n: int)
    requires
        from < arithmetics::gen_period(),
        0 <= n <= v.capacity(),
        0 < v.capacity(),
        steps::index_period() % v.capacity() as int == 0 || from as int % steps::index_period() + n
            <= steps::index_period(),
    ensures
        v.segments(from, n).0 + v.segments(from, n).1 == v.messages(from, n),
{
    let (first, second) = v.segments(from, n);
    let capacity = v.capacity() as int;
    let start = from as int % steps::index_period();
    lemma_place_by_period(from, v.capacity());
    assert(v.place(from) == start % capacity);
    vstd::arithmetic::div_mod::lemma_mod_bound(start, capacity);
    assert forall|k: int| 0 <= k < n implies (first + second)[k] == v.messages(from, n)[k] by {
        lemma_place_ahead(from, k, v.capacity());
        let place = v.place(arithmetics::gen_add(from, k));
        assert(place == (start + k) % capacity);
        vstd::arithmetic::div_mod::lemma_add_mod_noop(start, k, capacity);
        vstd::arithmetic::div_mod::lemma_small_mod(k as nat, v.capacity());
        assert(place == (v.place(from) + k) % capacity);
        if v.place(from) + k < capacity {
            vstd::arithmetic::div_mod::lemma_small_mod((v.place(from) + k) as nat, v.capacity());
        } else {
            vstd::arithmetic::div_mod::lemma_mod_sub_multiples_vanish(
                v.place(from) + k,
                capacity,
            );
            vstd::arithmetic::div_mod::lemma_small_mod(
                (v.place(from) + k - capacity) as nat,
                v.capacity(),
            );
        }
    }
    assert(first + second =~= v.messages(from, n));
}

/// The numbers of participants do not matter for coherence.
pub(crate) proof fn lemma_counts_are_no_matter<T>(
    v: AreaView<T>,
    writers_count: usize,
    destroy_stages: usize,
)
    requires
        v.coherent(),
    ensures
        (AreaView { writers_count, destroy_stages, ..v }).coherent(),
{
    let w = AreaView { writers_count, destroy_stages, ..v };
    assert forall|i: int| 0 <= i < w.gens.len() implies w.offset(#[trigger] w.gens[i]) <= w.offset(
        w.read_gen,
    ) by {
        assert(v.offset(v.gens[i]) <= v.offset(v.read_gen));
    }
}

/// A new area, once its first writer and its first reader are in it, is coherent, and both are
/// counted.
pub proof fn law_area_starts_counted<T>(buffer_capacity: usize, reader_capacity: usize)
    requires
        0 < buffer_capacity <= arithmetics::gen_horizon(),
        is_pow2(reader_capacity as int),
        reader_capacity < crate::map::IN_PROGRESS,
    ensures
        ({
            let fresh = AreaView::<T>::fresh(buffer_capacity as nat, reader_capacity as nat);
            let (reader_id, index) = fresh.registration(1)->0;
            let v = AreaView { writers_count: 1, ..fresh.with_reader(reader_id, index) };
            &&& fresh.registration(1) is Some
            &&& v.registered(reader_id)
            &&& v.coherent()
            &&& v.counted()
        }),
{
    let fresh = AreaView::<T>::fresh(buffer_capacity as nat, reader_capacity as nat);
    bits::lemma_power_divides(reader_capacity);
    law_new_area_is_coherent::<T>(buffer_capacity, reader_capacity);
    model::lemma_first_registration(fresh);
    law_registered_reader_is_new(fresh, 1);
    fresh.lemma_registration(1);
    let (reader_id, index) = fresh.registration(1)->0;
    let entered = fresh.with_reader(reader_id, index);
    lemma_counts_are_no_matter(entered, 1, 2);
    assert(entered.keys[index] == reader_id);
}

/// Entering keeps the count, where writers let in writers and readers let in readers.
pub proof fn law_entering_keeps_count<T>(v: AreaView<T>, seed: NumericType)
    requires
        v.coherent(),
        v.counted(),
    ensures
        0 < v.writers_count < usize::MAX ==> v.with_writer().coherent() && v.with_writer().counted(),
        v.has_readers() ==> (v.registration(seed) matches Some((reader_id, index))
            ==> v.with_reader(reader_id, index).counted()),
{
    lemma_counts_are_no_matter(v, v.writers_count.wrapping_add(1), v.destroy_stages);
    if v.registration(seed) is Some {
        v.lemma_registration(seed);
        let (reader_id, index) = v.registration(seed)->0;
        assert(v.with_reader(reader_id, index).keys[index] == reader_id);
    }
}

/// With no readers there, a cleanup drops everything that is published.
pub proof fn law_cleanup_without_readers_drops_everything<T>(v: AreaView<T>)
    requires
        v.coherent(),
        !v.has_readers(),
    ensures
        v.held() == v.read_gen,
        v.cleaned().last_valid_gen == v.read_gen,
        forall|generation: NumericType|
            generation < arithmetics::gen_period() && v.offset(generation) < v.offset(v.read_gen)
                ==> #[trigger] v.cleaned().message(generation) is None,
{
    law_cleanup_keeps_what_active_readers_hold(v);
    if v.held() != v.read_gen {
        let i = choose|i: int|
            0 <= i < v.gens.len() && !area::suspended(v.gens[i]) && #[trigger] v.gens[i]
                == v.held();
        assert(v.keys[i] == crate::map::EMPTY);
    }
    assert forall|generation: NumericType|
        generation < arithmetics::gen_period() && v.offset(generation) < v.offset(
            v.read_gen,
        ) implies #[trigger] v.cleaned().message(generation) is None by {
        law_cleanup_drops_all_the_rest(v, generation);
    }
}

/// Whoever takes the last stage leaves an area in which nothing is published anymore.
proof fn lemma_group_gone<T>(v: AreaView<T>)
    requires
        v.coherent(),
    ensures
        v.with_group_gone().coherent(),
        v.with_group_gone().keys == v.keys,
        v.with_group_gone().writers_count == v.writers_count,
        v.with_group_gone().destroy_stages == v.destroy_stages.wrapping_sub(1),
        v.with_group_gone().reader_keep_alloc_tickets == v.reader_keep_alloc_tickets,
        v.with_group_gone().reader_stage_tickets == v.reader_stage_tickets,
        v.destroy_stages == 1 && !v.has_readers() ==> v.with_group_gone().last_valid_gen
            == v.read_gen,
{
    let gone = AreaView { destroy_stages: v.destroy_stages.wrapping_sub(1), ..v };
    lemma_counts_are_no_matter(v, v.writers_count, v.destroy_stages.wrapping_sub(1));
    law_cleanup_keeps_coherence(gone);
    if !v.has_readers() {
        law_cleanup_without_readers_drops_everything(gone);
    }
}

/// A writer that leaves is the last one there of all if and only if no other writer and no reader
/// is there. The count is kept, and the last one leaves nothing published.
pub proof fn law_writer_leaves<T>(v: AreaView<T>)
    requires
        v.coherent(),
        v.counted(),
        v.writers_count > 0,
    ensures
        v.ends_with_writer() <==> v.writers_count == 1 && !v.has_readers(),
        v.with_writer_gone().writers_count == v.writers_count - 1,
        v.with_writer_gone().has_readers() == v.has_readers(),
        v.with_writer_gone().coherent(),
        v.with_writer_gone().counted(),
        v.ends_with_writer() ==> v.with_writer_gone().last_valid_gen == v.read_gen,
{
    let left = AreaView { writers_count: v.writers_count.wrapping_sub(1), ..v };
    lemma_counts_are_no_matter(v, v.writers_count.wrapping_sub(1), v.destroy_stages);
    lemma_group_gone(left);
}

/// A reader that leaves is the last one there of all if and only if no other reader and no writer
/// is there. The count is kept, and the last one leaves nothing published.
pub proof fn law_reader_leaves<T>(v: AreaView<T>, reader_id: NumericType)
    requires
        v.coherent(),
        v.counted(),
        area::valid_reader_id(reader_id),
        v.registered(reader_id),
    ensures
        v.ends_with_reader(reader_id) <==> v.writers_count == 0 && !v.without_reader(
            reader_id,
        ).has_readers(),
        v.with_reader_gone(reader_id).has_readers() == v.without_reader(reader_id).has_readers(),
        v.with_reader_gone(reader_id).writers_count == v.writers_count,
        v.with_reader_gone(reader_id).coherent(),
        v.with_reader_gone(reader_id).counted(),
        v.ends_with_reader(reader_id) ==> v.with_reader_gone(reader_id).last_valid_gen
            == v.read_gen,
{
    let left = v.without_reader(reader_id);
    law_reader_that_leaves_is_gone(v, reader_id);
    assert(v.has_readers()) by {
        bits::lemma_power_divides(v.keys.len() as usize);
        assert(v.keys[v.reader_slot(reader_id)] != crate::map::EMPTY);
    }
    lemma_group_gone(left);
}

} // verus!
