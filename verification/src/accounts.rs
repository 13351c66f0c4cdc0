//! What the calls of a story add up to: who is there, how much was reserved and published, and how
//! far everybody has come.
use crate::area::{self, ResumeError};
use crate::arithmetics::{self, NumericType};
use crate::bits;
use crate::effects;
use crate::history::{self, Call, Story};
use crate::laws;
use crate::model::AreaView;
use crate::steps;
use vstd::prelude::*;

verus! {

/// The number of slots that are taken.
pub open spec fn taken(keys: Seq<u64>) -> int
    decreases keys.len(),
{
    if keys.len() == 0 {
        0
    } else {
        taken(keys.drop_last()) + (if keys.last() != 0 {
            1int
        } else {
            0
        })
    }
}

/// What changing one slot does to the number of taken ones.
proof fn lemma_taken_update(keys: Seq<u64>, i: int, key: u64)
    requires
        0 <= i < keys.len(),
    ensures
        taken(keys.update(i, key)) == taken(keys) + (if key != 0 {
            1int
        } else {
            0
        }) - (if keys[i] != 0 {
            1int
        } else {
            0
        }),
    decreases keys.len(),
{
    let now = keys.update(i, key);
    if i == keys.len() - 1 {
        assert(now.drop_last() =~= keys.drop_last());
    } else {
        lemma_taken_update(keys.drop_last(), i, key);
        assert(now.drop_last() =~= keys.drop_last().update(i, key));
    }
}

/// All slots are taken if and only if as many are taken as there are.
proof fn lemma_taken_bounds(keys: Seq<u64>)
    ensures
        0 <= taken(keys) <= keys.len(),
        taken(keys) == keys.len() <==> forall|i: int| 0 <= i < keys.len() ==> #[trigger] keys[i] != 0,
        taken(keys) == 0 <==> forall|i: int| 0 <= i < keys.len() ==> #[trigger] keys[i] == 0,
    decreases keys.len(),
{
    if keys.len() > 0 {
        let fewer = keys.drop_last();
        lemma_taken_bounds(fewer);
        assert forall|i: int| 0 <= i < fewer.len() implies #[trigger] keys[i] == fewer[i] by {}
        assert(keys.last() == keys[keys.len() - 1]);
        if forall|i: int| 0 <= i < keys.len() ==> #[trigger] keys[i] != 0 {
            assert forall|i: int| 0 <= i < fewer.len() implies #[trigger] fewer[i] != 0 by {
                assert(keys[i] != 0);
            }
        }
        if forall|i: int| 0 <= i < keys.len() ==> #[trigger] keys[i] == 0 {
            assert forall|i: int| 0 <= i < fewer.len() implies #[trigger] fewer[i] == 0 by {
                assert(keys[i] == 0);
            }
        }
    }
}

/// How many of some calls let a writer in, less how many dropped one.
pub open spec fn writers_more<T>(calls: Seq<Call<T>>) -> int
    decreases calls.len(),
{
    if calls.len() == 0 {
        0
    } else {
        writers_more(calls.drop_last()) + (match calls.last() {
            Call::CreateWriter => 1int,
            Call::DropWriter => -1,
            _ => 0,
        })
    }
}

/// A call that neither lets a writer in nor drops one does not change their number.
proof fn lemma_writers<T>(s: Story<T>, call: Call<T>)
    requires
        s.inv(),
        s.after(call) is Some,
    ensures
        s.after(call)->0.area.writers_count == s.area.writers_count + (match call {
            Call::CreateWriter => 1int,
            Call::DropWriter => -1,
            _ => 0,
        }),
{
    reveal(Story::inv);
    let v = s.area;
    match call {
        Call::CreateWriter => effects::law_letting_a_writer_in_counts_one_more(v),
        Call::DropWriter => laws::law_writer_leaves(v),
        Call::DropReader { reader } => laws::law_reader_leaves(v, reader),
        Call::Cleanup => effects::law_a_cleanup_reports_what_it_does(v),
        _ => {},
    }
}

/// The number of writers is the number of writer handles that were made and not dropped: it is what
/// it was before, and one more for each call that let a writer in, and one less for each that
/// dropped one.
pub proof fn law_writers_are_those_who_came_and_stayed<T>(s: Story<T>, calls: Seq<Call<T>>)
    requires
        s.inv(),
        s.after_all(calls) is Some,
    ensures
        s.after_all(calls)->0.area.writers_count == s.area.writers_count + writers_more(calls),
    decreases calls.len(),
{
    if calls.len() > 0 {
        law_writers_are_those_who_came_and_stayed(s, calls.drop_last());
        history::law_everything_stays_in_order(s, calls.drop_last());
        lemma_writers(s.after_all(calls.drop_last())->0, calls.last());
    }
}

/// At the beginning there are one writer and one reader.
pub proof fn law_one_writer_and_one_reader_begin<T>(buffer_capacity: usize, reader_capacity: usize)
    requires
        0 < buffer_capacity <= arithmetics::gen_horizon(),
        vstd::arithmetic::power2::is_pow2(reader_capacity as int),
        reader_capacity < 0x8000_0000_0000_0000,
    ensures
        ({
            let s = Story::<T>::beginning(buffer_capacity, reader_capacity);
            &&& s.area.writers_count == 1
            &&& taken(s.area.keys) == 1
            &&& s.is_active(1)
            &&& s.position(1) == 0
            &&& s.log.len() == 0
            &&& s.reserved() == 0
            &&& s.area.capacity() == buffer_capacity
        }),
{
    let s = Story::<T>::beginning(buffer_capacity, reader_capacity);
    let fresh = AreaView::<T>::fresh(buffer_capacity as nat, reader_capacity as nat);
    effects::law_the_first_reader_is_at_the_beginning::<T>(buffer_capacity, reader_capacity);
    bits::lemma_power_divides(reader_capacity);
    fresh.lemma_registration(1);
    let (reader_id, index) = fresh.registration(1)->0;
    lemma_taken_bounds(fresh.keys);
    lemma_taken_update(fresh.keys, index, reader_id);
}

/// The number of readers goes up by one with each that is let in, as long as there is a slot for
/// it, goes down by one with each that leaves, and stays the same otherwise.
pub proof fn law_readers_are_those_who_came_and_stayed<T>(s: Story<T>, call: Call<T>)
    requires
        s.inv(),
        s.after(call) is Some,
    ensures
        ({
            let w = s.after(call)->0;
            let n = taken(s.area.keys);
            &&& 0 <= n <= s.area.keys.len()
            &&& w.area.keys.len() == s.area.keys.len()
            &&& taken(w.area.keys) == (match call {
                Call::CreateReader { .. } => if n < s.area.keys.len() {
                    n + 1
                } else {
                    n
                },
                Call::DropReader { .. } => n - 1,
                _ => n,
            })
        }),
{
    let v = s.area;
    assert(v.coherent()) by {
        reveal(Story::inv);
    }
    lemma_taken_bounds(v.keys);
    match call {
        Call::CreateReader { seed } => lemma_taken_one_more(v, seed),
        Call::DropReader { reader } => {
            history::lemma_reader_is_published(v, reader);
            lemma_left(v, reader);
            lemma_taken_update(v.keys, v.reader_slot(reader), 0);
        },
        Call::DropWriter => lemma_writer_left(v),
        Call::Cleanup => effects::law_a_cleanup_reports_what_it_does(v),
        _ => {},
    }
}

/// One more slot is taken when a reader is let in, if there is one.
proof fn lemma_taken_one_more<T>(v: AreaView<T>, seed: NumericType)
    requires
        v.coherent(),
    ensures
        match v.registration(seed) {
            Some((reader_id, index)) => {
                &&& taken(v.keys) < v.keys.len()
                &&& taken(v.with_reader(reader_id, index).keys) == taken(v.keys) + 1
                &&& v.with_reader(reader_id, index).keys.len() == v.keys.len()
            },
            None => taken(v.keys) == v.keys.len(),
        },
{
    lemma_taken_bounds(v.keys);
    laws::law_registration_fails_only_when_full(v, seed);
    if v.registration(seed) is Some {
        v.lemma_registration(seed);
        let (reader_id, index) = v.registration(seed)->0;
        lemma_taken_update(v.keys, index, reader_id);
    }
}

/// A reader that leaves changes the keys of no other slot.
proof fn lemma_left<T>(v: AreaView<T>, reader: NumericType)
    requires
        v.coherent(),
        area::valid_reader_id(reader),
        v.registered(reader),
    ensures
        v.with_reader_gone(reader).keys == v.keys.update(v.reader_slot(reader), 0),
{
    let left = v.without_reader(reader);
    laws::law_reader_that_leaves_is_gone(v, reader);
    let gone = AreaView { destroy_stages: left.destroy_stages.wrapping_sub(1), ..left };
    laws::lemma_counts_are_no_matter(left, left.writers_count, gone.destroy_stages);
    effects::law_a_cleanup_reports_what_it_does(gone);
}

/// A writer that leaves changes no keys.
proof fn lemma_writer_left<T>(v: AreaView<T>)
    requires
        v.coherent(),
    ensures
        v.with_writer_gone().keys == v.keys,
{
    let left = AreaView { writers_count: v.writers_count.wrapping_sub(1), ..v };
    let gone = AreaView { destroy_stages: left.destroy_stages.wrapping_sub(1), ..left };
    laws::lemma_counts_are_no_matter(v, left.writers_count, gone.destroy_stages);
    effects::law_a_cleanup_reports_what_it_does(gone);
}

/// How many more slots are reserved after a call than before.
pub open spec fn reserved_more<T>(s: Story<T>, call: Call<T>) -> int {
    let left = s.area.capacity() - (s.reserved() - s.dropped.len());
    match call {
        Call::Reserve { n } => if n <= left {
            n as int
        } else {
            0
        },
        Call::ReserveBestEffort { n } => if n <= left {
            n as int
        } else {
            left
        },
        _ => 0,
    }
}

/// A cleanup does not change how much was ever reserved.
proof fn lemma_cleanup_reserves_nothing<T>(s: Story<T>, cleaned: AreaView<T>)
    requires
        s.numbers_in_order(),
        s.contents_in_order(),
        cleaned == s.area.cleaned(),
    ensures
        s.dropped.len() + history::given_up(s.area).len() + cleaned.offset(cleaned.write_gen)
            == s.reserved(),
{
    history::lemma_cleanup_numbers(s.area);
    history::lemma_given_up(s);
}

/// What was ever reserved is what the reservations took: all of what was asked for if there was
/// room for it besides what is not dropped yet; otherwise nothing, or what was left where fewer
/// would do. Nothing else reserves anything, nor gives it back.
pub proof fn law_reservations_add_up<T>(s: Story<T>, call: Call<T>)
    requires
        s.inv(),
        s.after(call) is Some,
        call !is DropWriter,
        call !is DropReader,
    ensures
        s.after(call)->0.reserved() == s.reserved() + reserved_more(s, call),
        s.after(call)->0.area.capacity() == s.area.capacity(),
{
    reveal(Story::inv);
    let v = s.area;
    match call {
        Call::Reserve { n } => {
            effects::law_reserving_takes_what_is_reported(v, n as int);
        },
        Call::ReserveBestEffort { n } => {
            if n > 0 {
                effects::law_reserving_takes_what_is_reported(v, n as int);
                let actual = steps::best_effort(v.capacity(), n as int, v.free_gen, v.write_gen);
                if actual > 0 {
                    effects::law_reserving_takes_what_is_reported(v, actual);
                }
            }
        },
        Call::Cleanup => lemma_cleanup_reserves_nothing(s, v.cleaned()),
        _ => {},
    }
    if call is Cleanup {
        history::lemma_cleanup_numbers(v);
    }
}

/// What was ever published is what the ranges that were published in turn hold. Publishing out of
/// turn publishes nothing, and nothing else publishes anything.
pub proof fn law_publications_add_up<T>(s: Story<T>, call: Call<T>)
    requires
        s.inv(),
        s.after(call) is Some,
    ensures
        ({
            let w = s.after(call)->0;
            match call {
                Call::Publish { start, end } => {
                    let n = arithmetics::gen_dist(end, start);
                    if 0 < n <= 0x4000_0000_0000_0000 && start == arithmetics::gen_of(
                        s.log.len() as int,
                    ) {
                        &&& w.log.len() == s.log.len() + n
                        &&& w.log.take(s.log.len() as int) == s.log
                        &&& forall|k: int|
                            0 <= k < n ==> s.area.message(arithmetics::gen_add(start, k)) == Some(
                                #[trigger] w.log[s.log.len() + k],
                            )
                    } else {
                        w.log == s.log
                    }
                },
                _ => w.log == s.log,
            }
        }),
        s.area.read_gen == arithmetics::gen_of(s.log.len() as int),
{
    assert(s.numbers_in_order()) by {
        reveal(Story::inv);
    }
    history::lemma_read_generation(s);
    if let Call::Publish { start, end } = call {
        assert(arithmetics::gen_gte(start, end) || s.is_ready(start, end));
        lemma_publication(s, start, end);
    }
}

/// What publishing a range adds to what was published.
proof fn lemma_publication<T>(s: Story<T>, start: NumericType, end: NumericType)
    requires
        arithmetics::gen_gte(start, end) || forall|k: int|
            0 <= k < arithmetics::gen_dist(end, start) ==> s.area.message(
                #[trigger] arithmetics::gen_add(start, k),
            ) is Some,
    ensures
        ({
            let n = arithmetics::gen_dist(end, start);
            let w = s.with(Call::Publish { start, end });
            if 0 < n <= 0x4000_0000_0000_0000 && start == s.area.read_gen {
                &&& w.log.len() == s.log.len() + n
                &&& w.log.take(s.log.len() as int) == s.log
                &&& forall|k: int|
                    0 <= k < n ==> s.area.message(arithmetics::gen_add(start, k)) == Some(
                        #[trigger] w.log[s.log.len() + k],
                    )
            } else {
                w.log == s.log
            }
        }),
{
    let n = arithmetics::gen_dist(end, start);
    let w = s.with(Call::Publish { start, end });
    arithmetics::lemma_empty_range(start, end);
    if !arithmetics::gen_gte(start, end) && start == s.area.read_gen {
        assert(w.log == s.log + history::contents(s.area, start, n));
        assert(w.log.take(s.log.len() as int) =~= s.log);
        assert forall|k: int| 0 <= k < n implies s.area.message(arithmetics::gen_add(start, k))
            == Some(#[trigger] w.log[s.log.len() + k]) by {
            assert(w.log[s.log.len() + k] == history::contents(s.area, start, n)[k]);
        }
    }
}

/// How far a suspended reader is moved by a cleanup: never back.
proof fn lemma_cleanup_moves_nobody_back<T>(s: Story<T>, reader: NumericType)
    requires
        s.inv(),
        s.is_reader(reader),
    ensures
        ({
            let w = s.with(Call::Cleanup);
            &&& w.is_reader(reader)
            &&& s.position(reader) <= w.position(reader) <= w.log.len()
        }),
{
    reveal(Story::inv);
    let v = s.area;
    let w = s.with(Call::Cleanup);
    let slot = v.reader_slot(reader);
    history::lemma_reader_is_published(v, reader);
    history::lemma_cleanup_numbers(v);
    history::lemma_given_up(s);
    effects::law_a_cleanup_moves_no_reader_back(v, slot);
    assert(w.area.reader_gen(reader) == v.cleaned().gens[slot]);
    laws::lemma_order_by_offset(v.cleaned().gens[slot], v.held(), v.free_gen);
}

/// Where a reader comes to by a call of its own.
proof fn lemma_own_call<T>(s: Story<T>, call: Call<T>, reader: NumericType)
    requires
        s.inv(),
        s.is_reader(reader),
        s.after(call) is Some,
        history::moves(call, reader) && call !is DropReader || (call matches Call::DropSlice {
            reader: other,
            ..
        } && other == reader),
    ensures
        ({
            let w = s.after(call)->0;
            &&& w.is_reader(reader)
            &&& s.position(reader) <= w.position(reader) <= w.log.len()
        }),
{
    match call {
        Call::Advance { generation, .. } => lemma_advance_position(s, reader, generation),
        Call::Suspend { .. } => lemma_away_position(s, reader),
        Call::Resume { .. } => lemma_away_position(s, reader),
        Call::ResumeAt { generation, .. } => lemma_resume_at_position(s, reader, generation),
        Call::DropSlice { armed, .. } => {
            let end = s.slices[reader].end;
            lemma_stay_position(s, reader);
            if armed && !area::suspended(s.area.reader_gen(reader)) {
                assert(s.slice_in_order(reader)) by {
                    reveal(Story::inv);
                }
                lemma_advance_position(s, reader, end);
            }
        },
        _ => {},
    }
}

/// A reader is not ahead of what is published.
proof fn lemma_stay_position<T>(s: Story<T>, reader: NumericType)
    requires
        s.inv(),
        s.is_reader(reader),
    ensures
        s.area.coherent(),
        s.position(reader) <= s.log.len(),
        0 <= s.area.reader_slot(reader) < s.area.keys.len(),
        crate::map::logical_key(s.area.keys[s.area.reader_slot(reader)]) == reader,
        s.area.reader_gen(reader) == s.area.gens[s.area.reader_slot(reader)],
        s.log.len() == s.dropped.len() + s.area.offset(s.area.read_gen),
{
    reveal(Story::inv);
    history::lemma_reader_is_published(s.area, reader);
}

/// Where a reader comes to that advances to a generation which is published.
proof fn lemma_advance_position<T>(s: Story<T>, reader: NumericType, generation: NumericType)
    requires
        s.inv(),
        s.is_reader(reader),
        s.is_published(generation),
    ensures
        ({
            let w = s.with_area(s.area.with_gen_set(reader, generation));
            &&& w.is_reader(reader)
            &&& s.position(reader) <= w.position(reader) <= w.log.len()
        }),
{
    let v = s.area;
    lemma_stay_position(s, reader);
    effects::law_advancing_goes_where_it_is_asked_to(v, reader, v.reader_slot(reader), generation);
}

/// A reader that suspends itself or resumes stays where it is.
proof fn lemma_away_position<T>(s: Story<T>, reader: NumericType)
    requires
        s.inv(),
        s.is_reader(reader),
    ensures
        ({
            let w = s.with_area(s.area.with_suspended(reader));
            w.is_reader(reader) && s.position(reader) == w.position(reader) <= w.log.len()
        }),
        ({
            let w = s.with_area(s.area.with_resumed(reader));
            w.is_reader(reader) && s.position(reader) == w.position(reader) <= w.log.len()
        }),
{
    let v = s.area;
    let slot = v.reader_slot(reader);
    lemma_stay_position(s, reader);
    effects::law_suspending_leaves_a_reader_where_it_is(v, reader, slot);
    effects::law_resuming_leaves_a_reader_where_it_is(v, reader, slot);
    effects::law_the_flag_is_apart_from_the_generation(v.gens[slot]);
    assert(v.offset(arithmetics::gen_of(v.gens[slot] as int)) == v.offset(v.gens[slot])) by {
        arithmetics::law_msb_is_ignored(v.gens[slot], v.free_gen, 0);
    }
}

/// Where a reader comes to that resumes at a generation.
proof fn lemma_resume_at_position<T>(s: Story<T>, reader: NumericType, generation: NumericType)
    requires
        s.inv(),
        s.is_reader(reader),
        s.is_published(generation),
    ensures
        ({
            let v = s.area;
            let w = s.with(Call::ResumeAt { reader, generation });
            &&& w.is_reader(reader)
            &&& s.position(reader) <= w.position(reader) <= w.log.len()
            &&& v.resume_at_result(reader, generation) == Ok::<_, ResumeError>(true) ==> {
                &&& !area::suspended(w.area.reader_gen(reader))
                &&& w.position(reader) == s.dropped.len() + v.offset(generation)
            }
        }),
{
    reveal(Story::inv);
    let v = s.area;
    let slot = v.reader_slot(reader);
    let current = v.gens[slot];
    history::lemma_reader_is_published(v, reader);
    effects::law_resuming_at_a_generation_goes_there(v, reader, slot, generation);
    effects::law_the_flag_is_apart_from_the_generation(current);
    let position = arithmetics::gen_of(current as int);
    assert(v.offset(position) == v.offset(current)) by {
        arithmetics::law_msb_is_ignored(current, v.free_gen, 0);
    }
    assert(v.offset(arithmetics::gen_of(generation as int)) == v.offset(generation)) by {
        arithmetics::law_msb_is_ignored(generation, v.free_gen, 0);
    }
    laws::lemma_order_by_offset(position, generation, v.free_gen);
    if v.offset(generation) < v.offset(current) {
        assert(position != generation);
    }
}

/// A reader that is not asked anything keeps its slot.
proof fn lemma_others_call<T>(s: Story<T>, call: Call<T>, reader: NumericType)
    requires
        s.inv(),
        s.is_reader(reader),
        s.after(call) is Some,
        call !is Cleanup,
        !history::moves(call, reader),
        !(call matches Call::DropSlice { reader: other, .. } && other == reader),
    ensures
        ({
            let w = s.after(call)->0;
            &&& w.is_reader(reader)
            &&& w.position(reader) == s.position(reader)
            &&& w.log.len() >= s.log.len()
        }),
{
    reveal(Story::inv);
    let v = s.area;
    let w = s.with(call);
    match call {
        Call::CreateReader { seed } => {
            if v.registration(seed) is Some {
                laws::law_registered_reader_is_new(v, seed);
                assert(w.area.registered(reader));
            }
        },
        Call::DropSlice { reader: other, armed } => {
            if armed {
                history::lemma_other_moves(v, reader, other, s.slices[other].end);
            }
        },
        Call::Advance { reader: other, generation } => {
            history::lemma_other_moves(v, reader, other, generation);
        },
        Call::Suspend { reader: other } => {
            history::lemma_other_moves(v, reader, other, area::suspended_at(v.reader_gen(other)));
        },
        Call::Resume { reader: other } => {
            let g = arithmetics::gen_of(v.reader_gen(other) as int);
            history::lemma_other_moves(v, reader, other, g);
        },
        Call::ResumeAt { reader: other, generation } => {
            let g = arithmetics::gen_of(generation as int);
            history::lemma_other_moves(v, reader, other, g);
        },
        Call::DropWriter => {
            history::lemma_reader_is_somebody(v, reader);
            laws::law_writer_leaves(v);
        },
        Call::DropReader { reader: other } => {
            laws::law_reader_that_leaves_is_gone(v, other);
            assert(v.without_reader(other).registered(reader));
            history::lemma_reader_is_somebody(v.without_reader(other), reader);
            laws::law_reader_leaves(v, other);
        },
        _ => {},
    }
}

/// Whatever anybody does, a reader that stays is never moved back, nor beyond what is published:
/// neither while it is suspended nor by resuming. So it comes to no message twice.
pub proof fn law_no_reader_is_ever_moved_back<T>(s: Story<T>, calls: Seq<Call<T>>, reader: NumericType)
    requires
        s.inv(),
        s.is_reader(reader),
        s.after_all(calls) is Some,
        forall|i: int|
            0 <= i < calls.len() ==> #[trigger] calls[i] != (Call::<T>::DropReader { reader }),
    ensures
        s.after_all(calls)->0.is_reader(reader),
        s.position(reader) <= s.after_all(calls)->0.position(reader)
            <= s.after_all(calls)->0.log.len(),
    decreases calls.len(),
{
    if calls.len() == 0 {
        reveal(Story::inv);
        history::lemma_reader_is_published(s.area, reader);
    } else {
        let earlier = calls.drop_last();
        let before = s.after_all(earlier)->0;
        let call = calls.last();
        assert forall|i: int| 0 <= i < earlier.len() implies #[trigger] earlier[i] != (Call::<
            T,
        >::DropReader { reader }) by {
            assert(calls[i] == earlier[i]);
        }
        assert(calls[calls.len() - 1] == call);
        law_no_reader_is_ever_moved_back(s, earlier, reader);
        history::law_everything_stays_in_order(s, earlier);
        if call is Cleanup {
            lemma_cleanup_moves_nobody_back(before, reader);
        } else if history::moves(call, reader) || (call matches Call::DropSlice {
            reader: other,
            ..
        } && other == reader) {
            lemma_own_call(before, call, reader);
        } else {
            lemma_others_call(before, call, reader);
        }
    }
}

/// A suspended reader that resumes at a generation which is published is then at exactly that one,
/// and has yet to hear the messages that were published from there on, and no other.
pub proof fn law_a_reader_resumes_where_it_asks_to<T>(
    s: Story<T>,
    reader: NumericType,
    generation: NumericType,
)
    requires
        s.inv(),
        s.after(Call::ResumeAt { reader, generation }) is Some,
        s.area.resume_at_result(reader, generation) == Ok::<_, ResumeError>(true),
    ensures
        ({
            let w = s.after(Call::ResumeAt { reader, generation })->0;
            &&& w.is_active(reader)
            &&& arithmetics::gen_of(w.position(reader)) == arithmetics::gen_of(generation as int)
            &&& s.dropped.len() <= w.position(reader) <= s.log.len()
            &&& w.log == s.log
        }),
{
    reveal(Story::inv);
    lemma_resume_at_position(s, reader, generation);
    history::lemma_generation(s, s.dropped.len() + s.area.offset(generation));
    laws::lemma_place_by_offset(s.area, generation, 0);
}

} // verus!
