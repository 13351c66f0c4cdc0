//! Going through reserved slots one by one, so that none is published without a message.
use crate::area::{AreaInner, Coordination, PublishError};
use crate::arithmetics::{
    self, gen_add_msb_masked, gen_dist_msb_masked, gen_gte_msb_masked, NumericType,
};
use crate::handles::{AreaWriterTrait, Reservation};
use crate::model::AreaView;
use crate::place::Place;
use core::marker::PhantomData;
use vstd::prelude::*;

verus! {

/// A single slot in a [`ReservationIter`] that must be written to.
#[must_use]
pub struct ReservationSlot<'a, T> {
    /// The place of the slot in the ring buffer
    pub place: &'a mut Place<T>,
    /// The generation of the slot
    pub generation: NumericType,
    /// The number of slots that have been written to so far
    pub written_count: &'a mut usize,
    /// This one is among them
    pub written: bool,
}

impl<'a, T> ReservationSlot<'a, T> {
    /// Write a value into this slot, which must not have been written to. Returns a mutable
    /// reference to the written value.
    pub fn write(&mut self, val: T) -> (message: &mut T)
        requires
            !old(self).written,
            *old(self).written_count < usize::MAX,
        ensures
            *message == val,
            final(self).written,
            final(self).generation == old(self).generation,
            final(self).place@ == Some(*final(message)),
            *final(self).written_count == *old(self).written_count + 1,
            *final(final(self).place) == *final(old(self).place),
            *final(final(self).written_count) == *final(old(self).written_count),
    {
        self.written = true;
        *self.written_count = *self.written_count + 1;
        self.place.write(val)
    }

    /// Get the generation number for this slot.
    pub fn generation(&self) -> (g: NumericType)
        ensures
            g == self.generation,
    {
        self.generation
    }

    /// Check if this slot has been written to.
    pub fn is_written(&self) -> (r: bool)
        ensures
            r == self.written,
    {
        self.written
    }
}

/// An iterator over reserved slots that makes sure that they hold messages before they are
/// published.
///
/// Created by calling `into_iter()` on a [`Reservation`]. Each yielded [`ReservationSlot`] must
/// have [`write()`](ReservationSlot::write) called on it. Once all slots are written,
/// [`publish()`](ReservationIter::publish) can be called.
#[must_use]
pub struct ReservationIter<'a, W, T> where W: AreaWriterTrait<T> {
    writer: &'a W,
    start_gen: NumericType,
    end_gen: NumericType,
    cursor: NumericType,
    written_count: usize,
    total: usize,
    phantom: PhantomData<T>,
}

impl<'a, W, T> Reservation<'a, W, T> where W: AreaWriterTrait<T> {
    /// Go through the reserved slots.
    pub fn into_iter(self) -> (iter: ReservationIter<'a, W, T>)
        ensures
            iter.start() == self.start(),
            iter.end() == self.end(),
            iter.at() == self.start(),
            iter.written() == 0,
            iter.size() == self.count() as usize,
    {
        let total = self.len();
        let (writer, start_gen, end_gen) = self.parts();
        ReservationIter {
            writer,
            start_gen,
            end_gen,
            cursor: start_gen,
            written_count: 0,
            total,
            phantom: PhantomData,
        }
    }
}

impl<'a, W, T> ReservationIter<'a, W, T> where W: AreaWriterTrait<T> {
    /// The generation of the first slot.
    pub closed spec fn start(&self) -> NumericType {
        self.start_gen
    }

    /// The generation after that of the last slot.
    pub closed spec fn end(&self) -> NumericType {
        self.end_gen
    }

    /// The generation of the slot that comes next.
    pub closed spec fn at(&self) -> NumericType {
        self.cursor
    }

    /// The number of slots that have been written to so far.
    pub closed spec fn written(&self) -> usize {
        self.written_count
    }

    /// The number of slots.
    pub closed spec fn size(&self) -> usize {
        self.total
    }

    /// The generation of a slot.
    pub open spec fn slot(&self, index: int) -> NumericType {
        arithmetics::gen_add(self.start(), index)
    }

    /// Every slot that was yielded has been written to, and holds a message.
    pub open spec fn filled(&self, v: AreaView<T>) -> bool {
        &&& self.size() == arithmetics::gen_dist(self.end(), self.start())
        &&& self.size() <= arithmetics::gen_horizon()
        &&& self.start() < arithmetics::gen_period()
        &&& self.written() <= self.size()
        &&& self.at() == self.slot(self.written() as int)
        &&& forall|k: int| 0 <= k < self.written() ==> v.message(#[trigger] self.slot(k)) is Some
    }

    /// Every slot holds a message.
    pub open spec fn initialized(&self, v: AreaView<T>) -> bool {
        forall|k: int| 0 <= k < self.size() ==> v.message(#[trigger] self.slot(k)) is Some
    }

    /// Get the total number of slots in this reservation.
    pub fn len(&self) -> (n: usize)
        ensures
            n == self.size(),
    {
        self.total
    }

    /// Check if the reservation is empty.
    pub fn is_empty(&self) -> (r: bool)
        ensures
            r == (self.size() == 0),
    {
        self.total == 0
    }

    /// Get the number of slots that have been written to so far.
    pub fn written_count(&self) -> (n: usize)
        ensures
            n == self.written(),
    {
        self.written_count
    }

    /// Check if all slots have been written to.
    pub fn all_written(&self) -> (r: bool)
        ensures
            r == (self.written() == self.size()),
    {
        self.written_count == self.total
    }

    /// Get the number of remaining slots to be yielded.
    pub fn remaining(&self) -> (n: usize)
        ensures
            n == arithmetics::gen_dist(self.end(), self.at()) as usize,
    {
        gen_dist_msb_masked(self.end_gen, self.cursor) as usize
    }

    /// The next slot, if there is one. It must be written to before the one after it is asked for.
    pub fn next<'b>(
        &'b mut self,
        area: &'b mut AreaInner<T, W::SReaderGens, W::SBuf, W::SCounter>,
    ) -> (r: Option<ReservationSlot<'b, T>>)
        requires
            old(area).wf(),
        ensures
            final(area).wf(),
            final(self).start() == old(self).start(),
            final(self).end() == old(self).end(),
            final(self).size() == old(self).size(),
            match r {
                Some(slot) => {
                    &&& !arithmetics::gen_gte(old(self).at(), old(self).end())
                    &&& final(self).at() == arithmetics::gen_add(old(self).at(), 1)
                    &&& slot.generation == old(self).at()
                    &&& !slot.written
                    &&& slot.place@ == old(area)@.message(slot.generation)
                    &&& *slot.written_count == old(self).written()
                    &&& final(area)@ == old(area)@.with_message(
                        slot.generation,
                        final(slot.place)@,
                    )
                    &&& final(self).written() == *final(slot.written_count)
                },
                None => {
                    &&& arithmetics::gen_gte(old(self).at(), old(self).end())
                    &&& *final(self) == *old(self)
                    &&& final(area)@ == old(area)@
                },
            },
    {
        if gen_gte_msb_masked(self.cursor, self.end_gen) {
            return None;
        }
        let generation = self.cursor;
        self.cursor = gen_add_msb_masked(self.cursor, 1);
        let place = self.writer.get_slot_ptr(area, generation);
        Some(
            ReservationSlot {
                place,
                generation,
                written_count: &mut self.written_count,
                written: false,
            },
        )
    }

    /// The number of remaining slots to be yielded.
    pub fn size_hint(&self) -> (r: (usize, Option<usize>))
        ensures
            r.0 == arithmetics::gen_dist(self.end(), self.at()) as usize,
            r.1 == Some(r.0),
    {
        let remaining = self.remaining();
        (remaining, Some(remaining))
    }

    /// Publish all slots, which must have been written to. Gives the iterator back if it is not
    /// their turn yet.
    ///
    /// Use `E = ()` for multiple writers or `E = Exclusive` if there is only a single one.
    pub fn publish<E: Coordination>(
        self,
        area: &mut AreaInner<T, W::SReaderGens, W::SBuf, W::SCounter>,
    ) -> (r: Result<(), (Self, PublishError)>)
        requires
            old(area).wf(),
            self.written() == self.size(),
            self.initialized(old(area)@),
        ensures
            final(area).wf(),
            match old(area)@.publish_result(self.start(), self.end(), E::exclusive()) {
                Ok(_) => r is Ok,
                Err(err) => r is Err && r->Err_0.0 == self && r->Err_0.1 == err,
            },
            final(area)@ == old(area)@.published(self.start(), self.end()),
    {
        match self.writer.publish_slots::<E>(area, self.start_gen, self.end_gen) {
            Ok(_) => Ok(()),
            Err(err) => Err((self, err)),
        }
    }

    /// Publish all slots, which must have been written to, when it is their turn: while nobody else
    /// moves the area, it never comes to be later.
    pub fn publish_spin(
        self,
        area: &mut AreaInner<T, W::SReaderGens, W::SBuf, W::SCounter>,
    )
        requires
            old(area).wf(),
            self.written() == self.size(),
            self.initialized(old(area)@),
            old(area)@.publish_result(self.start(), self.end(), false) is Ok,
        ensures
            final(area).wf(),
            final(area)@ == old(area)@.published(self.start(), self.end()),
    {
        let _ = self.publish::<()>(area);
    }
}

/// Slots stay filled: asking for the next slot and writing to it fills one more.
pub proof fn law_writing_fills_one_more<'a, W: AreaWriterTrait<T>, T>(
    before: ReservationIter<'a, W, T>,
    after: ReservationIter<'a, W, T>,
    v: AreaView<T>,
    message: T,
)
    requires
        before.filled(v),
        !arithmetics::gen_gte(before.at(), before.end()),
        after.start() == before.start(),
        after.end() == before.end(),
        after.size() == before.size(),
        after.at() == arithmetics::gen_add(before.at(), 1),
        after.written() == before.written() + 1,
        v.capacity() > 0,
    ensures
        after.filled(v.with_message(before.at(), Some(message))),
{
    let w = v.with_message(before.at(), Some(message));
    let n = before.written() as int;
    assert(before.at() == before.slot(n));
    assert(n < before.size()) by {
        if n == before.size() {
            arithmetics::law_add_distance(
                arithmetics::gen_of(before.end() as int),
                before.start(),
            );
        }
    }
    assert(after.at() == after.slot(n + 1)) by {
        arithmetics::law_add_in_portions(before.start(), n, 1);
    }
    vstd::arithmetic::div_mod::lemma_mod_bound(
        before.at() as usize as int,
        v.capacity() as int,
    );
    assert forall|k: int| 0 <= k < after.written() implies w.message(#[trigger] after.slot(k)) is Some by {
        assert(after.slot(k) == before.slot(k));
        if k < n {
            assert(v.message(before.slot(k)) is Some);
        }
    }
}

/// When no slot is left, all have been written to, so that they can be published.
pub proof fn law_at_the_end_all_are_written<'a, W: AreaWriterTrait<T>, T>(
    iter: ReservationIter<'a, W, T>,
    v: AreaView<T>,
)
    requires
        iter.filled(v),
        arithmetics::gen_gte(iter.at(), iter.end()),
    ensures
        iter.written() == iter.size(),
        iter.initialized(v),
{
}

} // verus!
