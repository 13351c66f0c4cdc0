//! The handles by which writers and readers take part in an area.
//!
//! A handle stands for its holder's place in the area. The area itself is handed to each operation
//! by whoever keeps it.
use crate::area::{
    self, gen_without_suspended_bit, AreaInner, BoxedAreaInner, CleanupError, CleanupResult,
    Coordination, PublishError, ReadError, RegisterError, ReserveError, ResumeError, SetGenError,
    SuspendError,
};
use crate::arithmetics::{
    self, gen_add_msb_masked, gen_dist_msb_masked, gen_gte_msb_masked, NumericType,
};
use crate::map::Slot;
use crate::model::{self, AreaView};
use crate::place::{self, Place};
use crate::steps;
use crate::storage::{BoxedSliceStorage, BoxedStorage, FixedStorage, FixedStorageMultiple};
use crate::tasks::{Event, ReadTask, Readable};
use core::marker::PhantomData;
use vstd::arithmetic::power2::*;
use vstd::prelude::*;

verus! {

/// A writer handle for an area
#[derive(Debug)]
pub struct AreaWriter<T, SReaderGens, SBuf, SCounter>
    where
        SReaderGens: FixedStorageMultiple<Slot<NumericType>>,
        SBuf: FixedStorageMultiple<Place<T>>,
        SCounter: FixedStorage<usize>,
{
    phantom: PhantomData<(T, SReaderGens, SBuf, SCounter)>,
}

/// A reader handle for an area
pub struct AreaReader<T, SReaderGens, SBuf, SCounter>
    where
        SReaderGens: FixedStorageMultiple<Slot<NumericType>>,
        SBuf: FixedStorageMultiple<Place<T>>,
        SCounter: FixedStorage<usize>,
{
    reader_id: NumericType,
    phantom: PhantomData<(T, SReaderGens, SBuf, SCounter)>,
}

/// What a participant needs in order to write messages.
pub trait AreaWriterTrait<T> {
    /// The memory of the reader slots
    type SReaderGens: FixedStorageMultiple<Slot<NumericType>>;

    /// The memory of the ring buffer
    type SBuf: FixedStorageMultiple<Place<T>>;

    /// The memory of a counter
    type SCounter: FixedStorage<usize>;

    /// Try to reserve n slots for writing; with `E = Exclusive` this writer must be the only one
    /// active.
    /// Returns (start_generation, end_generation) on success.
    /// end_generation is exclusive (so the range is [start_generation, end_generation)).
    fn try_reserve_slots<E: Coordination>(
        &self,
        area: &mut AreaInner<T, Self::SReaderGens, Self::SBuf, Self::SCounter>,
        n: usize,
    ) -> (r: Result<(NumericType, NumericType), ReserveError>)
        requires
            old(area).wf(),
            n != 0,
        ensures
            final(area).wf(),
            r == steps::reserve_plan(
                old(area)@.capacity(),
                n as int,
                old(area)@.free_gen,
                old(area)@.write_gen,
            ),
            final(area)@ == (if r is Ok {
                old(area)@.with_reserved(n as int)
            } else {
                old(area)@
            }),
    ;

    /// Try to reserve up to n slots, getting as many as possible; with `E = Exclusive` this writer
    /// must be the only one active.
    /// Returns (start_generation, end_generation, actual_count).
    /// Never returns [`ReserveError::NoSpace`], since in the case that no slots are available it
    /// simply returns `Ok((0, 0, 0))`.
    fn try_reserve_slots_best_effort<E: Coordination>(
        &self,
        area: &mut AreaInner<T, Self::SReaderGens, Self::SBuf, Self::SCounter>,
        n: usize,
    ) -> (r: Result<(NumericType, NumericType, usize), ReserveError>)
        requires
            old(area).wf(),
        ensures
            final(area).wf(),
            ({
                let v = old(area)@;
                let actual = steps::best_effort(v.capacity(), n as int, v.free_gen, v.write_gen);
                if actual == 0 {
                    &&& r == Ok::<_, ReserveError>((0u64, 0u64, 0usize))
                    &&& final(area)@ == v
                } else {
                    &&& r == Ok::<_, ReserveError>(
                        (
                            v.write_gen,
                            arithmetics::gen_add(v.write_gen, actual),
                            actual as usize,
                        ),
                    )
                    &&& final(area)@ == v.with_reserved(actual)
                }
            }),
    ;

    /// Publish slots in the range [start_generation, end_generation) for readers; with
    /// `E = Exclusive` this writer must be the only one active.
    /// This must be called with exactly the range returned by try_reserve_slots.
    fn publish_slots<E: Coordination>(
        &self,
        area: &mut AreaInner<T, Self::SReaderGens, Self::SBuf, Self::SCounter>,
        start_generation: NumericType,
        end_generation: NumericType,
    ) -> (r: Result<(), PublishError>)
        requires
            old(area).wf(),
        ensures
            final(area).wf(),
            r == old(area)@.publish_result(start_generation, end_generation, E::exclusive()),
            final(area)@ == old(area)@.published(start_generation, end_generation),
    ;

    /// Get mutable access to the slot at the given generation number, which must be within a range
    /// that was reserved via try_reserve_slots.
    fn get_slot_ptr<'b>(
        &self,
        area: &'b mut AreaInner<T, Self::SReaderGens, Self::SBuf, Self::SCounter>,
        generation: NumericType,
    ) -> (slot: &'b mut Place<T>)
        requires
            old(area).wf(),
        ensures
            slot@ == old(area)@.message(generation),
            final(area).wf(),
            final(area)@ == old(area)@.with_message(generation, final(slot)@),
    ;
}

impl<T, SReaderGens, SBuf, SCounter> AreaWriterTrait<T> for AreaWriter<T, SReaderGens, SBuf, SCounter>
    where
        SReaderGens: FixedStorageMultiple<Slot<NumericType>>,
        SBuf: FixedStorageMultiple<Place<T>>,
        SCounter: FixedStorage<usize>,
{
    type SReaderGens = SReaderGens;

    type SBuf = SBuf;

    type SCounter = SCounter;

    #[inline]
    fn try_reserve_slots<E: Coordination>(
        &self,
        area: &mut AreaInner<T, SReaderGens, SBuf, SCounter>,
        n: usize,
    ) -> (r: Result<(NumericType, NumericType), ReserveError>) {
        area.try_reserve_slots::<E>(n)
    }

    #[inline]
    fn try_reserve_slots_best_effort<E: Coordination>(
        &self,
        area: &mut AreaInner<T, SReaderGens, SBuf, SCounter>,
        n: usize,
    ) -> (r: Result<(NumericType, NumericType, usize), ReserveError>) {
        area.try_reserve_slots_best_effort::<E>(n)
    }

    #[inline]
    fn publish_slots<E: Coordination>(
        &self,
        area: &mut AreaInner<T, SReaderGens, SBuf, SCounter>,
        start_generation: NumericType,
        end_generation: NumericType,
    ) -> (r: Result<(), PublishError>) {
        area.publish_slots::<E>(start_generation, end_generation)
    }

    #[inline]
    fn get_slot_ptr<'b>(
        &self,
        area: &'b mut AreaInner<T, SReaderGens, SBuf, SCounter>,
        generation: NumericType,
    ) -> (slot: &'b mut Place<T>) {
        area.get_slot_ptr_mut(generation)
    }
}

impl<T, SReaderGens, SBuf, SCounter> AreaWriter<T, SReaderGens, SBuf, SCounter>
    where
        SReaderGens: FixedStorageMultiple<Slot<NumericType>>,
        SBuf: FixedStorageMultiple<Place<T>>,
        SCounter: FixedStorage<usize>,
{
    /// Create a reservation for n slots, which must be published.
    ///
    /// If this writer can be guaranteed to be the only active one at any moment, use
    /// `E = Exclusive` instead of `E = ()`.
    pub fn reserve<E: Coordination>(
        &self,
        area: &mut AreaInner<T, SReaderGens, SBuf, SCounter>,
        n: usize,
    ) -> (r: Result<Reservation<'_, Self, T>, ReserveError>)
        requires
            old(area).wf(),
            n != 0,
        ensures
            final(area).wf(),
            match steps::reserve_plan(
                old(area)@.capacity(),
                n as int,
                old(area)@.free_gen,
                old(area)@.write_gen,
            ) {
                Ok((start, end)) => {
                    &&& r is Ok
                    &&& r->Ok_0.start() == start
                    &&& r->Ok_0.end() == end
                    &&& final(area)@ == old(area)@.with_reserved(n as int)
                },
                Err(err) => {
                    &&& r is Err
                    &&& r->Err_0 == err
                    &&& final(area)@ == old(area)@
                },
            },
    {
        match self.try_reserve_slots::<E>(area, n) {
            Ok((start, end)) => Ok(Reservation::over(self, start, end)),
            Err(err) => Err(err),
        }
    }

    /// Try to reserve up to n slots, getting as many as possible. They must be published.
    ///
    /// If there are no slots available, this does not return [`ReserveError::NoSpace`] but instead
    /// simply returns an empty [`Reservation`].
    pub fn reserve_best_effort<E: Coordination>(
        &self,
        area: &mut AreaInner<T, SReaderGens, SBuf, SCounter>,
        n: usize,
    ) -> (r: Result<Reservation<'_, Self, T>, ReserveError>)
        requires
            old(area).wf(),
        ensures
            final(area).wf(),
            r is Ok,
            ({
                let v = old(area)@;
                let actual = steps::best_effort(v.capacity(), n as int, v.free_gen, v.write_gen);
                if actual == 0 {
                    &&& r->Ok_0.start() == 0
                    &&& r->Ok_0.end() == 0
                    &&& final(area)@ == v
                } else {
                    &&& r->Ok_0.start() == v.write_gen
                    &&& r->Ok_0.end() == arithmetics::gen_add(v.write_gen, actual)
                    &&& final(area)@ == v.with_reserved(actual)
                }
            }),
    {
        match self.try_reserve_slots_best_effort::<E>(area, n) {
            Ok((start, end, _)) => Ok(Reservation::over(self, start, end)),
            Err(err) => Err(err),
        }
    }

    /// Get the number of active writers
    pub fn get_writers_count(&self, area: &AreaInner<T, SReaderGens, SBuf, SCounter>) -> (n: usize)
        ensures
            n == area@.writers_count,
    {
        area.load_writers_count()
    }

    /// Try to cleanup old slots by advancing last_valid_gen.
    /// This scans ALL reader generation slots (including empty ones), force-advances suspended
    /// readers, and attempts to update last_valid_gen.
    #[inline]
    pub fn try_cleanup_old_slots<E: Coordination>(
        &self,
        area: &mut AreaInner<T, SReaderGens, SBuf, SCounter>,
    ) -> (r: Result<CleanupResult, CleanupError>)
        requires
            old(area).wf(),
            old(area)@.cleanup_ends(),
        ensures
            final(area).wf(),
            r == old(area)@.cleanup_result(),
            final(area)@ == old(area)@.cleaned(),
    {
        area.try_cleanup_old_slots::<E>()
    }
}

impl<T, SReaderGens, SBuf, SCounter> AreaWriterTrait<T> for AreaReader<T, SReaderGens, SBuf, SCounter>
    where
        SReaderGens: FixedStorageMultiple<Slot<NumericType>>,
        SBuf: FixedStorageMultiple<Place<T>>,
        SCounter: FixedStorage<usize>,
{
    type SReaderGens = SReaderGens;

    type SBuf = SBuf;

    type SCounter = SCounter;

    #[inline]
    fn try_reserve_slots<E: Coordination>(
        &self,
        area: &mut AreaInner<T, SReaderGens, SBuf, SCounter>,
        n: usize,
    ) -> (r: Result<(NumericType, NumericType), ReserveError>) {
        area.try_reserve_slots::<E>(n)
    }

    #[inline]
    fn try_reserve_slots_best_effort<E: Coordination>(
        &self,
        area: &mut AreaInner<T, SReaderGens, SBuf, SCounter>,
        n: usize,
    ) -> (r: Result<(NumericType, NumericType, usize), ReserveError>) {
        area.try_reserve_slots_best_effort::<E>(n)
    }

    #[inline]
    fn publish_slots<E: Coordination>(
        &self,
        area: &mut AreaInner<T, SReaderGens, SBuf, SCounter>,
        start_generation: NumericType,
        end_generation: NumericType,
    ) -> (r: Result<(), PublishError>) {
        area.publish_slots::<E>(start_generation, end_generation)
    }

    #[inline]
    fn get_slot_ptr<'b>(
        &self,
        area: &'b mut AreaInner<T, SReaderGens, SBuf, SCounter>,
        generation: NumericType,
    ) -> (slot: &'b mut Place<T>) {
        area.get_slot_ptr_mut(generation)
    }
}

impl<T, SReaderGens, SBuf, SCounter> AreaReader<T, SReaderGens, SBuf, SCounter>
    where
        SReaderGens: FixedStorageMultiple<Slot<NumericType>>,
        SBuf: FixedStorageMultiple<Place<T>>,
        SCounter: FixedStorage<usize>,
{
    /// Create a reservation for n slots, which must be published.
    ///
    /// If this writer can be guaranteed to be the only active one at any moment, use
    /// `E = Exclusive` instead of `E = ()`.
    pub fn reserve<E: Coordination>(
        &self,
        area: &mut AreaInner<T, SReaderGens, SBuf, SCounter>,
        n: usize,
    ) -> (r: Result<Reservation<'_, Self, T>, ReserveError>)
        requires
            old(area).wf(),
            n != 0,
        ensures
            final(area).wf(),
            match steps::reserve_plan(
                old(area)@.capacity(),
                n as int,
                old(area)@.free_gen,
                old(area)@.write_gen,
            ) {
                Ok((start, end)) => {
                    &&& r is Ok
                    &&& r->Ok_0.start() == start
                    &&& r->Ok_0.end() == end
                    &&& final(area)@ == old(area)@.with_reserved(n as int)
                },
                Err(err) => {
                    &&& r is Err
                    &&& r->Err_0 == err
                    &&& final(area)@ == old(area)@
                },
            },
    {
        match self.try_reserve_slots::<E>(area, n) {
            Ok((start, end)) => Ok(Reservation::over(self, start, end)),
            Err(err) => Err(err),
        }
    }

    /// Try to reserve up to n slots, getting as many as possible. They must be published.
    ///
    /// If there are no slots available, this does not return [`ReserveError::NoSpace`] but instead
    /// simply returns an empty [`Reservation`].
    pub fn reserve_best_effort<E: Coordination>(
        &self,
        area: &mut AreaInner<T, SReaderGens, SBuf, SCounter>,
        n: usize,
    ) -> (r: Result<Reservation<'_, Self, T>, ReserveError>)
        requires
            old(area).wf(),
        ensures
            final(area).wf(),
            r is Ok,
            ({
                let v = old(area)@;
                let actual = steps::best_effort(v.capacity(), n as int, v.free_gen, v.write_gen);
                if actual == 0 {
                    &&& r->Ok_0.start() == 0
                    &&& r->Ok_0.end() == 0
                    &&& final(area)@ == v
                } else {
                    &&& r->Ok_0.start() == v.write_gen
                    &&& r->Ok_0.end() == arithmetics::gen_add(v.write_gen, actual)
                    &&& final(area)@ == v.with_reserved(actual)
                }
            }),
    {
        match self.try_reserve_slots_best_effort::<E>(area, n) {
            Ok((start, end, _)) => Ok(Reservation::over(self, start, end)),
            Err(err) => Err(err),
        }
    }

    /// Get the number of active writers
    pub fn get_writers_count(&self, area: &AreaInner<T, SReaderGens, SBuf, SCounter>) -> (n: usize)
        ensures
            n == area@.writers_count,
    {
        area.load_writers_count()
    }

    /// Try to cleanup old slots by advancing last_valid_gen.
    /// This scans ALL reader generation slots (including empty ones), force-advances suspended
    /// readers, and attempts to update last_valid_gen.
    #[inline]
    pub fn try_cleanup_old_slots<E: Coordination>(
        &self,
        area: &mut AreaInner<T, SReaderGens, SBuf, SCounter>,
    ) -> (r: Result<CleanupResult, CleanupError>)
        requires
            old(area).wf(),
            old(area)@.cleanup_ends(),
        ensures
            final(area).wf(),
            r == old(area)@.cleanup_result(),
            final(area)@ == old(area)@.cleaned(),
    {
        area.try_cleanup_old_slots::<E>()
    }
}

impl<T, SReaderGens, SBuf, SCounter> AreaWriter<T, SReaderGens, SBuf, SCounter>
    where
        SReaderGens: FixedStorageMultiple<Slot<NumericType>>,
        SBuf: FixedStorageMultiple<Place<T>>,
        SCounter: FixedStorage<usize>,
{
    /// Create a new writer handle for the same area
    #[inline]
    pub fn create_writer(
        &self,
        area: &mut AreaInner<T, SReaderGens, SBuf, SCounter>,
    ) -> (writer: Self)
        requires
            old(area).wf(),
        ensures
            final(area).wf(),
            final(area)@ == old(area)@.with_writer(),
    {
        area.enter_writer();
        AreaWriter { phantom: PhantomData }
    }

    /// Leave the area. Returns whether nobody else is left there; everything that was published is
    /// dropped then, and the area is to be deallocated.
    pub fn drop(self, area: &mut AreaInner<T, SReaderGens, SBuf, SCounter>) -> (last: bool)
        requires
            old(area).wf(),
            old(area)@.writer_can_leave(),
        ensures
            final(area).wf(),
            final(area)@ == old(area)@.with_writer_gone(),
            last == old(area)@.ends_with_writer(),
    {
        area.leave_writer()
    }
}

/// A range of reserved slots. It must be published, since the slots after it cannot be published
/// before.
#[must_use]
#[derive(Debug)]
pub struct Reservation<'a, W, T> where W: AreaWriterTrait<T> {
    writer: &'a W,
    start_gen: NumericType,
    end_gen: NumericType,
    phantom: PhantomData<T>,
}

impl<'a, W, T> Reservation<'a, W, T> where W: AreaWriterTrait<T> {
    /// The generation of the first slot.
    pub closed spec fn start(&self) -> NumericType {
        self.start_gen
    }

    /// The generation after that of the last slot.
    pub closed spec fn end(&self) -> NumericType {
        self.end_gen
    }

    /// The number of slots.
    pub open spec fn count(&self) -> int {
        arithmetics::gen_dist(self.end(), self.start())
    }

    /// The generation of a slot.
    pub open spec fn slot(&self, index: int) -> NumericType {
        arithmetics::gen_add(self.start(), index)
    }

    /// Every slot holds a message.
    pub open spec fn initialized(&self, v: AreaView<T>) -> bool {
        forall|k: int| 0 <= k < self.count() ==> v.message(#[trigger] self.slot(k)) is Some
    }

    #[inline]
    pub(crate) fn over(writer: &'a W, start_gen: NumericType, end_gen: NumericType) -> (r: Self)
        ensures
            r.start() == start_gen,
            r.end() == end_gen,
    {
        Reservation { writer, start_gen, end_gen, phantom: PhantomData }
    }

    #[inline]
    pub(crate) fn parts(self) -> (r: (&'a W, NumericType, NumericType))
        ensures
            r.1 == self.start(),
            r.2 == self.end(),
    {
        (self.writer, self.start_gen, self.end_gen)
    }

    /// Get the number of reserved slots
    pub fn len(&self) -> (n: usize)
        ensures
            n == self.count() as usize,
    {
        gen_dist_msb_masked(self.end_gen, self.start_gen) as usize
    }

    /// Check if the reservation is empty
    pub fn is_empty(&self) -> (r: bool)
        ensures
            r == arithmetics::gen_gte(self.start(), self.end()),
            self.count() <= arithmetics::gen_horizon() ==> r == (self.count() == 0),
    {
        gen_gte_msb_masked(self.start_gen, self.end_gen)
    }

    /// Get mutable access to the slot at the given index within the reservation. By definition it
    /// holds nothing that could be read yet.
    pub fn get_mut<'b>(
        &mut self,
        area: &'b mut AreaInner<T, W::SReaderGens, W::SBuf, W::SCounter>,
        index: usize,
    ) -> (r: Option<&'b mut Place<T>>)
        requires
            old(area).wf(),
        ensures
            *final(self) == *old(self),
            final(area).wf(),
            match r {
                Some(slot) => {
                    &&& index < old(self).count() as usize
                    &&& slot@ == old(area)@.message(old(self).slot(index as int))
                    &&& final(area)@ == old(area)@.with_message(
                        old(self).slot(index as int),
                        final(slot)@,
                    )
                },
                None => {
                    &&& index >= old(self).count() as usize
                    &&& final(area)@ == old(area)@
                },
            },
    {
        if index >= self.len() {
            return None;
        }
        let generation = gen_add_msb_masked(self.start_gen, index as NumericType);
        Some(self.writer.get_slot_ptr(area, generation))
    }

    /// Publish the reserved slots, all of which must hold a message. Gives the reservation back if
    /// it is not its turn yet.
    pub fn publish<E: Coordination>(
        self,
        area: &mut AreaInner<T, W::SReaderGens, W::SBuf, W::SCounter>,
    ) -> (r: Result<(), (Self, PublishError)>)
        requires
            old(area).wf(),
            self.initialized(old(area)@),
        ensures
            final(area).wf(),
            match old(area)@.publish_result(self.start(), self.end(), E::exclusive()) {
                Ok(_) => r is Ok,
                Err(err) => r is Err && r->Err_0.0 == self && r->Err_0.1 == err,
            },
            final(area)@ == old(area)@.published(self.start(), self.end()),
    {
        match self.writer.publish_slots::<E>(area, self.start_gen, self.end_gen) {
            Ok(_) => Ok(()),
            Err(err) => Err((self, err)),
        }
    }

    /// Publish the reserved slots, all of which must hold a message, when it is their turn: while
    /// nobody else moves the area, it never comes to be later.
    pub fn publish_spin(
        self,
        area: &mut AreaInner<T, W::SReaderGens, W::SBuf, W::SCounter>,
    )
        requires
            old(area).wf(),
            self.initialized(old(area)@),
            old(area)@.publish_result(self.start(), self.end(), false) is Ok,
        ensures
            final(area).wf(),
            final(area)@ == old(area)@.published(self.start(), self.end()),
    {
        let _ = self.publish::<()>(area);
    }

    /// Split the reservation into two at the given index.
    /// Returns (left, right) where left is [start, start + index) and right is
    /// [start + index, end).
    pub fn split_at_mut(self, index: usize) -> (r: (Reservation<'a, W, T>, Reservation<'a, W, T>))
        requires
            index <= self.count(),
        ensures
            r.0.start() == self.start(),
            r.0.end() == self.slot(index as int),
            r.1.start() == self.slot(index as int),
            r.1.end() == self.end(),
            r.0.count() == index,
            r.1.count() == self.count() - index,
    {
        let split_gen = gen_add_msb_masked(self.start_gen, index as NumericType);
        let left = Reservation::over(self.writer, self.start_gen, split_gen);
        let right = Reservation::over(self.writer, split_gen, self.end_gen);
        (left, right)
    }
}

/// What registering made of a new reader: its id.
pub open spec fn new_reader_id<T, SReaderGens, SBuf, SCounter>(
    r: Result<AreaReader<T, SReaderGens, SBuf, SCounter>, RegisterError>,
) -> Result<NumericType, RegisterError>
    where
        SReaderGens: FixedStorageMultiple<Slot<NumericType>>,
        SBuf: FixedStorageMultiple<Place<T>>,
        SCounter: FixedStorage<usize>,
{
    match r {
        Ok(reader) => Ok(reader.id()),
        Err(err) => Err(err),
    }
}

impl<T, SReaderGens, SBuf, SCounter> AreaReader<T, SReaderGens, SBuf, SCounter>
    where
        SReaderGens: FixedStorageMultiple<Slot<NumericType>>,
        SBuf: FixedStorageMultiple<Place<T>>,
        SCounter: FixedStorage<usize>,
{
    /// The id under which the reader is registered.
    pub closed spec fn id(&self) -> NumericType {
        self.reader_id
    }

    /// The reader has an id.
    pub open spec fn wf(&self) -> bool {
        area::valid_reader_id(self.id())
    }

    /// The reader is registered in the area.
    pub open spec fn is_in(&self, v: AreaView<T>) -> bool {
        self.wf() && v.registered(self.id())
    }

    /// The generation that the reader is at, without the suspended flag.
    pub open spec fn position(&self, v: AreaView<T>) -> NumericType {
        arithmetics::gen_of(v.reader_gen(self.id()) as int)
    }

    /// The id under which the reader is registered.
    #[inline]
    pub fn reader_id(&self) -> (reader_id: NumericType)
        ensures
            reader_id == self.id(),
    {
        self.reader_id
    }

    /// Create a new reader handle for the same area
    pub fn create_reader(
        &self,
        area: &mut AreaInner<T, SReaderGens, SBuf, SCounter>,
    ) -> (r: Result<Self, RegisterError>)
        requires
            old(area).wf(),
        ensures
            final(area).wf(),
            exists|seed: NumericType| #[trigger]
                area::registers(old(area)@, seed, new_reader_id(r), final(area)@),
            r is Ok ==> r->Ok_0.wf(),
    {
        proof {
            area.lemma_shape();
        }
        match area.register_reader() {
            Ok(reader_id) => {
                proof {
                    let seed = choose|seed: NumericType| #[trigger]
                        area::registers(
                            old(area)@,
                            seed,
                            Ok::<_, RegisterError>(reader_id),
                            area@,
                        );
                    old(area)@.lemma_registration(seed);
                }
                Ok(AreaReader { reader_id, phantom: PhantomData })
            },
            Err(err) => Err(err),
        }
    }

    /// Create a new reader handle for the same area
    ///
    /// Uses the provided seed ID for reader ID generation. The actual ID will be a unique one
    /// derived from the seed.
    pub fn create_reader_with_seed(
        &self,
        area: &mut AreaInner<T, SReaderGens, SBuf, SCounter>,
        seed: NumericType,
    ) -> (r: Result<Self, RegisterError>)
        requires
            old(area).wf(),
        ensures
            final(area).wf(),
            area::registers(old(area)@, seed, new_reader_id(r), final(area)@),
            r is Ok ==> r->Ok_0.wf(),
    {
        proof {
            area.lemma_shape();
        }
        match area.register_reader_with_seed(seed) {
            Ok(reader_id) => {
                proof {
                    old(area)@.lemma_registration(seed);
                }
                Ok(AreaReader { reader_id, phantom: PhantomData })
            },
            Err(err) => Err(err),
        }
    }

    /// Get the current generation number for this reader, including the suspended bit if it's set
    pub fn get_gen(&self, area: &AreaInner<T, SReaderGens, SBuf, SCounter>) -> (g: NumericType)
        requires
            area.wf(),
            self.is_in(area@),
        ensures
            g == area@.reader_gen(self.id()),
    {
        area.get_reader_gen(self.reader_id).unwrap()
    }

    /// Load the current published read generation
    pub fn load_read_gen(
        &self,
        area: &AreaInner<T, SReaderGens, SBuf, SCounter>,
    ) -> (g: NumericType)
        ensures
            g == area@.read_gen,
    {
        area.load_read_gen()
    }

    /// Try to set the reader's generation number (for advancing); fails if the reader is suspended
    /// or if the new_generation is older or equal to the current generation.
    fn set_reader_gen(
        &mut self,
        area: &mut AreaInner<T, SReaderGens, SBuf, SCounter>,
        new_generation: NumericType,
    ) -> (r: Result<(), SetGenError>)
        requires
            old(area).wf(),
            old(self).wf(),
        ensures
            *final(self) == *old(self),
            final(area).wf(),
            r == old(area)@.set_gen_result(old(self).id(), new_generation),
            final(area)@ == old(area)@.with_gen_set(old(self).id(), new_generation),
    {
        area.set_reader_gen(self.reader_id, new_generation)
    }

    /// Advance this reader's generation by n messages
    pub fn advance(
        &mut self,
        area: &mut AreaInner<T, SReaderGens, SBuf, SCounter>,
        n: NumericType,
    ) -> (r: Result<(), SetGenError>)
        requires
            old(area).wf(),
            old(self).is_in(old(area)@),
        ensures
            *final(self) == *old(self),
            final(area).wf(),
            ({
                let new_generation = arithmetics::gen_add(
                    old(self).position(old(area)@),
                    n as int,
                );
                &&& r == old(area)@.set_gen_result(old(self).id(), new_generation)
                &&& final(area)@ == old(area)@.with_gen_set(old(self).id(), new_generation)
            }),
    {
        let current = self.get_gen(area);
        let new_generation = gen_add_msb_masked(gen_without_suspended_bit(current), n);
        area.set_reader_gen(self.reader_id, new_generation)
    }

    /// Get access to the slot at the given generation number, for reading.
    pub fn get_slot_ptr<'b>(
        &self,
        area: &'b AreaInner<T, SReaderGens, SBuf, SCounter>,
        generation: NumericType,
    ) -> (slot: &'b Place<T>)
        requires
            area.wf(),
        ensures
            slot@ == area@.message(generation),
    {
        area.get_slot_ptr_const(generation)
    }

    /// Mark this reader as suspended
    pub fn suspend(
        &mut self,
        area: &mut AreaInner<T, SReaderGens, SBuf, SCounter>,
    ) -> (r: Result<(), SuspendError>)
        requires
            old(area).wf(),
            old(self).wf(),
        ensures
            *final(self) == *old(self),
            final(area).wf(),
            r == old(area)@.suspend_result(old(self).id()),
            final(area)@ == old(area)@.with_suspended(old(self).id()),
    {
        area.suspend_reader(self.reader_id)
    }

    /// Try to resume from suspended state at the current valid generation
    pub fn resume(
        &mut self,
        area: &mut AreaInner<T, SReaderGens, SBuf, SCounter>,
    ) -> (r: Result<bool, ResumeError>)
        requires
            old(area).wf(),
            old(self).wf(),
        ensures
            *final(self) == *old(self),
            final(area).wf(),
            r == old(area)@.resume_result(old(self).id()),
            final(area)@ == old(area)@.with_resumed(old(self).id()),
    {
        area.resume_reader(self.reader_id)
    }

    /// Try to resume from suspended state at the given entry_generation
    pub fn resume_at(
        &mut self,
        area: &mut AreaInner<T, SReaderGens, SBuf, SCounter>,
        entry_generation: NumericType,
    ) -> (r: Result<bool, ResumeError>)
        requires
            old(area).wf(),
            old(self).wf(),
        ensures
            *final(self) == *old(self),
            final(area).wf(),
            r == old(area)@.resume_at_result(old(self).id(), entry_generation),
            final(area)@ == old(area)@.with_resumed_at(old(self).id(), entry_generation),
    {
        area.resume_reader_at(self.reader_id, entry_generation)
    }

    /// Leave the area. Returns whether nobody else is left there; everything that was published is
    /// dropped then, and the area is to be deallocated.
    pub fn drop(self, area: &mut AreaInner<T, SReaderGens, SBuf, SCounter>) -> (last: bool)
        requires
            old(area).wf(),
            self.wf(),
            old(area)@.reader_can_leave(self.id()),
        ensures
            final(area).wf(),
            final(area)@ == old(area)@.with_reader_gone(self.id()),
            last == old(area)@.ends_with_reader(self.id()),
    {
        area.leave_reader(self.reader_id)
    }

    /// Get a slice of all currently available messages.
    /// When the slice is dropped, the reader advances past these messages.
    pub fn read(
        &mut self,
        area: &AreaInner<T, SReaderGens, SBuf, SCounter>,
    ) -> (slice: ReadSlice<'_, T, SReaderGens, SBuf, SCounter>)
        requires
            area.wf(),
            old(self).is_in(area@),
        ensures
            slice.start_gen == old(self).position(area@),
            slice.end_gen == area@.read_gen,
            slice.armed,
            *slice.reader == *old(self),
            *final(self) == *final(slice.reader),
    {
        let start_gen = gen_without_suspended_bit(self.get_gen(area));
        let end_gen = self.load_read_gen(area);
        ReadSlice { reader: self, start_gen, end_gen, armed: true }
    }

    /// Get a slice of all currently available messages.
    /// When the slice is dropped, the reader advances past these messages.
    ///
    /// If nothing is left to read and no writers are still in the area, returns a [`ReadError`].
    ///
    /// # Behavior to note
    ///
    /// This method only checks for **AreaWriters,** not other AreaReaders. If you are primarily
    /// using the readers-are-also-writers pattern, use [`AreaReader::read`] instead and implement
    /// your own check for exit conditions.
    pub fn read_with_check(
        &mut self,
        area: &AreaInner<T, SReaderGens, SBuf, SCounter>,
    ) -> (r: Result<ReadSlice<'_, T, SReaderGens, SBuf, SCounter>, ReadError>)
        requires
            area.wf(),
            old(self).is_in(area@),
        ensures
            ({
                let start = old(self).position(area@);
                let n = arithmetics::gen_dist(area@.read_gen, start) as usize;
                if n == 0 && area@.writers_count == 0 {
                    &&& r is Err
                    &&& *final(self) == *old(self)
                } else {
                    &&& r is Ok
                    &&& r->Ok_0.start_gen == start
                    &&& r->Ok_0.end_gen == (if n != 0 {
                        area@.read_gen
                    } else {
                        start
                    })
                    &&& r->Ok_0.armed == (n != 0)
                    &&& *r->Ok_0.reader == *old(self)
                    &&& *final(self) == *final(r->Ok_0.reader)
                }
            }),
    {
        let mut task = ReadTask::Start.next(Event::Loaded(self.get_gen(area)));
        task = task.next(Event::Loaded(self.load_read_gen(area)));
        if let ReadTask::LookingForWriters { .. } = task {
            let writers = self.get_writers_count(area);
            task = task.next(Event::Loaded(writers as NumericType));
        }
        if let ReadTask::Again = task {
            task = task.next(Event::Loaded(self.get_gen(area)));
            task = task.next(Event::Loaded(self.load_read_gen(area)));
        }
        match task {
            ReadTask::Ended(Ok(Readable { start, end, armed })) => {
                Ok(ReadSlice { reader: self, start_gen: start, end_gen: end, armed })
            },
            _ => Err(ReadError),
        }
    }
}

/// A slice-like view of readable messages. When it is dropped, the reader advances past them,
/// unless the slice was disarmed.
pub struct ReadSlice<'a, T, SReaderGens, SBuf, SCounter>
    where
        SReaderGens: FixedStorageMultiple<Slot<NumericType>>,
        SBuf: FixedStorageMultiple<Place<T>>,
        SCounter: FixedStorage<usize>,
{
    pub reader: &'a mut AreaReader<T, SReaderGens, SBuf, SCounter>,
    /// The generation of the first message
    pub start_gen: NumericType,
    /// The generation after that of the last message
    pub end_gen: NumericType,
    /// The reader advances when the slice is dropped
    pub armed: bool,
}

impl<'a, T, SReaderGens, SBuf, SCounter> ReadSlice<'a, T, SReaderGens, SBuf, SCounter>
    where
        SReaderGens: FixedStorageMultiple<Slot<NumericType>>,
        SBuf: FixedStorageMultiple<Place<T>>,
        SCounter: FixedStorage<usize>,
{
    /// The number of messages.
    pub open spec fn count(&self) -> int {
        arithmetics::gen_dist(self.end_gen, self.start_gen)
    }

    /// The generation of a message.
    pub open spec fn slot(&self, index: int) -> NumericType {
        arithmetics::gen_add(self.start_gen, index)
    }

    /// Create a new ReadSlice that is disarmed by default (won't advance the reader on drop).
    /// Caller must manually advance.
    pub fn new_disarmed(
        reader: &'a mut AreaReader<T, SReaderGens, SBuf, SCounter>,
        start_gen: NumericType,
        end_gen: NumericType,
    ) -> (slice: Self)
        ensures
            slice.start_gen == start_gen,
            slice.end_gen == end_gen,
            !slice.armed,
            *slice.reader == *old(reader),
            *final(slice.reader) == *final(reader),
    {
        ReadSlice { reader, start_gen, end_gen, armed: false }
    }

    /// Disarm this slice so it won't advance the reader on drop.
    /// The caller is responsible for manually advancing the reader if needed.
    pub fn disarm(&mut self)
        ensures
            final(self).start_gen == old(self).start_gen,
            final(self).end_gen == old(self).end_gen,
            !final(self).armed,
            final(self).reader == old(self).reader,
    {
        self.armed = false;
    }

    /// Turns this slice into its components.
    /// The caller is responsible for manually advancing the reader if needed.
    pub fn into_raw_parts(self) -> (parts: (
        &'a mut AreaReader<T, SReaderGens, SBuf, SCounter>,
        NumericType,
        NumericType,
        bool,
    ))
        ensures
            *parts.0 == *old(self.reader),
            *final(parts.0) == *final(self.reader),
            parts.1 == self.start_gen,
            parts.2 == self.end_gen,
            parts.3 == self.armed,
    {
        (self.reader, self.start_gen, self.end_gen, self.armed)
    }

    /// Get the number of messages in this slice
    pub fn len(&self) -> (n: usize)
        ensures
            n == self.count() as usize,
    {
        gen_dist_msb_masked(self.end_gen, self.start_gen) as usize
    }

    /// Check if the slice is empty
    pub fn is_empty(&self) -> (r: bool)
        ensures
            r == arithmetics::gen_gte(self.start_gen, self.end_gen),
            self.count() <= arithmetics::gen_horizon() ==> r == (self.count() == 0),
    {
        gen_gte_msb_masked(self.start_gen, self.end_gen)
    }

    /// Get a reference to the message at the given index
    pub fn get<'b>(
        &self,
        area: &'b AreaInner<T, SReaderGens, SBuf, SCounter>,
        index: usize,
    ) -> (r: Option<&'b T>)
        requires
            area.wf(),
            index < self.count() as usize ==> area@.message(self.slot(index as int)) is Some,
        ensures
            match r {
                Some(message) => {
                    &&& index < self.count() as usize
                    &&& area@.message(self.slot(index as int)) == Some(*message)
                },
                None => index >= self.count() as usize,
            },
    {
        if index >= self.len() {
            return None;
        }
        let generation = gen_add_msb_masked(self.start_gen, index as NumericType);
        self.reader.get_slot_ptr(area, generation).get()
    }

    /// Iterate over all messages in the slice
    pub fn iter(&self) -> (iter: ReadSliceIter<'_, T, SReaderGens, SBuf, SCounter>)
        ensures
            *iter.slice() == *self,
            iter.at() == 0,
    {
        ReadSliceIter { slice: self, current: 0 }
    }

    /// Get the messages as one or two slices (if wrapping around the ring buffer)
    pub fn as_slices<'b>(
        &self,
        area: &'b AreaInner<T, SReaderGens, SBuf, SCounter>,
    ) -> (r: (&'b [Place<T>], &'b [Place<T>]))
        requires
            area.wf(),
            self.count() <= area@.capacity(),
        ensures
            ({
                let n = if arithmetics::gen_gte(self.start_gen, self.end_gen) {
                    0
                } else {
                    self.count()
                };
                (place::contents(r.0@), place::contents(r.1@)) == area@.segments(self.start_gen, n)
            }),
    {
        let len = if self.is_empty() {
            0
        } else {
            self.len()
        };
        let buffer = area.buffer();
        proof {
            area.lemma_shape();
        }
        let (start, first, second) = steps::plan_segments(self.start_gen, len, buffer.len());
        proof {
            place::lemma_contents_subrange(buffer@, start as int, start + first);
            place::lemma_contents_subrange(buffer@, 0, second as int);
        }
        (
            vstd::slice::slice_subrange(buffer, start, start + first),
            vstd::slice::slice_subrange(buffer, 0, second),
        )
    }

    /// Try to cleanup old slots by advancing last_valid_gen.
    /// This scans ALL reader generation slots (including empty ones), force-advances suspended
    /// readers, and attempts to update last_valid_gen.
    #[inline]
    pub fn try_cleanup_old_slots<E: Coordination>(
        &self,
        area: &mut AreaInner<T, SReaderGens, SBuf, SCounter>,
    ) -> (r: Result<CleanupResult, CleanupError>)
        requires
            old(area).wf(),
            old(area)@.cleanup_ends(),
        ensures
            final(area).wf(),
            r == old(area)@.cleanup_result(),
            final(area)@ == old(area)@.cleaned(),
    {
        area.try_cleanup_old_slots::<E>()
    }

    /// Advance the reader past all messages in this slice, unless the slice was disarmed.
    ///
    /// The reader must not have been advanced while the slice was held.
    pub fn drop(self, area: &mut AreaInner<T, SReaderGens, SBuf, SCounter>)
        requires
            old(area).wf(),
            self.armed ==> self.reader.is_in(old(area)@) && self.reader.position(old(area)@)
                == self.start_gen,
        ensures
            *final(self.reader) == *old(self.reader),
            final(area).wf(),
            final(area)@ == (if self.armed {
                old(area)@.with_gen_set(old(self.reader).id(), self.end_gen)
            } else {
                old(area)@
            }),
    {
        if self.armed {
            let _ = self.reader.set_reader_gen(area, self.end_gen);
        }
    }
}

/// Iterator over messages in a ReadSlice
pub struct ReadSliceIter<'a, T, SReaderGens, SBuf, SCounter>
    where
        SReaderGens: FixedStorageMultiple<Slot<NumericType>>,
        SBuf: FixedStorageMultiple<Place<T>>,
        SCounter: FixedStorage<usize>,
{
    slice: &'a ReadSlice<'a, T, SReaderGens, SBuf, SCounter>,
    current: usize,
}

impl<'a, T, SReaderGens, SBuf, SCounter> ReadSliceIter<'a, T, SReaderGens, SBuf, SCounter>
    where
        SReaderGens: FixedStorageMultiple<Slot<NumericType>>,
        SBuf: FixedStorageMultiple<Place<T>>,
        SCounter: FixedStorage<usize>,
{
    /// The slice that is iterated over.
    pub closed spec fn slice(&self) -> &'a ReadSlice<'a, T, SReaderGens, SBuf, SCounter> {
        self.slice
    }

    /// The number of messages that were handed out.
    pub closed spec fn at(&self) -> usize {
        self.current
    }

    /// The next message, if there is one.
    pub fn next<'b>(
        &mut self,
        area: &'b AreaInner<T, SReaderGens, SBuf, SCounter>,
    ) -> (r: Option<&'b T>)
        requires
            area.wf(),
            old(self).at() < old(self).slice().count() as usize ==> area@.message(
                old(self).slice().slot(old(self).at() as int),
            ) is Some,
        ensures
            final(self).slice() == old(self).slice(),
            match r {
                Some(message) => {
                    &&& old(self).at() < old(self).slice().count() as usize
                    &&& area@.message(old(self).slice().slot(old(self).at() as int)) == Some(
                        *message,
                    )
                    &&& final(self).at() == old(self).at() + 1
                },
                None => {
                    &&& old(self).at() >= old(self).slice().count() as usize
                    &&& final(self).at() == old(self).at()
                },
            },
    {
        match self.slice.get(area, self.current) {
            Some(item) => {
                self.current = self.current + 1;
                Some(item)
            },
            None => None,
        }
    }

    /// The number of messages that are left.
    pub fn size_hint(&self) -> (r: (usize, Option<usize>))
        requires
            self.at() <= self.slice().count() as usize,
        ensures
            r.0 == self.slice().count() as usize - self.at(),
            r.1 == Some(r.0),
    {
        let remaining = self.slice.len() - self.current;
        (remaining, Some(remaining))
    }
}

/// A writer handle for a boxed area.
pub type BoxedAreaWriter<T> = AreaWriter<
    T,
    BoxedSliceStorage<Slot<NumericType>>,
    BoxedSliceStorage<Place<T>>,
    BoxedStorage<usize>,
>;

/// A reader handle for a boxed area.
pub type BoxedAreaReader<T> = AreaReader<
    T,
    BoxedSliceStorage<Slot<NumericType>>,
    BoxedSliceStorage<Place<T>>,
    BoxedStorage<usize>,
>;

/// Create a new area with the given buffer and reader capacity.
/// Returns it with a writer and a reader handle.
pub fn area<T>(buffer_capacity: usize, reader_capacity: usize) -> (r: (
    BoxedAreaInner<T>,
    BoxedAreaWriter<T>,
    BoxedAreaReader<T>,
))
    requires
        buffer_capacity > 0,
        is_pow2(reader_capacity as int),
        reader_capacity < crate::map::IN_PROGRESS,
    ensures
        r.0.wf(),
        r.2.wf(),
        ({
            let fresh = AreaView::<T>::fresh(buffer_capacity as nat, reader_capacity as nat);
            let (reader_id, index) = fresh.registration(1)->0;
            &&& fresh.registration(1) is Some
            &&& r.2.id() == reader_id
            &&& r.0@ == (AreaView { writers_count: 1, ..fresh.with_reader(reader_id, index) })
        }),
{
    let mut inner = BoxedAreaInner::<T>::new(buffer_capacity, reader_capacity);
    proof {
        inner.lemma_shape();
        model::lemma_first_registration(inner@);
    }
    let (writer, reader) = finish_init(&mut inner);
    (inner, writer, reader)
}

/// Let the first writer and the first reader into a new area, which must have room for a reader.
pub fn finish_init<T, SReaderGens, SBuf, SCounter>(
    inner: &mut AreaInner<T, SReaderGens, SBuf, SCounter>,
) -> (r: (
    AreaWriter<T, SReaderGens, SBuf, SCounter>,
    AreaReader<T, SReaderGens, SBuf, SCounter>,
))
    where
        SReaderGens: FixedStorageMultiple<Slot<NumericType>>,
        SBuf: FixedStorageMultiple<Place<T>>,
        SCounter: FixedStorage<usize>,
    requires
        old(inner).wf(),
        old(inner)@.registration(1) is Some,
    ensures
        final(inner).wf(),
        r.1.wf(),
        ({
            let (reader_id, index) = old(inner)@.registration(1)->0;
            &&& r.1.id() == reader_id
            &&& final(inner)@ == (AreaView {
                writers_count: 1,
                ..old(inner)@.with_reader(reader_id, index)
            })
        }),
{
    proof {
        inner.lemma_shape();
        inner@.lemma_registration(1);
    }
    let ghost before = inner@;
    // Set initial writers count
    inner.store_writers_count(1);

    // Register the initial reader
    assert(inner@.registration(1) == before.registration(1));
    match inner.register_reader_with_seed(1) {
        Ok(reader_id) => {
            let ghost (_, index) = before.registration(1)->0;
            assert(inner@ =~= (AreaView {
                writers_count: 1,
                ..before.with_reader(reader_id, index)
            }));
            (
                AreaWriter { phantom: PhantomData },
                AreaReader { reader_id, phantom: PhantomData },
            )
        },
        Err(_) => {
            assert(false);
            (AreaWriter { phantom: PhantomData }, AreaReader { reader_id: 1, phantom: PhantomData })
        },
    }
}

/// A reservation from one generation to another `n` ahead has `n` slots, of generations that follow
/// on each other. It is initialized if and only if each of them holds a message.
pub proof fn law_a_reservation_has_the_slots_in_between<'a, W: AreaWriterTrait<T>, T>(
    reservation: Reservation<'a, W, T>,
    n: int,
    k: int,
    v: AreaView<T>,
)
    requires
        0 <= k < n < 0x8000_0000_0000_0000,
        arithmetics::gen_dist(reservation.end(), reservation.start()) == n,
    ensures
        reservation.count() == n,
        reservation.slot(k) < 0x8000_0000_0000_0000,
        arithmetics::gen_dist(reservation.slot(k), reservation.start()) == k,
        reservation.initialized(v) <==> forall|i: int|
            0 <= i < n ==> v.message(#[trigger] arithmetics::gen_add(reservation.start(), i)) is Some,
{
    if reservation.initialized(v) {
        assert forall|i: int| 0 <= i < n implies v.message(
            #[trigger] arithmetics::gen_add(reservation.start(), i),
        ) is Some by {
            assert(v.message(reservation.slot(i)) is Some);
        }
    }
}

/// A slice from one generation to another `n` ahead has `n` messages, of generations that follow on
/// each other.
pub proof fn law_a_slice_has_the_messages_in_between<'a, T, SReaderGens, SBuf, SCounter>(
    slice: ReadSlice<'a, T, SReaderGens, SBuf, SCounter>,
    n: int,
    k: int,
)
    where
        SReaderGens: FixedStorageMultiple<Slot<NumericType>>,
        SBuf: FixedStorageMultiple<Place<T>>,
        SCounter: FixedStorage<usize>,
    requires
        0 <= k < n < 0x8000_0000_0000_0000,
        arithmetics::gen_dist(slice.end_gen, slice.start_gen) == n,
    ensures
        slice.count() == n,
        slice.slot(k) < 0x8000_0000_0000_0000,
        arithmetics::gen_dist(slice.slot(k), slice.start_gen) == k,
{
}

/// A reader is where its slot says, suspended or not.
pub proof fn law_a_reader_is_where_its_slot_says<T, SReaderGens, SBuf, SCounter>(
    reader: AreaReader<T, SReaderGens, SBuf, SCounter>,
    v: AreaView<T>,
)
    where
        SReaderGens: FixedStorageMultiple<Slot<NumericType>>,
        SBuf: FixedStorageMultiple<Place<T>>,
        SCounter: FixedStorage<usize>,
    ensures
        reader.position(v) < 0x8000_0000_0000_0000,
        arithmetics::gen_dist(reader.position(v), v.reader_gen(reader.id())) == 0,
        reader.wf() <==> 0 < reader.id() < 0x8000_0000_0000_0000,
        reader.is_in(v) <==> reader.wf() && v.registered(reader.id()),
{
}

/// Whoever registers is told the id that the reader got, or why it got none.
pub proof fn law_a_new_reader_has_the_id_it_got<T, SReaderGens, SBuf, SCounter>(
    r: Result<AreaReader<T, SReaderGens, SBuf, SCounter>, RegisterError>,
)
    where
        SReaderGens: FixedStorageMultiple<Slot<NumericType>>,
        SBuf: FixedStorageMultiple<Place<T>>,
        SCounter: FixedStorage<usize>,
    ensures
        r is Ok <==> new_reader_id(r) is Ok,
        r matches Ok(reader) ==> new_reader_id(r)->Ok_0 == reader.id(),
{
}

} // verus!
