//! The area: a bounded square in which every reader hears every message.
pub use crate::handles::{
    area, finish_init, AreaReader, AreaWriter, AreaWriterTrait, ReadSlice, ReadSliceIter,
    Reservation,
};
use crate::arithmetics::{
    self, gen_add_msb_masked, gen_dist_msb_masked, gen_gte_msb_masked, gen_lte_msb_masked,
    NumericType,
};
use crate::map::{key_bits, SimpleLPHashMap, Slot, IMMEDIATE, ZERO_OFFSET};
use crate::model::{self, AreaView};
use crate::place::{self, Place};
use crate::steps;
use crate::storage::{BoxedSliceStorage, BoxedStorage, FixedStorage, FixedStorageMultiple};
use crate::tasks::{self, CleanupTask, Event, LeaveTask, Request, ReserveTask, ResumeTask};
use core::marker::PhantomData;
use vstd::arithmetic::power2::*;
use vstd::prelude::*;

verus! {

/// Errors that can occur when reserving slots
#[derive(Debug, Clone, Copy, PartialEq, Eq)]
pub enum ReserveError {
    /// No space available in the ring buffer (capacity check failed)
    NoSpace,
    /// Failed to grab slots (race condition, retry might succeed)
    FailedGrab,
}

/// Errors that can occur when publishing slots
#[derive(Debug, Clone, Copy, PartialEq, Eq)]
pub enum PublishError {
    /// The range doesn't match the current read_gen (someone else published in between, or
    /// someone else with earlier generations have not yet published)
    CasFailed,
    /// Publishing out of order (the start_generation of the range to be published didn't match
    /// the current read_gen)
    ///
    /// Only occurs in Exclusive mode (when `E = Exclusive`), since in the CAS mode (when `E = ()`)
    /// the start range check is implicit in the CAS operation.
    ///
    /// read_gen should be at start_generation when publishing with range [start_generation,
    /// end_generation), since otherwise readers might observe unpublished and uninitialized slots.
    /// Publishing must be strictly in the order of the generations returned by try_reserve_slots,
    /// in sequential order.
    OutOfOrderPublishAttempt,
}

/// Errors that can occur when setting reader generation
#[derive(Debug, Clone, Copy, PartialEq, Eq)]
pub enum SetGenError {
    /// Reader ID not found in the map
    ReaderNotFound,
    /// Reader is suspended, resume first to gain exclusive access before trying to set the
    /// generation
    ReaderSuspended,
    /// New generation is older than current generation; older generations are not guaranteed to
    /// still exist
    InvalidGeneration,
}

/// Errors that can occur when suspending a reader
#[derive(Debug, Clone, Copy, PartialEq, Eq)]
pub enum SuspendError {
    /// Reader ID not found in the map
    ReaderNotFound,
    /// The reader is already suspended
    AlreadySuspended,
}

/// Errors that can occur when resuming a reader
#[derive(Debug, Clone, Copy, PartialEq, Eq)]
pub enum ResumeError {
    /// Reader ID not found in the map
    ReaderNotFound,
    /// The requested entry generation is older than the current forced minimum
    GenerationTooOld,
}

/// Errors that can occur when registering a reader
#[derive(Debug, Clone, Copy, PartialEq, Eq)]
pub enum RegisterError {
    /// The reader map is full (capacity reached)
    ReaderCapacityReached,
}

/// Errors that can occur when reading messages.
///
/// Messages could not be retrieved because there are no writers in the area.
#[derive(Debug, Clone, Copy, PartialEq, Eq)]
pub struct ReadError;

/// Errors that can occur when unregistering a reader
#[derive(Debug, Clone, Copy, PartialEq, Eq)]
pub enum UnregisterError {
    /// Reader ID not found in the map
    ReaderNotFound,
}

/// Errors that can occur during cleanup
#[derive(Debug, Clone, Copy, PartialEq, Eq)]
pub enum CleanupError {
    /// No cleanup needed
    NothingToClean,
}

/// Result of a successful cleanup operation
#[derive(Debug, Clone, Copy, PartialEq, Eq)]
pub struct CleanupResult {
    /// The old last_valid_gen before cleanup
    pub old_last_valid: NumericType,
    /// The new last_valid_gen after cleanup
    pub new_last_valid: NumericType,
    /// Number of slots cleaned
    pub slots_cleaned: NumericType,
}

/// Whether an operation shares the area with others of its kind (`()`) or is the only one
/// (`Exclusive`).
pub trait Coordination {
    /// Nobody else performs operations of this kind.
    spec fn exclusive() -> bool;

    /// Whether nobody else performs operations of this kind.
    fn is_exclusive() -> (r: bool)
        ensures
            r == Self::exclusive(),
    ;
}

impl Coordination for () {
    open spec fn exclusive() -> bool {
        false
    }

    #[inline]
    fn is_exclusive() -> (r: bool) {
        false
    }
}

/// A marker type for specifying that the check for other writers (or cleaners) can be skipped for
/// an operation because the caller is the only active one.
pub struct Exclusive(u8);

impl Coordination for Exclusive {
    open spec fn exclusive() -> bool {
        true
    }

    #[inline]
    fn is_exclusive() -> (r: bool) {
        true
    }
}

/// Only who says so is the only one.
pub proof fn law_only_exclusive_is_exclusive()
    ensures
        !<() as Coordination>::exclusive(),
        <Exclusive as Coordination>::exclusive(),
{
}

// MSB is reserved for "suspended" status on reader generation numbers
pub const SUSPENDED_BIT: NumericType = 0x8000_0000_0000_0000;

/// The suspended bit is set.
pub open spec fn suspended(generation: NumericType) -> bool {
    generation >= SUSPENDED_BIT
}

/// A generation with the suspended bit set.
pub open spec fn suspended_at(generation: NumericType) -> NumericType {
    (generation % SUSPENDED_BIT + SUSPENDED_BIT) as NumericType
}

proof fn lemma_suspended_bit(g: NumericType)
    ensures
        g & !SUSPENDED_BIT == arithmetics::gen_of(g as int),
        g | SUSPENDED_BIT == suspended_at(g),
        (g & SUSPENDED_BIT != 0) == suspended(g),
{
    assert(g & !0x8000_0000_0000_0000u64 == g % 0x8000_0000_0000_0000) by (bit_vector);
    assert(g | 0x8000_0000_0000_0000u64 == (g % 0x8000_0000_0000_0000) + 0x8000_0000_0000_0000)
        by (bit_vector);
    assert((g & 0x8000_0000_0000_0000u64 != 0) <==> g >= 0x8000_0000_0000_0000) by (bit_vector);
}

/// Strip the suspended bit from a generation number
#[inline]
pub fn gen_without_suspended_bit(generation: NumericType) -> (g: NumericType)
    ensures
        g == arithmetics::gen_of(generation as int),
{
    proof {
        lemma_suspended_bit(generation);
    }
    generation & !SUSPENDED_BIT
}

/// Set the suspended bit of a generation number
#[inline]
pub fn gen_with_suspended_bit(generation: NumericType) -> (g: NumericType)
    ensures
        g == suspended_at(generation),
{
    proof {
        lemma_suspended_bit(generation);
    }
    generation | SUSPENDED_BIT
}

/// Check if a generation number has the suspended bit set
#[inline]
pub fn is_suspended(generation: NumericType) -> (r: bool)
    ensures
        r == suspended(generation),
{
    proof {
        lemma_suspended_bit(generation);
    }
    (generation & SUSPENDED_BIT) != 0
}

/// The shared state of an area.
pub struct AreaInner<T, SReaderGens, SBuf, SCounter>
    where
        SReaderGens: FixedStorageMultiple<Slot<NumericType>>,
        SBuf: FixedStorageMultiple<Place<T>>,
        SCounter: FixedStorage<usize>,
{
    /// Next generation number for writing (monotonically increasing)
    write_gen: NumericType,
    /// Current generation number published for reading (monotonically increasing)
    read_gen: NumericType,
    /// Last generation number that is still valid (for cleanup)
    last_valid_gen: NumericType,
    /// Generation numbers that are now freed and can be reused
    free_gen: NumericType,
    /// Number of active writers
    writers_count: usize,
    /// Per-reader generation numbers (with MSB as suspended flag)
    reader_gens: SimpleLPHashMap<NumericType, SReaderGens>,
    /// Ring buffer capacity
    buffer_capacity: usize,
    /// Ring buffer storage
    buffer: SBuf,
    /// Destruction stages counter
    /// Starts at 2 (1 for writers, 1 for readers collectively)
    destroy_stages: SCounter,
    /// Reader keep-alloc tickets
    /// Used to gate non-competing readers that leave
    reader_keep_alloc_tickets: SCounter,
    /// Reader stage tickets
    /// Count of readers competing to decrement destroy_stages
    reader_stage_tickets: SCounter,
    phantom: PhantomData<T>,
}

/// An area on the heap.
pub type BoxedAreaInner<T> = AreaInner<
    T,
    BoxedSliceStorage<Slot<NumericType>>,
    BoxedSliceStorage<Place<T>>,
    BoxedStorage<usize>,
>;

impl<T, SReaderGens, SBuf, SCounter> View for AreaInner<T, SReaderGens, SBuf, SCounter>
    where
        SReaderGens: FixedStorageMultiple<Slot<NumericType>>,
        SBuf: FixedStorageMultiple<Place<T>>,
        SCounter: FixedStorage<usize>,
{
    type V = AreaView<T>;

    closed spec fn view(&self) -> AreaView<T> {
        AreaView {
            write_gen: self.write_gen,
            read_gen: self.read_gen,
            last_valid_gen: self.last_valid_gen,
            free_gen: self.free_gen,
            writers_count: self.writers_count,
            keys: slot_keys(self.reader_gens@),
            gens: slot_gens(self.reader_gens@),
            buffer: place::contents(self.buffer.items()),
            destroy_stages: self.destroy_stages.items()[0],
            reader_keep_alloc_tickets: self.reader_keep_alloc_tickets.items()[0],
            reader_stage_tickets: self.reader_stage_tickets.items()[0],
        }
    }
}

/// The keys of reader slots.
pub open spec fn slot_keys(slots: Seq<Slot<NumericType>>) -> Seq<u64> {
    Seq::new(slots.len(), |i: int| slots[i].key)
}

/// The values of reader slots.
pub open spec fn slot_gens(slots: Seq<Slot<NumericType>>) -> Seq<NumericType> {
    Seq::new(slots.len(), |i: int| slots[i].value@->0)
}

/// Every reader slot has its key and its generation.
pub proof fn law_reader_slots_are_in_order(slots: Seq<Slot<NumericType>>, i: int)
    requires
        0 <= i < slots.len(),
    ensures
        slot_keys(slots).len() == slots.len(),
        slot_keys(slots)[i] == slots[i].key,
        slot_gens(slots).len() == slots.len(),
        slots[i].value@ is Some ==> slots[i].value@ == Some(slot_gens(slots)[i]),
{
}

/// An id that a reader can have: neither zero nor with the MSB set.
pub open spec fn valid_reader_id(reader_id: NumericType) -> bool {
    0 < reader_id < SUSPENDED_BIT
}

/// A random number.
///
/// `rand::Rng::random` of the generator that `rand::rng` hands to the current thread: it may give
/// any number, so nothing is claimed of the result. Where the operating system has no randomness
/// left when the generator of a thread is started or reseeded, they panic.
#[verifier::external_body]
fn random_seed() -> (seed: NumericType) {
    rand::Rng::random::<NumericType>(&mut rand::rng())
}

/// What registering a reader with `seed` returns, and what it leaves behind.
pub open spec fn registers<T>(
    before: AreaView<T>,
    seed: NumericType,
    r: Result<NumericType, RegisterError>,
    after: AreaView<T>,
) -> bool {
    match before.registration(seed) {
        Some((reader_id, index)) => {
            &&& r == Ok::<_, RegisterError>(reader_id)
            &&& after == before.with_reader(reader_id, index)
        },
        None => {
            &&& r == Err::<NumericType, _>(RegisterError::ReaderCapacityReached)
            &&& after == before
        },
    }
}

impl<T> BoxedAreaInner<T> {
    /// Create a new AreaInner with the given buffer capacity and reader capacity on the heap.
    pub fn new(buffer_capacity: usize, reader_capacity: usize) -> (area: Self)
        requires
            buffer_capacity > 0,
            is_pow2(reader_capacity as int),
            reader_capacity < crate::map::IN_PROGRESS,
        ensures
            area.wf(),
            area@ == AreaView::<T>::fresh(buffer_capacity as nat, reader_capacity as nat),
    {
        let no_message = || -> (place: Place<T>)
            ensures
                place@ is None,
            { Place::uninit() };
        let buffer = BoxedSliceStorage::with_capacity_and_init(buffer_capacity, no_message);
        let no_reader = || -> (g: NumericType)
            ensures
                g == SUSPENDED_BIT,
            { SUSPENDED_BIT };
        let reader_gens = SimpleLPHashMap::with_capacity_and_init(reader_capacity, no_reader);
        let area = AreaInner::init(
            reader_gens,
            buffer,
            BoxedStorage::new(2),
            BoxedStorage::new(0),
            BoxedStorage::new(0),
        );
        assert(area@ =~= AreaView::<T>::fresh(buffer_capacity as nat, reader_capacity as nat));
        area
    }
}

impl<T, SReaderGens, SBuf, SCounter> AreaInner<T, SReaderGens, SBuf, SCounter>
    where
        SReaderGens: FixedStorageMultiple<Slot<NumericType>>,
        SBuf: FixedStorageMultiple<Place<T>>,
        SCounter: FixedStorage<usize>,
{
    /// The parts of the area have the shape that the operations rely on.
    pub closed spec fn wf(&self) -> bool {
        &&& self.reader_gens.wf()
        &&& self.reader_gens@.len() < crate::map::IN_PROGRESS
        &&& forall|i: int|
            0 <= i < self.reader_gens@.len() ==> (#[trigger] self.reader_gens@[i]).value@ is Some
        &&& self.buffer_capacity == self.buffer.items().len()
        &&& self.buffer_capacity > 0
        &&& self.destroy_stages.items().len() > 0
        &&& self.reader_keep_alloc_tickets.items().len() > 0
        &&& self.reader_stage_tickets.items().len() > 0
    }

    /// The numbers of slots of an area.
    pub proof fn lemma_shape(&self)
        requires
            self.wf(),
        ensures
            is_pow2(self@.keys.len() as int),
            0 < self@.keys.len() <= usize::MAX,
            self@.keys.len() < crate::map::IN_PROGRESS,
            self@.gens.len() == self@.keys.len(),
            0 < self@.buffer.len() <= usize::MAX,
    {
        self.reader_gens.lemma_capacity();
    }

    /// Make a new [`AreaInner`] of existing storage.
    ///
    /// # Notes
    /// - `reader_gens` must have all values initialized not to zero but to `SUSPENDED_BIT`.
    pub fn init(
        reader_gens: SimpleLPHashMap<NumericType, SReaderGens>,
        buffer: SBuf,
        destroy_stages: SCounter,
        reader_keep_alloc_tickets: SCounter,
        reader_stage_tickets: SCounter,
    ) -> (area: Self)
        requires
            reader_gens.wf(),
            reader_gens@.len() < crate::map::IN_PROGRESS,
            forall|i: int|
                0 <= i < reader_gens@.len() ==> (#[trigger] reader_gens@[i]).value@ == Some(
                    SUSPENDED_BIT,
                ),
            buffer.items().len() > 0,
            destroy_stages.items().len() > 0,
            reader_keep_alloc_tickets.items().len() > 0,
            reader_stage_tickets.items().len() > 0,
        ensures
            area.wf(),
            area@ == (AreaView::<T> {
                write_gen: 0,
                read_gen: 0,
                last_valid_gen: 0,
                free_gen: 0,
                writers_count: 0,
                keys: slot_keys(reader_gens@),
                gens: Seq::new(reader_gens@.len(), |i: int| SUSPENDED_BIT),
                buffer: place::contents(buffer.items()),
                destroy_stages: destroy_stages.items()[0],
                reader_keep_alloc_tickets: reader_keep_alloc_tickets.items()[0],
                reader_stage_tickets: reader_stage_tickets.items()[0],
            }),
    {
        let area = AreaInner {
            write_gen: 0,
            read_gen: 0,
            last_valid_gen: 0,
            free_gen: 0,
            writers_count: 0,
            reader_gens,
            buffer_capacity: buffer.capacity(),
            buffer,
            destroy_stages,
            reader_keep_alloc_tickets,
            reader_stage_tickets,
            phantom: PhantomData,
        };
        assert(area@.gens =~= Seq::new(reader_gens@.len(), |i: int| SUSPENDED_BIT));
        area
    }

    /// The number of messages that there is room for.
    #[inline]
    pub fn buffer_capacity(&self) -> (n: usize)
        requires
            self.wf(),
        ensures
            n == self@.capacity(),
            n > 0,
    {
        self.buffer_capacity
    }

    /// The ring buffer.
    #[inline]
    pub fn buffer(&self) -> (places: &[Place<T>])
        ensures
            place::contents(places@) == self@.buffer,
    {
        self.buffer.slice()
    }

    /// Get mutable access to the slot at the given generation number
    #[inline]
    pub fn get_slot_ptr_mut(&mut self, generation: NumericType) -> (slot: &mut Place<T>)
        requires
            old(self).wf(),
        ensures
            slot@ == old(self)@.message(generation),
            final(self).wf(),
            final(self)@ == old(self)@.with_message(generation, final(slot)@),
    {
        let index = steps::ring_index(generation, self.buffer_capacity);
        proof {
            place::lemma_contents_update(self.buffer.items(), index as int);
        }
        &mut self.buffer.slice_mut()[index]
    }

    /// Get access to the slot at the given generation number
    #[inline]
    pub fn get_slot_ptr_const(&self, generation: NumericType) -> (slot: &Place<T>)
        requires
            self.wf(),
        ensures
            slot@ == self@.message(generation),
    {
        let index = steps::ring_index(generation, self.buffer_capacity);
        &self.buffer.slice()[index]
    }

    /// Load the current write generation (non-inclusive)
    #[inline]
    pub fn load_write_gen(&self) -> (g: NumericType)
        ensures
            g == self@.write_gen,
    {
        self.write_gen
    }

    /// Load the current read generation (non-inclusive)
    #[inline]
    pub fn load_read_gen(&self) -> (g: NumericType)
        ensures
            g == self@.read_gen,
    {
        self.read_gen
    }

    /// Load the current last valid generation (inclusive)
    #[inline]
    pub fn load_last_valid_gen(&self) -> (g: NumericType)
        ensures
            g == self@.last_valid_gen,
    {
        self.last_valid_gen
    }

    /// Load the current free generation (non-inclusive)
    #[inline]
    pub fn load_free_gen(&self) -> (g: NumericType)
        ensures
            g == self@.free_gen,
    {
        self.free_gen
    }

    /// Load the number of active writers
    #[inline]
    pub fn load_writers_count(&self) -> (n: usize)
        ensures
            n == self@.writers_count,
    {
        self.writers_count
    }

    /// Exchange the write generation. With `E = Exclusive` nobody else can have changed it, so this
    /// is not checked.
    #[inline]
    pub fn exchange_write_gen<E: Coordination>(
        &mut self,
        expected: NumericType,
        desired: NumericType,
    ) -> (event: Event)
        requires
            old(self).wf(),
        ensures
            final(self).wf(),
            if E::exclusive() || old(self)@.write_gen == expected {
                &&& event == Event::Exchanged
                &&& final(self)@ == (AreaView { write_gen: desired, ..old(self)@ })
            } else {
                &&& event == Event::Changed(old(self)@.write_gen)
                &&& final(self)@ == old(self)@
            },
    {
        if E::is_exclusive() {
            self.write_gen = desired;
            Event::Exchanged
        } else {
            tasks::exchange(&mut self.write_gen, expected, desired)
        }
    }

    /// Carry out a reservation.
    fn carry_out_reserve<E: Coordination>(&mut self, request: Request) -> (r: Result<
        (NumericType, NumericType, usize),
        ReserveError,
    >)
        requires
            old(self).wf(),
        ensures
            final(self).wf(),
            match tasks::reserve_next(
                request,
                (ReserveTask::SawFree { free: old(self)@.free_gen }),
                Event::Loaded(old(self)@.write_gen),
            ) {
                ReserveTask::Planned { start, end, count } => {
                    &&& r == Ok::<_, ReserveError>((start, end, count))
                    &&& final(self)@ == (AreaView { write_gen: end, ..old(self)@ })
                },
                ReserveTask::Ended(result) => r == result && final(self)@ == old(self)@,
                _ => false,
            },
    {
        let mut task = ReserveTask::Start.next(request, Event::Loaded(self.load_free_gen()));
        task = task.next(request, Event::Loaded(self.load_write_gen()));
        if let ReserveTask::Planned { start, end, .. } = task {
            task = task.next(request, self.exchange_write_gen::<E>(start, end));
        }
        match task {
            ReserveTask::Ended(result) => result,
            _ => Err(ReserveError::FailedGrab),
        }
    }

    /// Try to reserve n slots for writing.
    /// Returns (start_generation, end_generation) on success.
    /// end_generation is exclusive (so the range is [start_generation, end_generation)).
    pub fn try_reserve_slots<E: Coordination>(&mut self, n: usize) -> (r: Result<
        (NumericType, NumericType),
        ReserveError,
    >)
        requires
            old(self).wf(),
            n != 0,
        ensures
            final(self).wf(),
            r == steps::reserve_plan(
                old(self)@.capacity(),
                n as int,
                old(self)@.free_gen,
                old(self)@.write_gen,
            ),
            final(self)@ == (if r is Ok {
                old(self)@.with_reserved(n as int)
            } else {
                old(self)@
            }),
    {
        let request = Request { capacity: self.buffer_capacity, n, best_effort: false };
        match self.carry_out_reserve::<E>(request) {
            Ok((start, end, _)) => Ok((start, end)),
            Err(err) => Err(err),
        }
    }

    /// Try to reserve up to n slots, getting as many as possible.
    /// Returns (start_generation, end_generation, actual_count).
    /// Never returns [`ReserveError::NoSpace`], since in the case that no slots are available it
    /// simply returns `Ok((0, 0, 0))`.
    pub fn try_reserve_slots_best_effort<E: Coordination>(&mut self, n: usize) -> (r: Result<
        (NumericType, NumericType, usize),
        ReserveError,
    >)
        requires
            old(self).wf(),
        ensures
            final(self).wf(),
            ({
                let area = old(self)@;
                let actual = steps::best_effort(
                    area.capacity(),
                    n as int,
                    area.free_gen,
                    area.write_gen,
                );
                if actual == 0 {
                    &&& r == Ok::<_, ReserveError>((0u64, 0u64, 0usize))
                    &&& final(self)@ == area
                } else {
                    &&& r == Ok::<_, ReserveError>(
                        (
                            area.write_gen,
                            arithmetics::gen_add(area.write_gen, actual),
                            actual as usize,
                        ),
                    )
                    &&& final(self)@ == area.with_reserved(actual)
                }
            }),
    {
        let request = Request { capacity: self.buffer_capacity, n, best_effort: true };
        self.carry_out_reserve::<E>(request)
    }

    /// Publish slots in the range [start_generation, end_generation) for readers.
    /// This must be called with exactly the range returned by try_reserve_slots.
    pub fn publish_slots<E: Coordination>(
        &mut self,
        start_generation: NumericType,
        end_generation: NumericType,
    ) -> (r: Result<(), PublishError>)
        requires
            old(self).wf(),
        ensures
            final(self).wf(),
            r == old(self)@.publish_result(start_generation, end_generation, E::exclusive()),
            final(self)@ == old(self)@.published(start_generation, end_generation),
    {
        if steps::is_empty_range(start_generation, end_generation) {
            return Ok(());
        }
        if self.load_read_gen() != start_generation {
            if E::is_exclusive() {
                Err(PublishError::OutOfOrderPublishAttempt)
            } else {
                Err(PublishError::CasFailed)
            }
        } else {
            self.read_gen = end_generation;
            Ok(())
        }
    }

    /// Load the value of a reader slot.
    #[inline]
    pub fn load_gen(&self, index: usize) -> (g: NumericType)
        requires
            self.wf(),
            index < self@.gens.len(),
        ensures
            g == self@.gens[index as int],
    {
        *self.reader_gens.slot_at(index).value.get().unwrap()
    }

    /// Exchange the value of a reader slot.
    #[inline]
    pub fn exchange_gen(&mut self, index: usize, expected: NumericType, desired: NumericType) -> (
        event: Event)
        requires
            old(self).wf(),
            index < old(self)@.gens.len(),
        ensures
            final(self).wf(),
            event == tasks::exchange_event(old(self)@.gens[index as int], expected),
            final(self)@ == (if old(self)@.gens[index as int] == expected {
                AreaView { gens: old(self)@.gens.update(index as int, desired), ..old(self)@ }
            } else {
                old(self)@
            }),
    {
        let mut value = self.load_gen(index);
        let event = tasks::exchange(&mut value, expected, desired);
        self.store_gen(index, value);
        assert(old(self)@.gens.update(index as int, old(self)@.gens[index as int])
            =~= old(self)@.gens);
        event
    }

    #[inline]
    fn store_gen(&mut self, index: usize, g: NumericType)
        requires
            old(self).wf(),
            index < old(self)@.gens.len(),
        ensures
            final(self).wf(),
            final(self)@ == (AreaView {
                gens: old(self)@.gens.update(index as int, g),
                ..old(self)@
            }),
    {
        self.reader_gens.value_at(index).write(g);
        assert(self@.keys =~= old(self)@.keys);
        assert(self@.gens =~= old(self)@.gens.update(index as int, g));
    }

    /// Register a new reader, returning a unique reader ID.
    pub fn register_reader(&mut self) -> (r: Result<NumericType, RegisterError>)
        requires
            old(self).wf(),
        ensures
            final(self).wf(),
            exists|seed: NumericType| #[trigger]
                registers(old(self)@, seed, r, final(self)@),
    {
        // Generate a random reader ID
        let seed = random_seed();
        self.register_reader_with_seed(seed)
    }

    /// Register a new reader, with the provided reader ID seed. Note that the provided reader ID
    /// will be used to generate a unique reader ID, which is what will actually be used.
    pub fn register_reader_with_seed(&mut self, seed: NumericType) -> (r: Result<
        NumericType,
        RegisterError,
    >)
        requires
            old(self).wf(),
        ensures
            final(self).wf(),
            registers(old(self)@, seed, r, final(self)@),
    {
        let key = steps::plan_seed(seed);
        let capacity = self.reader_gens.capacity();

        // Use folded insertion to get a unique reader ID
        let (found, _is_new, _delta, reader_id_raw, index) = self.reader_gens.get_or_insert_concurrent(
            key,
            ZERO_OFFSET,
            capacity,
            true,
            true,
        );
        proof {
            old(self).lemma_shape();
        }
        if !found {
            proof {
                model::lemma_no_free_step(old(self)@.keys, key, 0);
            }
            return Err(RegisterError::ReaderCapacityReached);
        }
        proof {
            model::lemma_free_step(old(self)@.keys, key, 0, _delta as int);
        }
        // Strip the IN_PROGRESS bit to get the actual reader ID
        let reader_id = key_bits(reader_id_raw);

        // The value of the slot must not be overwritten here, as it may contain a forced update
        // from cleanup.
        self.reader_gens.finish_init_at(index);

        // Enter like a reader that resumes.
        let _ = self.carry_out_resume(index, None);
        proof {
            let entered = old(self)@.with_reader(reader_id, index as int);
            assert(self@.keys =~= entered.keys);
            assert(self@.gens =~= entered.gens);
        }
        Ok(reader_id)
    }

    /// The slot of a reader, if there is one with this id.
    #[inline]
    fn get_reader_slot(&self, reader_id: NumericType) -> (index: Option<usize>)
        requires
            self.wf(),
            valid_reader_id(reader_id),
        ensures
            match index {
                Some(i) => self@.registered(reader_id) && i == self@.reader_slot(reader_id) && i
                    < self@.gens.len(),
                None => !self@.registered(reader_id),
            },
    {
        let (found, _, _, index) = self.reader_gens.get(reader_id, ZERO_OFFSET, IMMEDIATE);
        proof {
            self.lemma_shape();
            let home = self@.reader_slot(reader_id);
            vstd::arithmetic::div_mod::lemma_small_mod(home as nat, self@.keys.len());
            let first = crate::map::probe_index(reader_id, ZERO_OFFSET, 0, self@.keys.len());
            assert(first == home);
        }
        if found {
            Some(index)
        } else {
            None
        }
    }

    /// Get the current generation number for a reader; also might include the suspended bit
    pub fn get_reader_gen(&self, reader_id: NumericType) -> (g: Option<NumericType>)
        requires
            self.wf(),
            valid_reader_id(reader_id),
        ensures
            g == (if self@.registered(reader_id) {
                Some(self@.reader_gen(reader_id))
            } else {
                None
            }),
    {
        match self.get_reader_slot(reader_id) {
            Some(index) => Some(self.load_gen(index)),
            None => None,
        }
    }

    /// Try to set the reader's generation number (for advancing); fails if the reader is suspended
    /// or if the new_generation is older or equal to the current generation (this is not allowed
    /// since the contract is that readers acknowledge any generations older than their current
    /// stated generation is not guaranteed to still exist) (the equal case also errors to save on
    /// an equality check).
    pub fn set_reader_gen(&mut self, reader_id: NumericType, new_generation: NumericType) -> (r:
        Result<(), SetGenError>)
        requires
            old(self).wf(),
            valid_reader_id(reader_id),
        ensures
            final(self).wf(),
            r == old(self)@.set_gen_result(reader_id, new_generation),
            final(self)@ == old(self)@.with_gen_set(reader_id, new_generation),
    {
        match self.get_reader_slot(reader_id) {
            Some(index) => match steps::plan_set_gen(self.load_gen(index), new_generation) {
                Ok(g) => {
                    // For simplicity, just do a simple store since the reader owns this
                    self.store_gen(index, g);
                    Ok(())
                },
                Err(err) => Err(err),
            },
            None => Err(SetGenError::ReaderNotFound),
        }
    }

    /// Mark a reader as suspended by setting the MSB on their generation number
    pub fn suspend_reader(&mut self, reader_id: NumericType) -> (r: Result<(), SuspendError>)
        requires
            old(self).wf(),
            valid_reader_id(reader_id),
        ensures
            final(self).wf(),
            r == old(self)@.suspend_result(reader_id),
            final(self)@ == old(self)@.with_suspended(reader_id),
    {
        match self.get_reader_slot(reader_id) {
            Some(index) => match steps::plan_suspend(self.load_gen(index)) {
                Ok(g) => {
                    self.store_gen(index, g);
                    Ok(())
                },
                Err(err) => Err(err),
            },
            None => Err(SuspendError::ReaderNotFound),
        }
    }

    /// Carry out the resuming of the reader at a slot.
    fn carry_out_resume(&mut self, index: usize, entry_generation: Option<NumericType>) -> (r: Result<
        bool,
        ResumeError,
    >)
        requires
            old(self).wf(),
            index < old(self)@.gens.len(),
        ensures
            final(self).wf(),
            match tasks::resume_next(
                entry_generation,
                ResumeTask::Start,
                Event::Loaded(old(self)@.gens[index as int]),
            ) {
                ResumeTask::Resuming { desired, .. } => {
                    &&& r == Ok::<_, ResumeError>(true)
                    &&& final(self)@ == (AreaView {
                        gens: old(self)@.gens.update(index as int, desired),
                        ..old(self)@
                    })
                },
                ResumeTask::Ended(result) => r == result && final(self)@ == old(self)@,
                ResumeTask::Start => false,
            },
    {
        let mut task = ResumeTask::Start.next(
            entry_generation,
            Event::Loaded(self.load_gen(index)),
        );
        if let ResumeTask::Resuming { expected, desired } = task {
            task = task.next(entry_generation, self.exchange_gen(index, expected, desired));
        }
        match task {
            ResumeTask::Ended(result) => result,
            _ => Ok(false),
        }
    }

    /// Resume a reader from suspended state at the current valid generation. Returns whether it
    /// was suspended.
    pub fn resume_reader(&mut self, reader_id: NumericType) -> (r: Result<bool, ResumeError>)
        requires
            old(self).wf(),
            valid_reader_id(reader_id),
        ensures
            final(self).wf(),
            r == old(self)@.resume_result(reader_id),
            final(self)@ == old(self)@.with_resumed(reader_id),
    {
        match self.get_reader_slot(reader_id) {
            Some(index) => self.carry_out_resume(index, None),
            None => Err(ResumeError::ReaderNotFound),
        }
    }

    /// Try to resume a reader from suspended state at a specific entry_generation. Returns whether
    /// it was suspended.
    /// Fails if entry_generation is older than the current forced minimum.
    pub fn resume_reader_at(
        &mut self,
        reader_id: NumericType,
        entry_generation: NumericType,
    ) -> (r: Result<bool, ResumeError>)
        requires
            old(self).wf(),
            valid_reader_id(reader_id),
        ensures
            final(self).wf(),
            r == old(self)@.resume_at_result(reader_id, entry_generation),
            final(self)@ == old(self)@.with_resumed_at(reader_id, entry_generation),
    {
        match self.get_reader_slot(reader_id) {
            Some(index) => self.carry_out_resume(index, Some(entry_generation)),
            None => Err(ResumeError::ReaderNotFound),
        }
    }

    /// Unregister a reader, removing their entry from the reader_gens map
    pub fn unregister_reader(&mut self, reader_id: NumericType) -> (r: Result<(), UnregisterError>)
        requires
            old(self).wf(),
            valid_reader_id(reader_id),
        ensures
            final(self).wf(),
            if old(self)@.registered(reader_id) {
                &&& r == Ok::<_, UnregisterError>(())
                &&& final(self)@ == old(self)@.without_reader(reader_id)
            } else {
                &&& r == Err::<(), _>(UnregisterError::ReaderNotFound)
                &&& final(self)@ == old(self)@
            },
    {
        // Suspend the reader first so that if the slot is reused or scanned by cleanup,
        // it holds a safe value.
        match self.suspend_reader(reader_id) {
            Ok(_) | Err(SuspendError::AlreadySuspended) => {},
            Err(SuspendError::ReaderNotFound) => return Err(UnregisterError::ReaderNotFound),
        }
        proof {
            self.lemma_shape();
            let home = self@.reader_slot(reader_id);
            vstd::arithmetic::div_mod::lemma_small_mod(home as nat, self@.keys.len());
            let first = crate::map::probe_index(reader_id, ZERO_OFFSET, 0, self@.keys.len());
            assert(first == home);
        }
        let ghost suspended = self@;
        let _removed = self.reader_gens.remove_concurrent(reader_id, ZERO_OFFSET, IMMEDIATE);
        proof {
            let left = old(self)@.without_reader(reader_id);
            assert(suspended.gens =~= left.gens);
            assert(_removed);
            assert(self@.keys =~= left.keys);
            assert(self@.gens =~= left.gens);
        }
        Ok(())
    }

    /// Exchange the last valid generation. With `E = Exclusive` nobody else can have changed it, so
    /// it is stored.
    #[inline]
    pub fn exchange_last_valid_gen<E: Coordination>(
        &mut self,
        expected: NumericType,
        desired: NumericType,
    ) -> (event: Event)
        requires
            old(self).wf(),
            E::exclusive() ==> old(self)@.last_valid_gen == expected,
        ensures
            final(self).wf(),
            event == tasks::exchange_event(old(self)@.last_valid_gen, expected),
            final(self)@ == (if old(self)@.last_valid_gen == expected {
                AreaView { last_valid_gen: desired, ..old(self)@ }
            } else {
                old(self)@
            }),
    {
        if E::is_exclusive() {
            self.last_valid_gen = desired;
            Event::Exchanged
        } else {
            tasks::exchange(&mut self.last_valid_gen, expected, desired)
        }
    }

    /// Exchange the free generation. With `E = Exclusive` nobody else can have changed it, so it is
    /// stored.
    #[inline]
    pub fn exchange_free_gen<E: Coordination>(
        &mut self,
        expected: NumericType,
        desired: NumericType,
    ) -> (event: Event)
        requires
            old(self).wf(),
            E::exclusive() ==> old(self)@.free_gen == expected,
        ensures
            final(self).wf(),
            event == tasks::exchange_event(old(self)@.free_gen, expected),
            final(self)@ == (if old(self)@.free_gen == expected {
                AreaView { free_gen: desired, ..old(self)@ }
            } else {
                old(self)@
            }),
    {
        if E::is_exclusive() {
            self.free_gen = desired;
            Event::Exchanged
        } else {
            tasks::exchange(&mut self.free_gen, expected, desired)
        }
    }

    /// Drop the message of a generation.
    #[inline]
    pub fn drop_message(&mut self, generation: NumericType)
        requires
            old(self).wf(),
        ensures
            final(self).wf(),
            final(self)@ == old(self)@.with_message(generation, None),
    {
        self.get_slot_ptr_mut(generation).drop_value();
    }

    /// Where a cleanup of an area that was `before` is, and what it has done so far, if nobody else
    /// does anything.
    spec fn is_cleaning(&self, before: AreaView<T>, task: CleanupTask) -> bool {
        let n = before.gens.len();
        match task {
            CleanupTask::Start => self@ == before,
            CleanupTask::SawLast { last_valid } => self@ == before && last_valid
                == before.last_valid_gen,
            CleanupTask::AtSlot { last_valid, min_held, index } => {
                &&& index < n
                &&& !before.all_clean()
                &&& last_valid == before.last_valid_gen
                &&& min_held == model::min_held(before.gens, before.read_gen, index as nat)
                &&& self@ == before.with_swept(index as nat)
            },
            CleanupTask::Forcing { last_valid, min_held, index, seen } => {
                &&& index < n
                &&& !before.all_clean()
                &&& last_valid == before.last_valid_gen
                &&& min_held == model::min_held(before.gens, before.read_gen, index as nat)
                &&& self@ == before.with_swept(index as nat)
                &&& seen == before.gens[index as int]
                &&& steps::sweep_plan(min_held, seen) is Force
            },
            CleanupTask::Claiming { last_valid, min_held } => {
                &&& !before.all_clean()
                &&& !arithmetics::gen_gte(last_valid, min_held)
                &&& last_valid == before.last_valid_gen
                &&& min_held == before.held()
                &&& self@ == before.with_swept(n)
            },
            CleanupTask::Dropping { last_valid, min_held, done } => {
                &&& !before.all_clean()
                &&& !arithmetics::gen_gte(last_valid, min_held)
                &&& last_valid == before.last_valid_gen
                &&& min_held == before.held()
                &&& done < arithmetics::gen_dist(min_held, last_valid)
                &&& self@ == (AreaView {
                    last_valid_gen: min_held,
                    ..before.with_swept(n).with_emptied(last_valid, done as int)
                })
            },
            CleanupTask::Freeing { last_valid, min_held } => {
                &&& !before.all_clean()
                &&& !arithmetics::gen_gte(last_valid, min_held)
                &&& last_valid == before.last_valid_gen
                &&& min_held == before.held()
                &&& self@ == (AreaView {
                    last_valid_gen: min_held,
                    ..before.with_swept(n).with_emptied(
                        last_valid,
                        arithmetics::gen_dist(min_held, last_valid),
                    )
                })
            },
            CleanupTask::Ended(result) => result == before.cleanup_result() && self@
                == before.cleaned(),
        }
    }

    /// Try to cleanup old slots by advancing last_valid_gen.
    /// This scans ALL reader generation slots (including empty ones), force-advances suspended
    /// readers, and attempts to update last_valid_gen.
    pub fn try_cleanup_old_slots<E: Coordination>(&mut self) -> (r: Result<
        CleanupResult,
        CleanupError,
    >)
        requires
            old(self).wf(),
            old(self)@.cleanup_ends(),
        ensures
            final(self).wf(),
            r == old(self)@.cleanup_result(),
            final(self)@ == old(self)@.cleaned(),
    {
        proof {
            self.lemma_shape();
        }
        let ghost before = self@;
        let slots: usize = self.reader_gens.capacity();
        let mut task = CleanupTask::Start;
        loop
            invariant
                self.wf(),
                slots == before.gens.len(),
                before.gens.len() == self@.gens.len(),
                before.cleanup_ends(),
                before == old(self)@,
                task.wf(slots),
                self.is_cleaning(before, task),
            decreases tasks::cleanup_rank(task, slots),
        {
            task = match task {
                CleanupTask::Start => {
                    task.next(slots, Event::Loaded(self.load_last_valid_gen()))
                },
                CleanupTask::SawLast { .. } => {
                    proof {
                        before.lemma_swept_none();
                    }
                    task.next(slots, Event::Loaded(self.load_read_gen()))
                },
                CleanupTask::AtSlot { index, .. } => {
                    proof {
                        before.lemma_swept_one_more(index as nat);
                    }
                    task.next(slots, Event::Loaded(self.load_gen(index)))
                },
                CleanupTask::Forcing { min_held, index, seen, .. } => {
                    proof {
                        before.lemma_swept_one_more(index as nat);
                    }
                    task.next(
                        slots,
                        self.exchange_gen(index, seen, gen_with_suspended_bit(min_held)),
                    )
                },
                CleanupTask::Claiming { last_valid, min_held } => {
                    proof {
                        before.with_swept(before.gens.len()).lemma_emptied_none(last_valid);
                    }
                    task.next(
                        slots,
                        self.exchange_last_valid_gen::<E>(last_valid, min_held),
                    )
                },
                CleanupTask::Dropping { last_valid, done, .. } => {
                    proof {
                        self.lemma_shape();
                        before.with_swept(before.gens.len()).lemma_emptied_one_more(
                            last_valid,
                            done as int,
                        );
                    }
                    self.drop_message(gen_add_msb_masked(last_valid, done));
                    task.next(slots, Event::Done)
                },
                CleanupTask::Freeing { last_valid, min_held } => {
                    task.next(slots, self.exchange_free_gen::<E>(last_valid, min_held))
                },
                CleanupTask::Ended(result) => {
                    return result;
                },
            };
        }
    }

    /// Check if there are any readers in the map
    pub fn has_readers(&self) -> (r: bool)
        requires
            self.wf(),
        ensures
            r == self@.has_readers(),
    {
        let slots = self.reader_gens.raw_slots();
        let mut i: usize = 0;
        while i < slots.len()
            invariant
                slots@ == self.reader_gens@,
                i <= slots@.len(),
                forall|j: int| 0 <= j < i ==> #[trigger] self@.keys[j] == crate::map::EMPTY,
            decreases slots@.len() - i,
        {
            if slots[i].key != crate::map::EMPTY {
                assert(self@.keys[i as int] != crate::map::EMPTY);
                return true;
            }
            i += 1;
        }
        false
    }

    /// Set the number of active writers.
    #[inline]
    pub(crate) fn store_writers_count(&mut self, n: usize)
        requires
            old(self).wf(),
        ensures
            final(self).wf(),
            final(self)@ == (AreaView { writers_count: n, ..old(self)@ }),
    {
        self.writers_count = n;
    }

    /// Take one off the destroy stages. Returns what they were.
    #[inline]
    fn leave_stage(&mut self) -> (prev_stages: usize)
        requires
            old(self).wf(),
        ensures
            final(self).wf(),
            prev_stages == old(self)@.destroy_stages,
            final(self)@ == (AreaView {
                destroy_stages: old(self)@.destroy_stages.wrapping_sub(1),
                ..old(self)@
            }),
    {
        let prev_stages = *self.destroy_stages.as_ref();
        *self.destroy_stages.as_mut() = prev_stages.wrapping_sub(1);
        assert(self@ =~= (AreaView {
            destroy_stages: prev_stages.wrapping_sub(1),
            ..old(self)@
        }));
        prev_stages
    }

    /// Set the number of readers that are about to leave.
    #[inline]
    fn store_keep_alloc_tickets(&mut self, tickets: usize)
        requires
            old(self).wf(),
        ensures
            final(self).wf(),
            final(self)@ == (AreaView { reader_keep_alloc_tickets: tickets, ..old(self)@ }),
    {
        *self.reader_keep_alloc_tickets.as_mut() = tickets;
        assert(self@ =~= (AreaView { reader_keep_alloc_tickets: tickets, ..old(self)@ }));
    }

    /// Set the number of readers that compete for leaving last.
    #[inline]
    fn store_stage_tickets(&mut self, tickets: usize)
        requires
            old(self).wf(),
        ensures
            final(self).wf(),
            final(self)@ == (AreaView { reader_stage_tickets: tickets, ..old(self)@ }),
    {
        *self.reader_stage_tickets.as_mut() = tickets;
        assert(self@ =~= (AreaView { reader_stage_tickets: tickets, ..old(self)@ }));
    }

    /// A writer enters.
    pub fn enter_writer(&mut self)
        requires
            old(self).wf(),
        ensures
            final(self).wf(),
            final(self)@ == old(self)@.with_writer(),
    {
        self.store_writers_count(self.writers_count.wrapping_add(1));
    }

    /// A writer leaves. Returns whether it was the last one there of all, so that the area can be
    /// deallocated.
    pub fn leave_writer(&mut self) -> (last: bool)
        requires
            old(self).wf(),
            old(self)@.writer_can_leave(),
        ensures
            final(self).wf(),
            final(self)@ == old(self)@.with_writer_gone(),
            last == old(self)@.ends_with_writer(),
    {
        let prev_count = self.writers_count;
        self.store_writers_count(prev_count.wrapping_sub(1));
        let mut task = LeaveTask::LeavingWriters.next(0, Event::Loaded(prev_count as NumericType));
        if let LeaveTask::Staging = task {
            task = task.next(0, Event::Loaded(self.leave_stage() as NumericType));
        }
        if let LeaveTask::Ended { last: true } = task {
            // Drop all remaining items in the buffer
            let _ = self.try_cleanup_old_slots::<Exclusive>();
            return true;
        }
        false
    }

    /// Where a reader that leaves an area that was `before` is, and what it has done so far, if
    /// nobody else does anything.
    spec fn is_leaving(&self, before: AreaView<T>, reader_id: NumericType, task: LeaveTask) -> bool {
        let left = before.with_reader_unregistered(reader_id);
        let leaving = before.reader_keep_alloc_tickets.wrapping_add(1);
        let applied = before.reader_stage_tickets.wrapping_add(1);
        match task {
            LeaveTask::Entering => self@ == before,
            LeaveTask::Unregistering => self@ == (AreaView {
                reader_keep_alloc_tickets: leaving,
                ..before
            }),
            LeaveTask::LookingAround { index } => {
                &&& self@ == (AreaView { reader_keep_alloc_tickets: leaving, ..left })
                &&& forall|j: int| 0 <= j < index ==> #[trigger] left.keys[j] == crate::map::EMPTY
            },
            LeaveTask::Applying => {
                &&& self@ == (AreaView { reader_keep_alloc_tickets: leaving, ..left })
                &&& !left.has_readers()
            },
            LeaveTask::Releasing { competing } => {
                &&& self@ == (AreaView {
                    reader_keep_alloc_tickets: leaving,
                    reader_stage_tickets: if competing {
                        applied
                    } else {
                        before.reader_stage_tickets
                    },
                    ..left
                })
                &&& competing == !left.has_readers()
            },
            LeaveTask::Waiting => {
                &&& self@ == (AreaView { reader_stage_tickets: applied, ..left })
                &&& !left.has_readers()
            },
            LeaveTask::Competing => {
                &&& self@ == (AreaView { reader_stage_tickets: applied, ..left })
                &&& !left.has_readers()
            },
            LeaveTask::Staging => self@ == left && before.reader_takes_stage(reader_id),
            LeaveTask::Ended { last } => {
                &&& last == before.ends_with_reader(reader_id)
                &&& self@ == (if before.reader_takes_stage(reader_id) {
                    AreaView { destroy_stages: left.destroy_stages.wrapping_sub(1), ..left }
                } else {
                    left
                })
            },
            LeaveTask::LeavingWriters => false,
        }
    }

    /// A reader leaves. Returns whether it was the last one there of all, so that the area can be
    /// deallocated.
    pub fn leave_reader(&mut self, reader_id: NumericType) -> (last: bool)
        requires
            old(self).wf(),
            valid_reader_id(reader_id),
            old(self)@.reader_can_leave(reader_id),
        ensures
            final(self).wf(),
            final(self)@ == old(self)@.with_reader_gone(reader_id),
            last == old(self)@.ends_with_reader(reader_id),
    {
        proof {
            self.lemma_shape();
        }
        let ghost before = self@;
        let ghost left = before.with_reader_unregistered(reader_id);
        let slots: usize = self.reader_gens.capacity();
        let mut task = LeaveTask::Entering;
        loop
            invariant
                self.wf(),
                before == old(self)@,
                left == before.with_reader_unregistered(reader_id),
                valid_reader_id(reader_id),
                before.reader_can_leave(reader_id),
                slots == self@.keys.len(),
                slots == left.keys.len(),
                task.wf(slots),
                self.is_leaving(before, reader_id, task),
            decreases tasks::leave_rank(task, slots),
        {
            task = match task {
                LeaveTask::Entering => {
                    let tickets = *self.reader_keep_alloc_tickets.as_ref();
                    self.store_keep_alloc_tickets(tickets.wrapping_add(1));
                    task.next(slots, Event::Done)
                },
                LeaveTask::Unregistering => {
                    let _ = self.unregister_reader(reader_id);
                    assert(self@ =~= (AreaView {
                        reader_keep_alloc_tickets: before.reader_keep_alloc_tickets.wrapping_add(1),
                        ..left
                    }));
                    task.next(slots, Event::Done)
                },
                LeaveTask::LookingAround { index } => {
                    let key = self.reader_gens.slot_at(index).key;
                    assert(key == left.keys[index as int]);
                    task.next(slots, Event::Loaded(key))
                },
                LeaveTask::Applying => {
                    let tickets = *self.reader_stage_tickets.as_ref();
                    self.store_stage_tickets(tickets.wrapping_add(1));
                    task.next(slots, Event::Done)
                },
                LeaveTask::Releasing { .. } => {
                    let tickets = *self.reader_keep_alloc_tickets.as_ref();
                    self.store_keep_alloc_tickets(tickets.wrapping_sub(1));
                    assert(left.reader_keep_alloc_tickets == before.reader_keep_alloc_tickets);
                    task.next(slots, Event::Done)
                },
                LeaveTask::Waiting => {
                    let tickets = *self.reader_keep_alloc_tickets.as_ref();
                    task.next(slots, Event::Loaded(tickets as NumericType))
                },
                LeaveTask::Competing => {
                    let prev_stage = *self.reader_stage_tickets.as_ref();
                    self.store_stage_tickets(prev_stage.wrapping_sub(1));
                    assert(self@ =~= left);
                    task.next(slots, Event::Loaded(prev_stage as NumericType))
                },
                LeaveTask::Staging => {
                    let prev_stages = self.leave_stage();
                    task.next(slots, Event::Loaded(prev_stages as NumericType))
                },
                LeaveTask::LeavingWriters | LeaveTask::Ended { last: false } => {
                    return false;
                },
                LeaveTask::Ended { last: true } => {
                    // Drop all remaining items in the buffer
                    let _ = self.try_cleanup_old_slots::<Exclusive>();
                    return true;
                },
            };
        }
    }

    /// Give the memory of the area back. Messages that are still in it are not dropped.
    pub fn deallocate(self) {
        self.reader_gens.deallocate();
        self.destroy_stages.deallocate();
        self.reader_keep_alloc_tickets.deallocate();
        self.reader_stage_tickets.deallocate();
        self.buffer.deallocate();
    }
}

} // verus!
