//! The memory that the data structures of this crate live in.
//!
//! The structures are generic over their memory, so that they can be kept on the heap as well as
//! in memory that was set aside before the program started.
use vstd::prelude::*;

verus! {

/// A fixed memory region that outlives the data structure using it.
pub trait FixedStorage<T>: Sized {
    /// What the region holds.
    spec fn items(&self) -> Seq<T>;

    /// Get a reference to the (first) item of the storage.
    fn as_ref(&self) -> (item: &T)
        requires
            self.items().len() > 0,
        ensures
            *item == self.items()[0],
    ;

    /// Get a mutable reference to the (first) item of the storage.
    fn as_mut(&mut self) -> (item: &mut T)
        requires
            old(self).items().len() > 0,
        ensures
            *item == old(self).items()[0],
            final(self).items() == old(self).items().update(0, *final(item)),
    ;

    /// Give the storage up. Heap memory is returned, and the items in it are dropped; memory from
    /// elsewhere is left as it is.
    fn deallocate(self);
}

/// A fixed memory region for a number of items.
pub trait FixedStorageMultiple<T>: FixedStorage<T> {
    /// Get the number of elements this storage can hold.
    fn capacity(&self) -> (n: usize)
        ensures
            n == self.items().len(),
    ;

    /// Get a slice view of the storage.
    fn slice(&self) -> (items: &[T])
        ensures
            items@ == self.items(),
    ;

    /// Get a mutable slice view of the storage.
    fn slice_mut(&mut self) -> (items: &mut [T])
        ensures
            items@ == old(self).items(),
            final(self).items() == final(items)@,
    ;
}

/// Storage backed by a `Box<T>`.
pub struct BoxedStorage<T> {
    boxed: Box<T>,
}

impl<T> BoxedStorage<T> {
    /// Create storage by allocating a new T on the heap.
    #[inline]
    pub fn new(value: T) -> (storage: Self)
        ensures
            storage.items() == seq![value],
    {
        Self::from_boxed(Box::new(value))
    }

    /// Create storage from a boxed T.
    #[inline]
    pub fn from_boxed(boxed: Box<T>) -> (storage: Self)
        ensures
            storage.items() == seq![*boxed],
    {
        BoxedStorage { boxed }
    }
}

impl<T> FixedStorage<T> for BoxedStorage<T> {
    closed spec fn items(&self) -> Seq<T> {
        seq![*self.boxed]
    }

    fn as_ref(&self) -> (item: &T) {
        &*self.boxed
    }

    fn as_mut(&mut self) -> (item: &mut T) {
        proof {
            assert forall|v: T| seq![*self.boxed].update(0, v) == #[trigger] seq![v] by {
                assert(seq![*self.boxed].update(0, v) =~= seq![v]);
            }
        }
        &mut *self.boxed
    }

    fn deallocate(self) {
    }
}

/// Storage backed by heap memory for a number of items.
pub struct BoxedSliceStorage<T> {
    boxed: Vec<T>,
}

impl<T> BoxedSliceStorage<T> {
    /// Create storage from a boxed slice.
    pub fn from_boxed_slice(boxed: Box<[T]>) -> (storage: Self)
        ensures
            storage.items() == boxed@,
    {
        Self::from_vec(boxed.into_vec())
    }

    /// Create storage from the items themselves.
    pub fn from_vec(items: Vec<T>) -> (storage: Self)
        ensures
            storage.items() == items@,
    {
        BoxedSliceStorage { boxed: items }
    }

    /// Create storage with capacity, initializing each element.
    pub fn with_capacity_and_init<F>(capacity: usize, mut init: F) -> (storage: Self)
        where F: FnMut() -> T
        requires
            init.requires(()),
        ensures
            storage.items().len() == capacity,
            forall|i: int| 0 <= i < capacity ==> init.ensures((), #[trigger] storage.items()[i]),
    {
        let mut v: Vec<T> = Vec::with_capacity(capacity);
        let ghost given = init;
        let mut i: usize = 0;
        while i < capacity
            invariant
                init == given,
                i <= capacity,
                v@.len() == i,
                init.requires(()),
                forall|j: int| 0 <= j < i ==> init.ensures((), #[trigger] v@[j]),
            decreases capacity - i,
        {
            v.push(init());
            i += 1;
        }
        Self::from_vec(v)
    }
}

impl<T> FixedStorage<T> for BoxedSliceStorage<T> {
    closed spec fn items(&self) -> Seq<T> {
        self.boxed@
    }

    fn as_ref(&self) -> (item: &T) {
        &self.boxed[0]
    }

    fn as_mut(&mut self) -> (item: &mut T) {
        &mut self.boxed[0]
    }

    fn deallocate(self) {
    }
}

impl<T> FixedStorageMultiple<T> for BoxedSliceStorage<T> {
    fn capacity(&self) -> (n: usize) {
        self.boxed.len()
    }

    fn slice(&self) -> (items: &[T]) {
        self.boxed.as_slice()
    }

    fn slice_mut(&mut self) -> (items: &mut [T]) {
        self.boxed.as_mut_slice()
    }
}

/// Storage backed by a static or externally-managed allocation.
/// Does NOT deallocate on drop.
pub struct StaticStorage<T: 'static> {
    place: &'static mut T,
}

impl<T> StaticStorage<T> {
    /// Wrap an externally-managed place.
    pub fn from_raw(place: &'static mut T) -> (storage: Self)
        ensures
            storage.items() == seq![*old(place)],
    {
        StaticStorage { place }
    }
}

impl<T> FixedStorage<T> for StaticStorage<T> {
    closed spec fn items(&self) -> Seq<T> {
        seq![*self.place]
    }

    fn as_ref(&self) -> (item: &T) {
        &*self.place
    }

    fn as_mut(&mut self) -> (item: &mut T) {
        proof {
            assert forall|v: T| seq![*self.place].update(0, v) == #[trigger] seq![v] by {
                assert(seq![*self.place].update(0, v) =~= seq![v]);
            }
        }
        &mut *self.place
    }

    fn deallocate(self) {
        // No-op: static/external memory is not our responsibility to free
    }
}

/// Storage backed by a static or externally-managed slice.
/// Does NOT deallocate on drop.
pub struct StaticSliceStorage<T: 'static> {
    places: &'static mut [T],
}

impl<T> StaticSliceStorage<T> {
    /// Wrap a static mutable slice.
    pub fn from_static(slice: &'static mut [T]) -> (storage: Self)
        ensures
            storage.items() == old(slice)@,
    {
        StaticSliceStorage { places: slice }
    }

    /// Wrap the first `capacity` places of an externally-managed slice.
    pub fn from_raw(slice: &'static mut [T], capacity: usize) -> (storage: Self)
        requires
            capacity <= old(slice)@.len(),
        ensures
            storage.items() == old(slice)@.subrange(0, capacity as int),
    {
        let (places, _rest) = slice.split_at_mut(capacity);
        StaticSliceStorage { places }
    }
}

impl<T> FixedStorage<T> for StaticSliceStorage<T> {
    closed spec fn items(&self) -> Seq<T> {
        self.places@
    }

    fn as_ref(&self) -> (item: &T) {
        &self.places[0]
    }

    fn as_mut(&mut self) -> (item: &mut T) {
        &mut self.places[0]
    }

    fn deallocate(self) {
        // No-op: static/external memory is not our responsibility to free
    }
}

impl<T> FixedStorageMultiple<T> for StaticSliceStorage<T> {
    fn capacity(&self) -> (n: usize) {
        self.places.len()
    }

    fn slice(&self) -> (items: &[T]) {
        &*self.places
    }

    fn slice_mut(&mut self) -> (items: &mut [T]) {
        &mut *self.places
    }
}

} // verus!
