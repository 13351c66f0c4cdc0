//! A fixed-size map with linear probing whose values can be reached by slot index.
//!
//! The map is made for entries whose key may be chosen by the map: a *folded* insertion stores
//! the entry under a key that leads straight to the slot that was found, so that it can be looked
//! up later without probing.
use crate::bits;
use crate::place::Place;
use crate::storage::{BoxedSliceStorage, FixedStorage, FixedStorageMultiple};
use crate::tasks::{self, Event, Search, SearchTask};
use core::marker::PhantomData;
use vstd::arithmetic::power2::*;
use vstd::prelude::*;

verus! {

/// The key of a slot that is not taken.
pub const EMPTY: u64 = 0;

/// Set in the key of a slot from when it is claimed until its value is initialized.
pub const IN_PROGRESS: u64 = 0x8000_0000_0000_0000;

/// Use for `placement_offset`.
pub const ZERO_OFFSET: usize = 0;

/// Use for `n`. For just grabbing whatever is at the key's index without further
/// probing/searching.
pub const IMMEDIATE: usize = 1;

/// Use for `n`. For searching the entire table.
pub const MAX: usize = usize::MAX;

/// The key without its flag.
pub open spec fn logical_key(k: u64) -> u64 {
    (k % IN_PROGRESS) as u64
}

/// The key with its flag set.
pub open spec fn flagged_key(k: u64) -> u64 {
    (k % IN_PROGRESS + IN_PROGRESS) as u64
}

/// The slot at which the search for a key begins.
pub open spec fn home_index(key: u64, placement_offset: usize, capacity: nat) -> int {
    ((key as usize) + placement_offset) % capacity as int
}

/// The slot that the search looks at in its `i`-th step.
pub open spec fn probe_index(key: u64, placement_offset: usize, i: int, capacity: nat) -> int {
    (home_index(key, placement_offset, capacity) + i) % capacity as int
}

/// The number of slots that a search with the given limit looks at.
pub open spec fn probe_limit(n: usize, capacity: nat) -> nat {
    if n == MAX {
        capacity
    } else {
        n as nat
    }
}

/// A search that may insert ends at a free slot; one that does not fold ends at the key itself.
pub open spec fn ends_probe(key: u64, k: u64, insert: bool, fold: bool) -> bool {
    (insert && k == EMPTY) || (!fold && logical_key(k) == key)
}

/// The key under which a free slot that is reached after `i` steps is claimed.
pub open spec fn claimed_key(
    key: u64,
    placement_offset: usize,
    i: int,
    capacity: nat,
    fold: bool,
) -> u64 {
    if !fold {
        flagged_key(key)
    } else {
        let folded = (key + placement_offset + i) % (IN_PROGRESS as int);
        if folded == 0 {
            flagged_key((capacity % (IN_PROGRESS as nat)) as u64)
        } else {
            flagged_key(folded as u64)
        }
    }
}

proof fn lemma_key_flag(k: u64)
    ensures
        k & !IN_PROGRESS == logical_key(k),
        k | IN_PROGRESS == flagged_key(k),
        (k & IN_PROGRESS != 0) <==> k >= IN_PROGRESS,
{
    assert(k & !0x8000_0000_0000_0000u64 == k % 0x8000_0000_0000_0000) by (bit_vector);
    assert(k | 0x8000_0000_0000_0000u64 == (k % 0x8000_0000_0000_0000) + 0x8000_0000_0000_0000)
        by (bit_vector);
    assert((k & 0x8000_0000_0000_0000u64 != 0) <==> k >= 0x8000_0000_0000_0000) by (bit_vector);
}

/// A sum that wraps keeps its bits below the flag.
#[inline]
fn wrapping_sum(a: u64, b: u64) -> (sum: u64)
    ensures
        logical_key(sum) == (a + b) % (IN_PROGRESS as int),
{
    a.wrapping_add(b)
}

/// A key has no bits below the flag only if it is zero or the flag itself.
proof fn lemma_no_bits_below_flag(k: u64)
    ensures
        logical_key(k) == 0 <==> k == 0 || k == IN_PROGRESS,
{
}

/// Setting the flag depends only on the bits below it.
proof fn lemma_flag_of_bits(k: u64)
    ensures
        flagged_key(logical_key(k)) == flagged_key(k),
{
}

/// The bits below the flag of a sum depend only on those of its parts.
proof fn lemma_sum_of_remainders(a: int, b: int, n: int)
    requires
        a % (IN_PROGRESS as int) == b % (IN_PROGRESS as int),
    ensures
        (a + n) % (IN_PROGRESS as int) == (b + n) % (IN_PROGRESS as int),
{
}

/// The search looks at slots that there are.
pub(crate) proof fn lemma_probe_in_range(key: u64, placement_offset: usize, i: int, capacity: nat)
    requires
        capacity > 0,
    ensures
        0 <= probe_index(key, placement_offset, i, capacity) < capacity,
{
    vstd::arithmetic::div_mod::lemma_mod_bound(
        home_index(key, placement_offset, capacity) + i,
        capacity as int,
    );
}

/// The search goes from each slot to the next one.
pub(crate) proof fn lemma_probe_advances(key: u64, placement_offset: usize, i: int, capacity: nat)
    requires
        capacity > 0,
    ensures
        probe_index(key, placement_offset, i + 1, capacity) == (probe_index(
            key,
            placement_offset,
            i,
            capacity,
        ) + 1) % capacity as int,
{
    let home = home_index(key, placement_offset, capacity);
    vstd::arithmetic::div_mod::lemma_add_mod_noop_right(1, home + i, capacity as int);
}

/// Extract the logical key bits of a key.
#[inline]
pub fn key_bits(k: u64) -> (bits: u64)
    ensures
        bits == logical_key(k),
{
    proof {
        lemma_key_flag(k);
    }
    k & !IN_PROGRESS
}

/// Check if the IN_PROGRESS bit is set (also returns false if key is EMPTY).
#[inline]
pub fn is_in_progress(k: u64) -> (r: bool)
    ensures
        r == (k >= IN_PROGRESS),
{
    proof {
        lemma_key_flag(k);
    }
    (k & IN_PROGRESS) != 0 && k != EMPTY
}

/// The search for a key ends at slot number `i` of those that it looks at, and not before.
pub open spec fn first_end<V>(
    slots: Seq<Slot<V>>,
    key: u64,
    placement_offset: usize,
    insert: bool,
    fold: bool,
    i: int,
) -> bool {
    &&& ends_probe(
        key,
        slots[probe_index(key, placement_offset, i, slots.len())].key,
        insert,
        fold,
    )
    &&& never_ends(slots, key, placement_offset, insert, fold, i)
}

/// The search for a key does not end at any of the first `n` slots that it looks at.
pub open spec fn never_ends<V>(
    slots: Seq<Slot<V>>,
    key: u64,
    placement_offset: usize,
    insert: bool,
    fold: bool,
    n: int,
) -> bool {
    forall|j: int|
        0 <= j < n ==> !ends_probe(
            key,
            slots[#[trigger] probe_index(key, placement_offset, j, slots.len())].key,
            insert,
            fold,
        )
}

/// The taken slots among the first `n`, each with its key.
pub open spec fn taken_slots<V>(slots: Seq<Slot<V>>, n: nat) -> Seq<(usize, u64)>
    decreases n,
{
    if n == 0 {
        Seq::empty()
    } else {
        let before = taken_slots(slots, (n - 1) as nat);
        if slots[n - 1].key == EMPTY {
            before
        } else {
            before.push(((n - 1) as usize, slots[n - 1].key))
        }
    }
}

/// What a search does at a slot.
#[derive(Debug, Clone, Copy, PartialEq, Eq)]
pub enum Probe {
    /// The slot is free: try to claim it under this key.
    Claim(u64),
    /// The slot holds the key that is searched for.
    Found,
    /// Go on with the next slot.
    Next,
}

/// The key under which a free slot that is reached after `i` steps is to be claimed.
///
/// With `fold`, this is a key of its own for each slot, made by folding in the number of steps.
/// This is only valid if the caller does not require the key to be exactly the one provided.
#[verifier::spinoff_prover]
pub fn claim_key(key: u64, placement_offset: usize, i: usize, capacity: usize, fold: bool) -> (k: u64)
    requires
        key < IN_PROGRESS,
    ensures
        k == claimed_key(key, placement_offset, i as int, capacity as nat, fold),
{
    if !fold {
        proof {
            lemma_key_flag(key);
        }
        key | IN_PROGRESS
    } else {
        let placed = wrapping_sum(key, placement_offset as u64);
        let mut folded = wrapping_sum(placed, i as u64);
        proof {
            lemma_sum_of_remainders(placed as int, key + placement_offset, i as int);
            lemma_no_bits_below_flag(folded);
        }
        if folded == 0 || folded == IN_PROGRESS {
            proof {
                lemma_sum_of_remainders(folded as int, 0, capacity as int);
            }
            folded = wrapping_sum(folded, capacity as u64);
        }
        proof {
            lemma_key_flag(folded);
            lemma_flag_of_bits(folded);
        }
        folded | IN_PROGRESS
    }
}

/// Decide what a search for `key` does at a slot whose key is `k` and which is reached after `i`
/// steps.
pub fn probe_slot(
    key: u64,
    placement_offset: usize,
    i: usize,
    capacity: usize,
    k: u64,
    insert: bool,
    fold: bool,
) -> (probe: Probe)
    requires
        key < IN_PROGRESS,
    ensures
        probe == (if insert && k == EMPTY {
            Probe::Claim(claimed_key(key, placement_offset, i as int, capacity as nat, fold))
        } else if !fold && logical_key(k) == key {
            Probe::Found
        } else {
            Probe::Next
        }),
{
    if insert && k == EMPTY {
        Probe::Claim(claim_key(key, placement_offset, i, capacity, fold))
    } else if !fold && key_bits(k) == key {
        Probe::Found
    } else {
        Probe::Next
    }
}

/// Decide whether a search for `key` ends at a slot that it tried to claim and that was taken
/// under the key `actual` in the meantime. With `fold` it goes on in any case, as folding does not
/// provide get-or-insert semantics by design.
pub fn ends_at_lost_claim(key: u64, actual: u64, fold: bool) -> (r: bool)
    ensures
        r == (!fold && actual != EMPTY && logical_key(actual) == key),
{
    !fold && actual != EMPTY && key_bits(actual) == key
}

/// A place in the map.
pub struct Slot<V> {
    /// 0 = empty, else key (+optional IN_PROGRESS bit)
    pub key: u64,
    /// Not initialized before the slot is taken for the first time, unless the map was made with
    /// values
    pub value: Place<V>,
}

impl<V> Slot<V> {
    /// A slot that is not taken and whose value is not initialized.
    pub fn new() -> (slot: Self)
        ensures
            slot.key == EMPTY,
            slot.value@ is None,
    {
        Slot { key: EMPTY, value: Place::uninit() }
    }

    #[inline]
    fn load_key(&self) -> (k: u64)
        ensures
            k == self.key,
    {
        self.key
    }
}

/// A map of a fixed number of slots. Its view is the sequence of its slots.
pub struct SimpleLPHashMap<V, S> where S: FixedStorageMultiple<Slot<V>> {
    mask: usize,
    slots: S,
    phantom: PhantomData<V>,
}

impl<V, S> View for SimpleLPHashMap<V, S> where S: FixedStorageMultiple<Slot<V>> {
    type V = Seq<Slot<V>>;

    closed spec fn view(&self) -> Seq<Slot<V>> {
        self.slots.items()
    }
}

impl<V, S> SimpleLPHashMap<V, S> where S: FixedStorageMultiple<Slot<V>> {
    /// The number of slots is a power of two that the mask belongs to.
    pub closed spec fn wf(&self) -> bool {
        &&& is_pow2(self.slots.items().len() as int)
        &&& self.slots.items().len() <= usize::MAX
        &&& self.mask + 1 == self.slots.items().len()
    }

    /// The number of slots of a map is a power of two.
    pub proof fn lemma_capacity(&self)
        requires
            self.wf(),
        ensures
            is_pow2(self@.len() as int),
            0 < self@.len() <= usize::MAX,
    {
    }

    /// Create from pre-existing storage.
    ///
    /// The capacity must be a power of two.
    pub fn from_storage(storage: S) -> (map: Self)
        requires
            is_pow2(storage.items().len() as int),
        ensures
            map.wf(),
            map@ == storage.items(),
    {
        let capacity = storage.capacity();
        proof {
            bits::lemma_power_divides(capacity);
        }
        SimpleLPHashMap { mask: capacity - 1, slots: storage, phantom: PhantomData }
    }

    #[inline]
    fn slots(&self) -> (slots: &[Slot<V>])
        ensures
            slots@ == self@,
    {
        self.slots.slice()
    }
}

impl<V> SimpleLPHashMap<V, BoxedSliceStorage<Slot<V>>> {
    /// Create a new map on the heap with the given capacity. Capacity must be a power of two.
    pub fn with_capacity(capacity: usize) -> (map: Self)
        requires
            is_pow2(capacity as int),
        ensures
            map.wf(),
            map@.len() == capacity,
            forall|i: int|
                0 <= i < capacity ==> {
                    let slot = #[trigger] map@[i];
                    slot.key == EMPTY && slot.value@ is None
                },
    {
        let init = || -> (slot: Slot<V>)
            ensures
                slot.key == EMPTY,
                slot.value@ is None,
            { Slot::new() };
        let slots = BoxedSliceStorage::with_capacity_and_init(capacity, init);
        proof {
            bits::lemma_power_divides(capacity);
        }
        SimpleLPHashMap { mask: capacity - 1, slots, phantom: PhantomData }
    }

    /// Create a map with custom initialization for all values.
    /// Capacity must be a power of two.
    /// Keys are initialized to EMPTY (0).
    pub fn with_capacity_and_init<F>(capacity: usize, mut init_value: F) -> (map: Self)
        where F: FnMut() -> V
        requires
            is_pow2(capacity as int),
            init_value.requires(()),
        ensures
            map.wf(),
            map@.len() == capacity,
            forall|i: int|
                0 <= i < capacity ==> {
                    let slot = #[trigger] map@[i];
                    slot.key == EMPTY && slot.value@ is Some && init_value.ensures(
                        (),
                        slot.value@->0,
                    )
                },
    {
        let mut v: Vec<Slot<V>> = Vec::with_capacity(capacity);
        let ghost given = init_value;
        let mut i: usize = 0;
        while i < capacity
            invariant
                init_value == given,
                i <= capacity,
                v@.len() == i,
                init_value.requires(()),
                forall|j: int|
                    0 <= j < i ==> {
                        let slot = #[trigger] v@[j];
                        slot.key == EMPTY && slot.value@ is Some && init_value.ensures(
                            (),
                            slot.value@->0,
                        )
                    },
            decreases capacity - i,
        {
            v.push(Slot { key: EMPTY, value: Place::new(init_value()) });
            i += 1;
        }
        let slots = BoxedSliceStorage::from_vec(v);
        proof {
            bits::lemma_power_divides(capacity);
        }
        SimpleLPHashMap { mask: capacity - 1, slots, phantom: PhantomData }
    }
}

impl<V, S> SimpleLPHashMap<V, S> where S: FixedStorageMultiple<Slot<V>> {
    /// Get the capacity of the map
    #[inline]
    pub fn capacity(&self) -> (n: usize)
        requires
            self.wf(),
        ensures
            n == self@.len(),
    {
        self.mask + 1
    }

    /// Get access to all slots for specialized scanning.
    ///
    /// The caller must handle EMPTY keys and IN_PROGRESS state appropriately.
    #[inline]
    pub fn raw_slots(&self) -> (slots: &[Slot<V>])
        ensures
            slots@ == self@,
    {
        self.slots()
    }

    /// Get a reference to a slot by index
    #[inline]
    pub fn slot_at(&self, index: usize) -> (slot: &Slot<V>)
        requires
            index < self@.len(),
        ensures
            *slot == self@[index as int],
    {
        &self.slots()[index]
    }

    /// Get mutable access to the value at index.
    #[inline]
    pub fn value_at(&mut self, index: usize) -> (value: &mut Place<V>)
        requires
            old(self).wf(),
            index < old(self)@.len(),
        ensures
            *value == old(self)@[index as int].value,
            final(self).wf(),
            final(self)@ == old(self)@.update(
                index as int,
                (Slot { value: *final(value), ..old(self)@[index as int] }),
            ),
    {
        &mut self.slots.slice_mut()[index].value
    }

    #[inline]
    fn store_key(&mut self, index: usize, key: u64)
        requires
            old(self).wf(),
            index < old(self)@.len(),
        ensures
            final(self).wf(),
            final(self)@ == old(self)@.update(
                index as int,
                (Slot { key, ..old(self)@[index as int] }),
            ),
    {
        self.slots.slice_mut()[index].key = key;
    }

    /// Exchange the key of a slot.
    #[inline]
    pub fn exchange_key(&mut self, index: usize, expected: u64, desired: u64) -> (event: Event)
        requires
            old(self).wf(),
            index < old(self)@.len(),
        ensures
            final(self).wf(),
            event == tasks::exchange_event(old(self)@[index as int].key, expected),
            final(self)@ == (if old(self)@[index as int].key == expected {
                old(self)@.update(index as int, (Slot { key: desired, ..old(self)@[index as int] }))
            } else {
                old(self)@
            }),
    {
        let mut key = self.slots()[index].load_key();
        let event = tasks::exchange(&mut key, expected, desired);
        self.store_key(index, key);
        assert(old(self)@.update(index as int, old(self)@[index as int]) =~= old(self)@);
        event
    }

    /// Scan all slots and list the index and the key of each non-empty slot, in order.
    ///
    /// The caller must handle IN_PROGRESS state appropriately.
    pub fn scan_slots(&self) -> (taken: Vec<(usize, u64)>)
        requires
            self.wf(),
        ensures
            taken@ == taken_slots(self@, self@.len()),
    {
        let slots = self.slots();
        let mut taken: Vec<(usize, u64)> = Vec::new();
        let mut index: usize = 0;
        while index < slots.len()
            invariant
                slots@ == self@,
                index <= slots@.len(),
                taken@ == taken_slots(self@, index as nat),
            decreases slots@.len() - index,
        {
            let k = slots[index].load_key();
            if k != EMPTY {
                taken.push((index, k));
            }
            index += 1;
        }
        taken
    }

    /// Search for a key without inserting it, from its home index on, at `n` slots.
    ///
    /// Returns `(found, placement_offset_delta, k, index)` as `get_or_insert_concurrent` does.
    pub fn get(&self, key: u64, placement_offset: usize, n: usize) -> (r: (
        bool,
        usize,
        u64,
        usize,
    ))
        requires
            self.wf(),
            key != EMPTY,
            key < IN_PROGRESS,
            (key as usize) + placement_offset <= usize::MAX,
        ensures
            ({
                let (found, delta, k, index) = r;
                let limit = probe_limit(n, self@.len()) as int;
                if found {
                    &&& delta < limit
                    &&& first_end(self@, key, placement_offset, false, false, delta as int)
                    &&& index == probe_index(key, placement_offset, delta as int, self@.len())
                    &&& index < self@.len()
                    &&& k == self@[index as int].key
                } else {
                    &&& never_ends(self@, key, placement_offset, false, false, limit)
                    &&& delta == usize::MAX
                    &&& k == EMPTY
                    &&& index == usize::MAX
                }
            }),
    {
        let capacity: usize = self.capacity();
        let limit: usize = if n == MAX {
            capacity
        } else {
            n
        };
        let search = Search {
            key,
            placement_offset,
            limit,
            capacity,
            insert: false,
            fold: false,
        };
        let mut task = SearchTask::start(search);
        loop
            invariant
                self.wf(),
                search.wf(),
                task.wf(search),
                search.key == key,
                search.placement_offset == placement_offset,
                search.limit == probe_limit(n, self@.len()),
                search.capacity == self@.len(),
                !search.insert,
                !search.fold,
                match task {
                    SearchTask::At { i, .. } => never_ends(
                        self@,
                        key,
                        placement_offset,
                        false,
                        false,
                        i as int,
                    ),
                    SearchTask::Claiming { .. } => false,
                    SearchTask::Ended(Some(result)) => {
                        &&& result.delta < search.limit
                        &&& first_end(
                            self@,
                            key,
                            placement_offset,
                            false,
                            false,
                            result.delta as int,
                        )
                        &&& result.index == probe_index(
                            key,
                            placement_offset,
                            result.delta as int,
                            self@.len(),
                        )
                        &&& result.index < self@.len()
                        &&& result.key == self@[result.index as int].key
                    },
                    SearchTask::Ended(None) => never_ends(
                        self@,
                        key,
                        placement_offset,
                        false,
                        false,
                        search.limit as int,
                    ),
                },
            decreases tasks::search_rank(search, task),
        {
            task = match task {
                SearchTask::At { i, index } => {
                    proof {
                        lemma_probe_in_range(key, placement_offset, i as int, self@.len());
                    }
                    task.next(search, Event::Loaded(self.slots()[index].load_key()))
                },
                SearchTask::Ended(Some(result)) => {
                    return (true, result.delta, result.key, result.index);
                },
                SearchTask::Claiming { .. } | SearchTask::Ended(None) => {
                    return (false, usize::MAX, EMPTY, usize::MAX);
                },
            };
        }
    }

    /// Get-or-insert.
    ///
    /// Importantly, the n probing mechanism cannot be used for insertions where there is a
    /// possibility of the key already existing, as that could create duplicate entries.
    /// If the key is not required to be specifically the one provided however and no duplicate
    /// handling is required, specify `fold=true` to allow generation of alternate unique keys.
    /// When fold is set, assume that the inserted entry's key is not the one initially provided,
    /// but `key_bits(k)` instead with a placement_offset of zero.
    /// When fold = true, calls with the same (key, placement_offset) are allowed and may all
    /// insert distinct entries. This mode does not provide "get-or-insert" uniqueness; it only
    /// guarantees each successful insertion gets a unique key.
    ///
    /// Returns `(found, is_new, placement_offset_delta, k, index)`:
    /// - If `found` is false, when `insert == true` the table is full and nothing was inserted,
    ///   and when `insert == false` the key was not found.
    /// - If `is_new` is true:
    ///     - This call just claimed the slot.
    ///     - The key in the slot is `k`, which is:
    ///         - `key | IN_PROGRESS` when `fold == false`, or
    ///         - a folded variant as described above when `fold == true`.
    ///     - The value is to be initialized through `value_at(index)`, and then
    ///       `finish_init_at(index)` is to be called.
    /// - If `is_new` is false and `found` is true:
    ///     - The key already exists in the table.
    ///     - `is_in_progress(k)` tells whether the slot is still being initialized.
    /// - `placement_offset_delta` is the number of extra probe steps from
    ///   the home index before returning.
    /// - `k` is the actual key stored in the slot (the IN_PROGRESS bit might be set; use
    ///   `key_bits(k)` to retrieve the actual key).
    pub fn get_or_insert_concurrent(
        &mut self,
        key: u64,
        placement_offset: usize,
        n: usize,
        insert: bool,
        fold: bool,
    ) -> (r: (bool, bool, usize, u64, usize))
        requires
            old(self).wf(),
            key != EMPTY,
            key < IN_PROGRESS,
            insert || !fold,
            (key as usize) + placement_offset <= usize::MAX,
        ensures
            final(self).wf(),
            ({
                let (found, is_new, delta, k, index) = r;
                let slots = old(self)@;
                let limit = probe_limit(n, slots.len()) as int;
                if found {
                    &&& delta < limit
                    &&& first_end(slots, key, placement_offset, insert, fold, delta as int)
                    &&& index == probe_index(key, placement_offset, delta as int, slots.len())
                    &&& is_new == (slots[index as int].key == EMPTY)
                    &&& k == (if is_new {
                        claimed_key(key, placement_offset, delta as int, slots.len(), fold)
                    } else {
                        slots[index as int].key
                    })
                    &&& final(self)@ == slots.update(
                        index as int,
                        (Slot { key: k, ..slots[index as int] }),
                    )
                } else {
                    &&& never_ends(slots, key, placement_offset, insert, fold, limit)
                    &&& !is_new
                    &&& delta == usize::MAX
                    &&& k == EMPTY
                    &&& index == usize::MAX
                    &&& final(self)@ == slots
                }
            }),
    {
        if !insert {
            let (found, delta, k, index) = self.get(key, placement_offset, n);
            proof {
                if found {
                    assert(self@.update(index as int, (Slot { key: k, ..self@[index as int] }))
                        =~= self@);
                }
            }
            return (found, false, delta, k, index);
        }
        let capacity: usize = self.capacity();
        let limit: usize = if n == MAX {
            capacity
        } else {
            n
        };
        let search = Search { key, placement_offset, limit, capacity, insert, fold };
        let mut task = SearchTask::start(search);
        let ghost slots = self@;
        loop
            invariant
                self.wf(),
                search.wf(),
                task.wf(search),
                slots == old(self)@,
                search.key == key,
                search.placement_offset == placement_offset,
                search.limit == probe_limit(n, slots.len()),
                search.capacity == slots.len(),
                search.insert,
                search.insert == insert,
                search.fold == fold,
                self@.len() == slots.len(),
                match task {
                    SearchTask::At { i, .. } => {
                        &&& self@ == slots
                        &&& never_ends(slots, key, placement_offset, insert, fold, i as int)
                    },
                    SearchTask::Claiming { i, index, key: k } => {
                        &&& self@ == slots
                        &&& slots[index as int].key == EMPTY
                        &&& never_ends(slots, key, placement_offset, insert, fold, i as int)
                        &&& k == claimed_key(key, placement_offset, i as int, slots.len(), fold)
                    },
                    SearchTask::Ended(Some(result)) => {
                        &&& result.delta < search.limit
                        &&& first_end(
                            slots,
                            key,
                            placement_offset,
                            insert,
                            fold,
                            result.delta as int,
                        )
                        &&& result.index == probe_index(
                            key,
                            placement_offset,
                            result.delta as int,
                            slots.len(),
                        )
                        &&& result.is_new == (slots[result.index as int].key == EMPTY)
                        &&& result.key == (if result.is_new {
                            claimed_key(
                                key,
                                placement_offset,
                                result.delta as int,
                                slots.len(),
                                fold,
                            )
                        } else {
                            slots[result.index as int].key
                        })
                        &&& self@ == slots.update(
                            result.index as int,
                            (Slot { key: result.key, ..slots[result.index as int] }),
                        )
                    },
                    SearchTask::Ended(None) => {
                        &&& self@ == slots
                        &&& never_ends(
                            slots,
                            key,
                            placement_offset,
                            insert,
                            fold,
                            search.limit as int,
                        )
                    },
                },
            decreases tasks::search_rank(search, task),
        {
            task = match task {
                SearchTask::At { i, index } => {
                    proof {
                        lemma_probe_in_range(key, placement_offset, i as int, slots.len());
                        let here = slots[index as int];
                        assert(slots.update(index as int, (Slot { key: here.key, ..here }))
                            =~= slots);
                    }
                    task.next(search, Event::Loaded(self.slots()[index].load_key()))
                },
                SearchTask::Claiming { i, index, key: new_key } => {
                    proof {
                        lemma_probe_in_range(key, placement_offset, i as int, slots.len());
                    }
                    task.next(search, self.exchange_key(index, EMPTY, new_key))
                },
                SearchTask::Ended(Some(result)) => {
                    return (true, result.is_new, result.delta, result.key, result.index);
                },
                SearchTask::Ended(None) => {
                    // Table is fully occupied (no EMPTY and no slot for this key)
                    return (false, false, usize::MAX, EMPTY, usize::MAX);
                },
            };
        }
    }

    /// Clear the IN_PROGRESS bit at `index` once initialization is complete.
    ///
    /// `index` must refer to a slot that was returned from `get_or_insert_concurrent`.
    pub fn finish_init_at(&mut self, index: usize)
        requires
            old(self).wf(),
            index < old(self)@.len(),
            old(self)@[index as int].key != EMPTY,
        ensures
            final(self).wf(),
            final(self)@ == old(self)@.update(
                index as int,
                (Slot { key: logical_key(old(self)@[index as int].key), ..old(self)@[index as int] }),
            ),
    {
        let k = self.slots()[index].load_key();
        if is_in_progress(k) {
            // Clear IN_PROGRESS bit, publishing the initialized value.
            proof {
                lemma_key_flag(k);
            }
            self.store_key(index, k & !IN_PROGRESS);
        } else {
            assert(self@.update(
                index as int,
                (Slot { key: logical_key(k), ..self@[index as int] }),
            ) =~= self@);
        }
    }

    /// Mark the key's slot as EMPTY, without touching the value. Returns whether the key was
    /// there.
    pub fn remove_concurrent(&mut self, key: u64, placement_offset: usize, n: usize) -> (removed:
        bool)
        requires
            old(self).wf(),
            key != EMPTY,
            key < IN_PROGRESS,
            (key as usize) + placement_offset <= usize::MAX,
        ensures
            final(self).wf(),
            ({
                let slots = old(self)@;
                let limit = probe_limit(n, slots.len()) as int;
                if removed {
                    exists|i: int|
                        {
                            let index = #[trigger] probe_index(
                                key,
                                placement_offset,
                                i,
                                slots.len(),
                            );
                            &&& 0 <= i < limit
                            &&& first_end(slots, key, placement_offset, false, false, i)
                            &&& final(self)@ == slots.update(
                                index,
                                (Slot { key: EMPTY, ..slots[index] }),
                            )
                        }
                } else {
                    &&& never_ends(slots, key, placement_offset, false, false, limit)
                    &&& final(self)@ == slots
                }
            }),
    {
        let (found, _, _, index) = self.get(key, placement_offset, n);
        if found {
            self.store_key(index, EMPTY);
        }
        found
    }

    /// Give the memory of the slots back.
    pub fn deallocate(self) {
        self.slots.deallocate();
    }
}

/// Every taken slot lies where the search for its own key begins, so that each entry is found
/// without probing.
pub open spec fn folded(keys: Seq<u64>) -> bool {
    forall|i: int|
        0 <= i < keys.len() && #[trigger] keys[i] != EMPTY ==> leads_to(keys[i], i, keys.len())
}

/// The search for the key of a slot begins at `index`.
pub open spec fn leads_to(k: u64, index: int, capacity: nat) -> bool {
    logical_key(k) != EMPTY && home_index(logical_key(k), ZERO_OFFSET, capacity) == index
}

/// A folded insertion stores an entry under a key that leads straight to the slot it claims.
pub proof fn law_folded_key_leads_to_its_slot(
    key: u64,
    placement_offset: usize,
    i: int,
    capacity: usize,
)
    requires
        is_pow2(capacity as int),
        capacity < IN_PROGRESS,
        0 <= i,
    ensures
        leads_to(
            claimed_key(key, placement_offset, i, capacity as nat, true),
            probe_index(key, placement_offset, i, capacity as nat),
            capacity as nat,
        ),
{
    let cap = capacity as int;
    let sum = key + placement_offset + i;
    let k = claimed_key(key, placement_offset, i, capacity as nat, true);
    bits::lemma_power_divides(capacity);
    bits::lemma_truncation_keeps_remainder(key, capacity);
    bits::lemma_truncation_keeps_remainder(logical_key(k), capacity);
    bits::lemma_remainder_of_remainder(sum, IN_PROGRESS as int, cap);
    // Where the entry goes: the sum of the parts, modulo the capacity.
    let here = key as usize as int + placement_offset;
    vstd::arithmetic::div_mod::lemma_add_mod_noop(here, i, cap);
    vstd::arithmetic::div_mod::lemma_add_mod_noop_right(i, here, cap);
    vstd::arithmetic::div_mod::lemma_add_mod_noop(key as usize as int, placement_offset + i, cap);
    vstd::arithmetic::div_mod::lemma_add_mod_noop(key as int, placement_offset + i, cap);
    assert(probe_index(key, placement_offset, i, capacity as nat) == sum % cap);
    // What the key leads to: the same.
    if sum % (IN_PROGRESS as int) == 0 {
        vstd::arithmetic::div_mod::lemma_small_mod(capacity as nat, IN_PROGRESS as nat);
        vstd::arithmetic::div_mod::lemma_small_mod(0, capacity as nat);
        vstd::arithmetic::div_mod::lemma_mod_self_0(cap);
    }
}

/// Folded entries all have different keys.
pub proof fn law_folded_keys_are_unique(keys: Seq<u64>, i: int, j: int)
    requires
        folded(keys),
        0 <= i < keys.len(),
        0 <= j < keys.len(),
        keys[i] != EMPTY,
        keys[j] != EMPTY,
        logical_key(keys[i]) == logical_key(keys[j]),
    ensures
        i == j,
{
}

/// A folded entry is found by its key in one step, whatever else the map holds.
pub proof fn law_folded_entry_is_found_at_once<V>(slots: Seq<Slot<V>>, i: int)
    requires
        folded(slots.map_values(|slot: Slot<V>| slot.key)),
        0 <= i < slots.len(),
        slots[i].key != EMPTY,
    ensures
        first_end(slots, logical_key(slots[i].key), ZERO_OFFSET, false, false, 0),
        probe_index(logical_key(slots[i].key), ZERO_OFFSET, 0, slots.len()) == i,
{
    let keys = slots.map_values(|slot: Slot<V>| slot.key);
    assert(keys[i] == slots[i].key);
    assert(leads_to(keys[i], i, keys.len()));
    vstd::arithmetic::div_mod::lemma_small_mod(i as nat, slots.len());
}

/// The flag of a key is its most significant bit, and its logical key is all the rest.
pub proof fn law_a_key_is_its_bits_and_its_flag(k: u64)
    ensures
        logical_key(k) < 0x8000_0000_0000_0000,
        k < 0x8000_0000_0000_0000 ==> logical_key(k) == k,
        k >= 0x8000_0000_0000_0000 ==> logical_key(k) + 0x8000_0000_0000_0000 == k,
        flagged_key(k) == logical_key(k) + 0x8000_0000_0000_0000,
{
}

/// A search begins at the slot that the key and the offset lead to, goes on from each slot to the
/// next one, and looks at as many as it may.
pub proof fn law_a_search_goes_round(key: u64, placement_offset: usize, i: int, n: usize, capacity: nat)
    requires
        0 < capacity,
    ensures
        probe_index(key, placement_offset, i, capacity) == (key as usize + placement_offset + i)
            % capacity as int,
        probe_limit(n, capacity) == (if n == usize::MAX {
            capacity
        } else {
            n as nat
        }),
{
    vstd::arithmetic::div_mod::lemma_add_mod_noop_right(
        i,
        key as usize + placement_offset,
        capacity as int,
    );
}

/// The first slot at which a search ends is free where the search may insert, or holds its key;
/// none that it has looked at before is such a slot.
pub proof fn law_a_search_ends_at_the_first_slot_it_can_use<V>(
    slots: Seq<Slot<V>>,
    key: u64,
    placement_offset: usize,
    insert: bool,
    fold: bool,
    i: int,
    j: int,
)
    requires
        slots.len() > 0,
        0 < key < 0x8000_0000_0000_0000,
        first_end(slots, key, placement_offset, insert, fold, i),
    ensures
        ({
            let home = key as usize + placement_offset;
            let here = slots[(home + i) % slots.len() as int].key;
            let before = slots[(home + j) % slots.len() as int].key;
            &&& insert && here == 0 || !fold && (here == key || here == key
                + 0x8000_0000_0000_0000)
            &&& 0 <= j < i && insert ==> before != 0
            &&& 0 <= j < i && !fold ==> before != key && before != key + 0x8000_0000_0000_0000
        }),
{
    law_a_search_goes_round(key, placement_offset, i, 0, slots.len());
    law_a_search_goes_round(key, placement_offset, j, 0, slots.len());
    let here = slots[probe_index(key, placement_offset, i, slots.len())].key;
    let before = slots[probe_index(key, placement_offset, j, slots.len())].key;
    law_a_key_is_its_bits_and_its_flag(here);
    law_a_key_is_its_bits_and_its_flag(before);
}

/// The search for a key comes to every slot.
proof fn lemma_search_comes_to(key: u64, placement_offset: usize, index: int, capacity: nat) -> (i: int)
    requires
        0 <= index < capacity,
    ensures
        0 <= i < capacity,
        probe_index(key, placement_offset, i, capacity) == index,
{
    let home = home_index(key, placement_offset, capacity);
    let i = (index - home) % capacity as int;
    vstd::arithmetic::div_mod::lemma_add_mod_noop_right(home, index - home, capacity as int);
    vstd::arithmetic::div_mod::lemma_small_mod(index as nat, capacity);
    i
}

/// Where a search that looks at all slots does not end, its key is not in the map, and if it might
/// have inserted it, there is no room for it.
pub proof fn law_what_is_not_found_is_not_there<V>(
    slots: Seq<Slot<V>>,
    key: u64,
    placement_offset: usize,
    insert: bool,
    fold: bool,
    index: int,
)
    requires
        0 < key < 0x8000_0000_0000_0000,
        never_ends(slots, key, placement_offset, insert, fold, slots.len() as int),
        0 <= index < slots.len(),
    ensures
        !fold ==> slots[index].key != key && slots[index].key != key + 0x8000_0000_0000_0000,
        insert ==> slots[index].key != 0,
{
    let i = lemma_search_comes_to(key, placement_offset, index, slots.len());
    assert(!ends_probe(
        key,
        slots[probe_index(key, placement_offset, i, slots.len())].key,
        insert,
        fold,
    ));
    law_a_key_is_its_bits_and_its_flag(slots[index].key);
}

/// A slot is claimed under its key with the flag set; with folding, under the key that as many
/// steps on lead to, or that of a full turn where that would be no key.
pub proof fn law_a_slot_is_claimed_with_the_flag(
    key: u64,
    placement_offset: usize,
    i: int,
    capacity: nat,
)
    requires
        key < 0x8000_0000_0000_0000,
        capacity < 0x8000_0000_0000_0000,
        0 <= i,
    ensures
        claimed_key(key, placement_offset, i, capacity, false) == key + 0x8000_0000_0000_0000,
        ({
            let there = (key + placement_offset + i) % 0x8000_0000_0000_0000;
            claimed_key(key, placement_offset, i, capacity, true) == 0x8000_0000_0000_0000 + (if there
                == 0 {
                capacity as int
            } else {
                there
            })
        }),
{
}

/// What was inserted is found where it was put, after as many steps, whether its value is
/// initialized yet or not.
pub proof fn law_what_was_inserted_is_found<V>(
    slots: Seq<Slot<V>>,
    key: u64,
    placement_offset: usize,
    i: int,
    flagged: bool,
    value: Place<V>,
)
    requires
        slots.len() > 0,
        0 < key < 0x8000_0000_0000_0000,
        first_end(slots, key, placement_offset, true, false, i),
        0 <= i,
    ensures
        ({
            let index = probe_index(key, placement_offset, i, slots.len());
            let now = Slot {
                key: if flagged {
                    claimed_key(key, placement_offset, i, slots.len(), false)
                } else {
                    key
                },
                value,
            };
            first_end(slots.update(index, now), key, placement_offset, false, false, i)
        }),
{
    let n = slots.len();
    let index = probe_index(key, placement_offset, i, n);
    let now = Slot {
        key: if flagged {
            claimed_key(key, placement_offset, i, n, false)
        } else {
            key
        },
        value,
    };
    let filled = slots.update(index, now);
    lemma_probe_in_range(key, placement_offset, i, n);
    assert forall|j: int| 0 <= j < i implies !ends_probe(
        key,
        filled[#[trigger] probe_index(key, placement_offset, j, n)].key,
        false,
        false,
    ) by {
        lemma_probe_in_range(key, placement_offset, j, n);
        assert(!ends_probe(
            key,
            slots[probe_index(key, placement_offset, j, n)].key,
            true,
            false,
        ));
    }
}

/// A list of the taken slots names each of them with its key, in order, and nothing else.
pub proof fn law_a_scan_lists_the_taken_slots<V>(slots: Seq<Slot<V>>, n: nat)
    requires
        n <= slots.len() <= usize::MAX,
    ensures
        ({
            let listed = taken_slots(slots, n);
            &&& forall|a: int|
                0 <= a < listed.len() ==> {
                    let (index, key) = #[trigger] listed[a];
                    index < n && key != 0 && slots[index as int].key == key
                }
            &&& forall|a: int, b: int|
                0 <= a < b < listed.len() ==> (#[trigger] listed[a]).0 < (#[trigger] listed[b]).0
            &&& forall|i: int|
                0 <= i < n && (#[trigger] slots[i]).key != 0 ==> listed.contains(
                    (i as usize, slots[i].key),
                )
        }),
    decreases n,
{
    if n > 0 {
        let before = taken_slots(slots, (n - 1) as nat);
        let listed = taken_slots(slots, n);
        law_a_scan_lists_the_taken_slots(slots, (n - 1) as nat);
        assert forall|i: int| 0 <= i < n && (#[trigger] slots[i]).key != 0 implies listed.contains(
            (i as usize, slots[i].key),
        ) by {
            if i < n - 1 {
                assert(before.contains((i as usize, slots[i].key)));
                let a = choose|a: int|
                    0 <= a < before.len() && before[a] == (i as usize, slots[i].key);
                assert(listed[a] == (i as usize, slots[i].key));
            } else {
                assert(listed[listed.len() - 1] == (i as usize, slots[i].key));
            }
        }
    }
}

} // verus!
