//! What an area is, and what its operations make of it.
use crate::area::{
    self, CleanupError, CleanupResult, PublishError, ResumeError, SetGenError, SuspendError,
};
use crate::arithmetics::{self, NumericType};
use crate::bits;
use crate::steps;
use vstd::arithmetic::power2::*;
use vstd::prelude::*;

verus! {

/// The state of an area.
#[verifier::ext_equal]
pub struct AreaView<T> {
    /// Next generation number for writing
    pub write_gen: NumericType,
    /// Current generation number published for reading
    pub read_gen: NumericType,
    /// Last generation number that is still valid
    pub last_valid_gen: NumericType,
    /// Generation number up to which slots are freed and can be reused
    pub free_gen: NumericType,
    /// Number of active writers
    pub writers_count: usize,
    /// The keys of the reader slots
    pub keys: Seq<u64>,
    /// The generation numbers of the reader slots (with MSB as suspended flag)
    pub gens: Seq<NumericType>,
    /// The ring buffer; a place is `None` while it holds no message
    pub buffer: Seq<Option<T>>,
    /// 1 while there are writers, plus 1 while there are readers
    pub destroy_stages: usize,
    /// Number of readers that are about to leave
    pub reader_keep_alloc_tickets: usize,
    /// Number of readers that compete for leaving last
    pub reader_stage_tickets: usize,
}

/// The slot that the search for a free one, started at `key`, finds after `i` or more steps: the
/// number of steps it takes.
pub open spec fn free_step(keys: Seq<u64>, key: u64, i: nat) -> Option<int>
    decreases keys.len() - i,
{
    if i >= keys.len() {
        None
    } else if keys[crate::map::probe_index(key, crate::map::ZERO_OFFSET, i as int, keys.len())]
        == crate::map::EMPTY {
        Some(i as int)
    } else {
        free_step(keys, key, i + 1)
    }
}

pub proof fn lemma_free_step(keys: Seq<u64>, key: u64, from: nat, i: int)
    requires
        from <= i < keys.len(),
        keys[crate::map::probe_index(key, crate::map::ZERO_OFFSET, i, keys.len())]
            == crate::map::EMPTY,
        forall|j: int|
            from <= j < i ==> keys[#[trigger] crate::map::probe_index(
                key,
                crate::map::ZERO_OFFSET,
                j,
                keys.len(),
            )] != crate::map::EMPTY,
    ensures
        free_step(keys, key, from) == Some(i),
    decreases i - from,
{
    if from < i {
        lemma_free_step(keys, key, from + 1, i);
    }
}

pub proof fn lemma_no_free_step(keys: Seq<u64>, key: u64, from: nat)
    requires
        forall|j: int|
            from <= j < keys.len() ==> keys[#[trigger] crate::map::probe_index(
                key,
                crate::map::ZERO_OFFSET,
                j,
                keys.len(),
            )] != crate::map::EMPTY,
    ensures
        free_step(keys, key, from) is None,
    decreases keys.len() - from,
{
    if from < keys.len() {
        lemma_no_free_step(keys, key, from + 1);
    }
}

/// What the search for a free slot comes to.
pub proof fn lemma_free_step_found(keys: Seq<u64>, key: u64, from: nat)
    ensures
        match free_step(keys, key, from) {
            Some(i) => {
                &&& from <= i < keys.len()
                &&& keys[crate::map::probe_index(key, crate::map::ZERO_OFFSET, i, keys.len())]
                    == crate::map::EMPTY
            },
            None => forall|j: int|
                from <= j < keys.len() ==> keys[#[trigger] crate::map::probe_index(
                    key,
                    crate::map::ZERO_OFFSET,
                    j,
                    keys.len(),
                )] != crate::map::EMPTY,
        },
    decreases keys.len() - from,
{
    if from < keys.len() {
        lemma_free_step_found(keys, key, from + 1);
    }
}

/// There is room for a first reader.
pub proof fn lemma_first_registration<T>(v: AreaView<T>)
    requires
        v.keys.len() > 0,
        forall|i: int| 0 <= i < v.keys.len() ==> #[trigger] v.keys[i] == crate::map::EMPTY,
    ensures
        v.registration(1) is Some,
{
    let key = steps::seed_key(1);
    let first = crate::map::probe_index(key, crate::map::ZERO_OFFSET, 0, v.keys.len());
    assert(v.keys[first] == crate::map::EMPTY);
}

/// The generation from which on a cleanup must keep everything, once it has been at the first `n`
/// reader slots.
pub open spec fn min_held(gens: Seq<NumericType>, read_gen: NumericType, n: nat) -> NumericType
    decreases n,
{
    if n == 0 {
        read_gen
    } else {
        let before = min_held(gens, read_gen, (n - 1) as nat);
        match steps::sweep_plan(before, gens[n - 1]) {
            steps::Sweep::Force(_) => before,
            steps::Sweep::Keep(g) => g,
        }
    }
}

/// The values of the reader slots once a cleanup has been at the first `n` of them.
#[verifier::opaque]
pub open spec fn swept(gens: Seq<NumericType>, read_gen: NumericType, n: nat) -> Seq<NumericType> {
    Seq::new(
        gens.len(),
        |i: int|
            if i < n {
                match steps::sweep_plan(min_held(gens, read_gen, i as nat), gens[i]) {
                    steps::Sweep::Force(g) => g,
                    steps::Sweep::Keep(_) => gens[i],
                }
            } else {
                gens[i]
            },
    )
}

/// Before it has been at any slot, a cleanup has changed none.
pub proof fn lemma_sweep_start(gens: Seq<NumericType>, read_gen: NumericType)
    ensures
        swept(gens, read_gen, 0) == gens,
{
    reveal(swept);
    assert(swept(gens, read_gen, 0) =~= gens);
}

/// A cleanup keeps the number of slots.
pub proof fn lemma_sweep_len(gens: Seq<NumericType>, read_gen: NumericType, n: nat)
    ensures
        swept(gens, read_gen, n).len() == gens.len(),
{
    reveal(swept);
}

/// What the next reader slot does to what a cleanup has gathered.
pub proof fn lemma_sweep_step(gens: Seq<NumericType>, read_gen: NumericType, n: nat)
    requires
        n < gens.len(),
    ensures
        swept(gens, read_gen, n)[n as int] == gens[n as int],
        match steps::sweep_plan(min_held(gens, read_gen, n), gens[n as int]) {
            steps::Sweep::Force(g) => {
                &&& swept(gens, read_gen, n + 1) == swept(gens, read_gen, n).update(n as int, g)
                &&& min_held(gens, read_gen, n + 1) == min_held(gens, read_gen, n)
            },
            steps::Sweep::Keep(g) => {
                &&& swept(gens, read_gen, n + 1) == swept(gens, read_gen, n)
                &&& min_held(gens, read_gen, n + 1) == g
            },
        },
{
    reveal(swept);
    match steps::sweep_plan(min_held(gens, read_gen, n), gens[n as int]) {
        steps::Sweep::Force(g) => {
            assert(swept(gens, read_gen, n + 1) =~= swept(gens, read_gen, n).update(n as int, g));
        },
        steps::Sweep::Keep(g) => {
            assert(swept(gens, read_gen, n + 1) =~= swept(gens, read_gen, n));
        },
    }
}

/// Some generation of the `n` from `from` on has its place at `index`.
pub open spec fn covers(capacity: nat, from: NumericType, n: int, index: int) -> bool {
    exists|k: int|
        0 <= k < n && #[trigger] steps::slot_index(arithmetics::gen_add(from, k), capacity)
            == index
}

/// Some slot is taken.
pub open spec fn any_taken(keys: Seq<u64>) -> bool {
    exists|i: int| 0 <= i < keys.len() && #[trigger] keys[i] != crate::map::EMPTY
}

impl<T> AreaView<T> {
    /// The number of messages that there is room for.
    pub open spec fn capacity(self) -> nat {
        self.buffer.len()
    }

    /// An area as it is made: nothing written, and no one there.
    pub open spec fn fresh(buffer_capacity: nat, reader_capacity: nat) -> Self {
        AreaView {
            write_gen: 0,
            read_gen: 0,
            last_valid_gen: 0,
            free_gen: 0,
            writers_count: 0,
            keys: Seq::new(reader_capacity, |i: int| crate::map::EMPTY),
            gens: Seq::new(reader_capacity, |i: int| area::SUSPENDED_BIT),
            buffer: Seq::new(buffer_capacity, |i: int| None),
            destroy_stages: 2,
            reader_keep_alloc_tickets: 0,
            reader_stage_tickets: 0,
        }
    }

    /// The place of a generation in the ring buffer.
    pub open spec fn place(self, generation: NumericType) -> int {
        steps::slot_index(generation, self.capacity())
    }

    /// The message of a generation.
    pub open spec fn message(self, generation: NumericType) -> Option<T> {
        self.buffer[self.place(generation)]
    }

    /// The place of the message of a generation is set to `message`.
    pub open spec fn with_message(self, generation: NumericType, message: Option<T>) -> Self {
        AreaView { buffer: self.buffer.update(self.place(generation), message), ..self }
    }

    /// The reader slot in which a reader is registered if it is.
    pub open spec fn reader_slot(self, reader_id: NumericType) -> int {
        crate::map::home_index(reader_id, crate::map::ZERO_OFFSET, self.keys.len())
    }

    /// There is a reader with this id.
    pub open spec fn registered(self, reader_id: NumericType) -> bool {
        crate::map::logical_key(self.keys[self.reader_slot(reader_id)]) == reader_id
    }

    /// The generation of a reader, with the suspended flag.
    pub open spec fn reader_gen(self, reader_id: NumericType) -> NumericType {
        self.gens[self.reader_slot(reader_id)]
    }

    /// The generation of a reader is set.
    pub open spec fn with_reader_gen(self, reader_id: NumericType, g: NumericType) -> Self {
        AreaView { gens: self.gens.update(self.reader_slot(reader_id), g), ..self }
    }

    /// What moving a reader to a new generation reports.
    pub open spec fn set_gen_result(
        self,
        reader_id: NumericType,
        new_generation: NumericType,
    ) -> Result<(), SetGenError> {
        if !self.registered(reader_id) {
            Err(SetGenError::ReaderNotFound)
        } else {
            match steps::set_gen_plan(self.reader_gen(reader_id), new_generation) {
                Ok(_) => Ok(()),
                Err(err) => Err(err),
            }
        }
    }

    /// A reader is moved to a new generation if it may go there.
    pub open spec fn with_gen_set(
        self,
        reader_id: NumericType,
        new_generation: NumericType,
    ) -> Self {
        if self.set_gen_result(reader_id, new_generation) is Ok {
            self.with_reader_gen(reader_id, new_generation)
        } else {
            self
        }
    }

    /// What suspending a reader reports.
    pub open spec fn suspend_result(self, reader_id: NumericType) -> Result<(), SuspendError> {
        if !self.registered(reader_id) {
            Err(SuspendError::ReaderNotFound)
        } else {
            match steps::suspend_plan(self.reader_gen(reader_id)) {
                Ok(_) => Ok(()),
                Err(err) => Err(err),
            }
        }
    }

    /// A reader is suspended where it is, unless it is suspended already.
    pub open spec fn with_suspended(self, reader_id: NumericType) -> Self {
        if self.suspend_result(reader_id) is Ok {
            self.with_reader_gen(reader_id, area::suspended_at(self.reader_gen(reader_id)))
        } else {
            self
        }
    }

    /// What resuming a reader reports: whether it was suspended.
    pub open spec fn resume_result(self, reader_id: NumericType) -> Result<bool, ResumeError> {
        if !self.registered(reader_id) {
            Err(ResumeError::ReaderNotFound)
        } else {
            Ok(area::suspended(self.reader_gen(reader_id)))
        }
    }

    /// A reader is resumed where it is, if it is suspended.
    pub open spec fn with_resumed(self, reader_id: NumericType) -> Self {
        if self.resume_result(reader_id) == Ok::<_, ResumeError>(true) {
            self.with_reader_gen(
                reader_id,
                arithmetics::gen_of(self.reader_gen(reader_id) as int),
            )
        } else {
            self
        }
    }

    /// What resuming a reader at a generation reports: whether it was suspended.
    pub open spec fn resume_at_result(
        self,
        reader_id: NumericType,
        entry_generation: NumericType,
    ) -> Result<bool, ResumeError> {
        if !self.registered(reader_id) {
            Err(ResumeError::ReaderNotFound)
        } else {
            match steps::resume_at_plan(self.reader_gen(reader_id), entry_generation) {
                Ok(plan) => Ok(plan is Some),
                Err(err) => Err(err),
            }
        }
    }

    /// A reader is resumed at a generation, if it is suspended and that generation still valid.
    pub open spec fn with_resumed_at(
        self,
        reader_id: NumericType,
        entry_generation: NumericType,
    ) -> Self {
        if self.resume_at_result(reader_id, entry_generation) == Ok::<_, ResumeError>(true) {
            self.with_reader_gen(reader_id, arithmetics::gen_of(entry_generation as int))
        } else {
            self
        }
    }

    /// There are readers.
    pub open spec fn has_readers(self) -> bool {
        any_taken(self.keys)
    }

    /// The id that a reader who registers with `seed` gets, and its slot, if one is free.
    pub open spec fn registration(self, seed: NumericType) -> Option<(NumericType, int)> {
        let key = steps::seed_key(seed);
        match free_step(self.keys, key, 0) {
            Some(i) => Some(
                (
                    crate::map::logical_key(
                        crate::map::claimed_key(key, crate::map::ZERO_OFFSET, i, self.keys.len(), true),
                    ),
                    crate::map::probe_index(key, crate::map::ZERO_OFFSET, i, self.keys.len()),
                ),
            ),
            None => None,
        }
    }

    /// The slot and the id that a reader who registers gets: the slot is free, and the id leads to
    /// it.
    pub proof fn lemma_registration(self, seed: NumericType)
        requires
            is_pow2(self.keys.len() as int),
            self.keys.len() <= usize::MAX,
            self.keys.len() < crate::map::IN_PROGRESS,
            self.registration(seed) is Some,
        ensures
            ({
                let (reader_id, index) = self.registration(seed)->0;
                &&& 0 <= index < self.keys.len()
                &&& self.keys[index] == crate::map::EMPTY
                &&& area::valid_reader_id(reader_id)
                &&& self.reader_slot(reader_id) == index
            }),
    {
        let key = steps::seed_key(seed);
        let capacity = self.keys.len() as usize;
        let i = free_step(self.keys, key, 0)->0;
        lemma_free_step_found(self.keys, key, 0);
        bits::lemma_power_divides(capacity);
        crate::map::law_folded_key_leads_to_its_slot(key, crate::map::ZERO_OFFSET, i, capacity);
    }

    /// A reader enters at the slot `index`, at the generation that the slot was last moved to.
    pub open spec fn with_reader(self, reader_id: NumericType, index: int) -> Self {
        AreaView {
            keys: self.keys.update(index, reader_id),
            gens: self.gens.update(index, arithmetics::gen_of(self.gens[index] as int)),
            ..self
        }
    }

    /// A reader leaves. Its slot stays, suspended at the generation where it was.
    pub open spec fn without_reader(self, reader_id: NumericType) -> Self {
        let index = self.reader_slot(reader_id);
        AreaView {
            keys: self.keys.update(index, crate::map::EMPTY),
            gens: self.gens.update(index, area::suspended_at(self.gens[index])),
            ..self
        }
    }

    /// `n` more slots are handed out to writers.
    pub open spec fn with_reserved(self, n: int) -> Self {
        AreaView { write_gen: arithmetics::gen_add(self.write_gen, n), ..self }
    }

    /// What publishing the range [start_generation, end_generation) reports.
    pub open spec fn publish_result(
        self,
        start_generation: NumericType,
        end_generation: NumericType,
        exclusive: bool,
    ) -> Result<(), PublishError> {
        if arithmetics::gen_gte(start_generation, end_generation) || self.read_gen
            == start_generation {
            Ok(())
        } else if exclusive {
            Err(PublishError::OutOfOrderPublishAttempt)
        } else {
            Err(PublishError::CasFailed)
        }
    }

    /// The range [start_generation, end_generation) is published if it is not empty and follows on
    /// what is published already.
    pub open spec fn published(
        self,
        start_generation: NumericType,
        end_generation: NumericType,
    ) -> Self {
        if !arithmetics::gen_gte(start_generation, end_generation) && self.read_gen
            == start_generation {
            AreaView { read_gen: end_generation, ..self }
        } else {
            self
        }
    }

    /// The readers' slots after a cleanup has been at the first `n` of them.
    pub open spec fn with_swept(self, n: nat) -> Self {
        AreaView { gens: swept(self.gens, self.read_gen, n), ..self }
    }

    /// Before it has been at any slot, a cleanup has changed none.
    pub proof fn lemma_swept_none(self)
        ensures
            self.with_swept(0) == self,
    {
        lemma_sweep_start(self.gens, self.read_gen);
    }

    /// What the next reader slot does to what a cleanup has gathered.
    pub proof fn lemma_swept_one_more(self, n: nat)
        requires
            n < self.gens.len(),
        ensures
            self.with_swept(n).gens.len() == self.gens.len(),
            self.with_swept(n).gens[n as int] == self.gens[n as int],
            match steps::sweep_plan(
                min_held(self.gens, self.read_gen, n),
                self.gens[n as int],
            ) {
                steps::Sweep::Force(g) => {
                    &&& self.with_swept(n + 1) == (AreaView {
                        gens: self.with_swept(n).gens.update(n as int, g),
                        ..self.with_swept(n)
                    })
                    &&& min_held(self.gens, self.read_gen, n + 1) == min_held(
                        self.gens,
                        self.read_gen,
                        n,
                    )
                },
                steps::Sweep::Keep(g) => {
                    &&& self.with_swept(n + 1) == self.with_swept(n)
                    &&& min_held(self.gens, self.read_gen, n + 1) == g
                },
            },
    {
        lemma_sweep_len(self.gens, self.read_gen, n);
        lemma_sweep_step(self.gens, self.read_gen, n);
    }

    /// The generation from which on everything must be kept.
    pub open spec fn held(self) -> NumericType {
        min_held(self.gens, self.read_gen, self.gens.len())
    }

    /// The places of the `n` generations from `from` on are empty.
    pub open spec fn with_emptied(self, from: NumericType, n: int) -> Self {
        AreaView {
            buffer: Seq::new(
                self.buffer.len(),
                |i: int|
                    if covers(self.capacity(), from, n, i) {
                        None
                    } else {
                        self.buffer[i]
                    },
            ),
            ..self
        }
    }

    /// Emptying the places of no generations changes nothing.
    pub proof fn lemma_emptied_none(self, from: NumericType)
        ensures
            self.with_emptied(from, 0) == self,
    {
        assert(self.with_emptied(from, 0) =~= self);
    }

    /// Emptying one more place.
    pub proof fn lemma_emptied_one_more(self, from: NumericType, k: int)
        requires
            0 <= k,
            self.capacity() > 0,
        ensures
            self.with_emptied(from, k).with_message(arithmetics::gen_add(from, k), None)
                == self.with_emptied(from, k + 1),
    {
        let generation = arithmetics::gen_add(from, k);
        let now = self.with_emptied(from, k).with_message(generation, None);
        let emptied = self.with_emptied(from, k + 1);
        let capacity = self.capacity();
        vstd::arithmetic::div_mod::lemma_mod_bound(generation as usize as int, capacity as int);
        assert forall|i: int| 0 <= i < self.buffer.len() implies now.buffer[i]
            == emptied.buffer[i] by {
            if covers(capacity, from, k, i) {
                let j = choose|j: int|
                    0 <= j < k && #[trigger] steps::slot_index(
                        arithmetics::gen_add(from, j),
                        capacity,
                    ) == i;
                assert(covers(capacity, from, k + 1, i));
            }
            if i == self.place(generation) {
                assert(covers(capacity, from, k + 1, i));
            }
        }
        assert(now =~= emptied);
    }

    /// A cleanup that saw `seen` as last valid generation and must keep everything from `held` on
    /// gets nothing to clean: not by what it saw, or not anymore.
    pub open spec fn nothing_to_clean(self, seen: NumericType, held: NumericType) -> bool {
        arithmetics::gen_gte(seen, held) || arithmetics::gen_gte(self.last_valid_gen, held)
    }

    /// Everything before `held` is cleaned.
    pub open spec fn with_cleaned_up_to(self, held: NumericType) -> Self {
        let emptied = self.with_emptied(
            self.last_valid_gen,
            arithmetics::gen_dist(held, self.last_valid_gen),
        );
        AreaView { last_valid_gen: held, free_gen: held, ..emptied }
    }

    /// There is nothing that could be cleaned, whatever the readers hold.
    pub open spec fn all_clean(self) -> bool {
        arithmetics::gen_gte(self.last_valid_gen, self.read_gen)
    }

    /// What a cleanup reports.
    pub open spec fn cleanup_result(self) -> Result<CleanupResult, CleanupError> {
        if self.all_clean() || self.nothing_to_clean(self.last_valid_gen, self.held()) {
            Err(CleanupError::NothingToClean)
        } else {
            Ok(
                CleanupResult {
                    old_last_valid: self.last_valid_gen,
                    new_last_valid: self.held(),
                    slots_cleaned: arithmetics::gen_dist(
                        self.held(),
                        self.last_valid_gen,
                    ) as NumericType,
                },
            )
        }
    }

    /// A cleanup does not have to wait for another one that is still dropping messages.
    pub open spec fn cleanup_ends(self) -> bool {
        self.cleanup_result() is Ok ==> self.free_gen == self.last_valid_gen
    }

    /// What a cleanup leaves behind.
    pub open spec fn cleaned(self) -> Self {
        if self.all_clean() {
            self
        } else if self.nothing_to_clean(self.last_valid_gen, self.held()) {
            self.with_swept(self.gens.len())
        } else {
            self.with_swept(self.gens.len()).with_cleaned_up_to(self.held())
        }
    }

    /// One of the two groups, the writers and the readers, is gone: one stage less to go. Whoever
    /// takes the last stage cleans up.
    pub open spec fn with_group_gone(self) -> Self {
        let gone = AreaView { destroy_stages: self.destroy_stages.wrapping_sub(1), ..self };
        if self.destroy_stages == 1 {
            gone.cleaned()
        } else {
            gone
        }
    }

    /// A writer enters.
    pub open spec fn with_writer(self) -> Self {
        AreaView { writers_count: self.writers_count.wrapping_add(1), ..self }
    }

    /// A writer leaves. The last one is the end of the writers.
    pub open spec fn with_writer_gone(self) -> Self {
        let left = AreaView { writers_count: self.writers_count.wrapping_sub(1), ..self };
        if self.writers_count == 1 {
            left.with_group_gone()
        } else {
            left
        }
    }

    /// The writer that leaves is the last one there of all.
    pub open spec fn ends_with_writer(self) -> bool {
        self.writers_count == 1 && self.destroy_stages == 1
    }

    /// The readers after one of them has unregistered, if it was registered.
    pub open spec fn with_reader_unregistered(self, reader_id: NumericType) -> Self {
        if self.registered(reader_id) {
            self.without_reader(reader_id)
        } else {
            self
        }
    }

    /// A reader that leaves takes the stage of the readers: none is registered anymore, and none
    /// competes for it.
    pub open spec fn reader_takes_stage(self, reader_id: NumericType) -> bool {
        !self.with_reader_unregistered(reader_id).has_readers() && self.reader_stage_tickets == 0
    }

    /// A reader leaves. The last one is the end of the readers.
    pub open spec fn with_reader_gone(self, reader_id: NumericType) -> Self {
        let left = self.with_reader_unregistered(reader_id);
        if self.reader_takes_stage(reader_id) {
            left.with_group_gone()
        } else {
            left
        }
    }

    /// The reader that leaves is the last one there of all.
    pub open spec fn ends_with_reader(self, reader_id: NumericType) -> bool {
        self.reader_takes_stage(reader_id) && self.destroy_stages == 1
    }

    /// A writer that leaves does not have to wait for a cleanup that is under way.
    pub open spec fn writer_can_leave(self) -> bool {
        self.ends_with_writer() ==> self.cleanup_ends()
    }

    /// A reader that leaves does not have to wait for another one that is just leaving, nor for a
    /// cleanup that is under way.
    pub open spec fn reader_can_leave(self, reader_id: NumericType) -> bool {
        let left = self.with_reader_unregistered(reader_id);
        &&& !left.has_readers() ==> self.reader_keep_alloc_tickets == 0
        &&& self.ends_with_reader(reader_id) ==> left.cleanup_ends()
    }

    /// The stages are those of the groups that are still there, and nobody is just leaving.
    pub open spec fn counted(self) -> bool {
        &&& self.destroy_stages == (if self.writers_count > 0 {
            1int
        } else {
            0
        }) + (if self.has_readers() {
            1int
        } else {
            0
        })
        &&& self.reader_keep_alloc_tickets == 0
        &&& self.reader_stage_tickets == 0
    }

    /// How many generations lie from the oldest slot in use to the given one.
    pub open spec fn offset(self, generation: NumericType) -> int {
        arithmetics::gen_dist(generation, self.free_gen)
    }

    /// The state that an area is in between operations.
    ///
    /// Going round from `free_gen`, the readers come first, then `read_gen`, then `write_gen`, all
    /// within the capacity of the ring buffer.
    pub open spec fn coherent(self) -> bool {
        &&& 0 < self.capacity() <= arithmetics::gen_horizon()
        &&& self.write_gen < arithmetics::gen_period()
        &&& self.read_gen < arithmetics::gen_period()
        &&& self.last_valid_gen < arithmetics::gen_period()
        &&& self.free_gen == self.last_valid_gen
        &&& self.offset(self.read_gen) <= self.offset(self.write_gen) <= self.capacity()
        &&& self.readers_coherent()
    }

    /// The reader slots of an area between operations: each taken one can be found, each other one
    /// is marked as suspended, and each one is at a generation between those that are still valid
    /// and those that are yet to be published.
    pub open spec fn readers_coherent(self) -> bool {
        &&& self.gens.len() == self.keys.len()
        &&& is_pow2(self.keys.len() as int)
        &&& self.keys.len() <= usize::MAX
        &&& self.keys.len() < crate::map::IN_PROGRESS
        &&& crate::map::folded(self.keys)
        &&& forall|i: int|
            0 <= i < self.gens.len() ==> self.offset(#[trigger] self.gens[i]) <= self.offset(
                self.read_gen,
            )
        &&& forall|i: int|
            0 <= i < self.keys.len() && #[trigger] self.keys[i] == crate::map::EMPTY
                ==> area::suspended(self.gens[i])
    }

    /// Slots that are in use at the same time have different places in the ring buffer.
    pub open spec fn places_are_distinct(self) -> bool {
        forall|a: int, b: int|
            0 <= a < b < self.offset(self.write_gen) ==> #[trigger] self.place(
                arithmetics::gen_add(self.free_gen, a),
            ) != #[trigger] self.place(arithmetics::gen_add(self.free_gen, b))
    }

    /// The messages of `n` generations, the oldest of which is `from`.
    pub open spec fn messages(self, from: NumericType, n: int) -> Seq<Option<T>> {
        Seq::new(n as nat, |k: int| self.message(arithmetics::gen_add(from, k)))
    }

    /// The messages that the reader at slot `index` has not passed yet, oldest first.
    pub open spec fn unread(self, index: int) -> Seq<Option<T>> {
        self.messages(self.gens[index], arithmetics::gen_dist(self.read_gen, self.gens[index]))
    }

    /// The stretch of `n` places of the ring buffer that starts with the place of `from`; where it
    /// goes beyond the end of the buffer, it comes in two parts.
    pub open spec fn segments(self, from: NumericType, n: int) -> (Seq<Option<T>>, Seq<Option<T>>) {
        let start = self.place(from);
        let capacity = self.capacity() as int;
        if start + n <= capacity {
            (self.buffer.subrange(start, start + n), Seq::empty())
        } else {
            (self.buffer.subrange(start, capacity), self.buffer.subrange(0, start + n - capacity))
        }
    }
}

} // verus!
