use market_square::area::{
    area, gen_with_suspended_bit, AreaWriterTrait, BoxedAreaInner, CleanupError, CleanupResult,
    ReadError, ReserveError, ResumeError, SUSPENDED_BIT,
};
use market_square::map::{EMPTY, IN_PROGRESS};
use market_square::tasks::{
    exchange, CleanupTask, Event, LeaveTask, ReadTask, Readable, Request, ReserveTask, ResumeTask,
    Search, SearchResult, SearchTask,
};

/// Do what a cleanup asks for, once.
fn carry_out_once(
    inner: &mut BoxedAreaInner<u64>,
    slots: usize,
    task: CleanupTask,
) -> CleanupTask {
    let event = match task {
        CleanupTask::Start => Event::Loaded(inner.load_last_valid_gen()),
        CleanupTask::SawLast { .. } => Event::Loaded(inner.load_read_gen()),
        CleanupTask::AtSlot { index, .. } => Event::Loaded(inner.load_gen(index)),
        CleanupTask::Forcing { min_held, index, seen, .. } => {
            inner.exchange_gen(index, seen, gen_with_suspended_bit(min_held))
        }
        CleanupTask::Claiming { last_valid, min_held } => {
            inner.exchange_last_valid_gen::<()>(last_valid, min_held)
        }
        CleanupTask::Dropping { last_valid, done, .. } => {
            inner.drop_message(last_valid + done);
            Event::Done
        }
        CleanupTask::Freeing { last_valid, min_held } => {
            inner.exchange_free_gen::<()>(last_valid, min_held)
        }
        CleanupTask::Ended(_) => Event::Done,
    };
    task.next(slots, event)
}

fn carry_out(
    inner: &mut BoxedAreaInner<u64>,
    slots: usize,
    task: CleanupTask,
) -> Result<CleanupResult, CleanupError> {
    let mut task = task;
    loop {
        if let CleanupTask::Ended(result) = task {
            return result;
        }
        task = carry_out_once(inner, slots, task);
    }
}

fn say(inner: &mut BoxedAreaInner<u64>, n: usize) {
    let (start, end) = inner.try_reserve_slots::<()>(n).unwrap();
    for generation in start..end {
        inner.get_slot_ptr_mut(generation).write(generation);
    }
    inner.publish_slots::<()>(start, end).unwrap();
}

#[test]
fn numbers_are_exchanged_only_from_what_is_expected() {
    let mut number = 5;
    assert_eq!(exchange(&mut number, 4, 9), Event::Changed(5));
    assert_eq!(number, 5);
    assert_eq!(exchange(&mut number, 5, 9), Event::Exchanged);
    assert_eq!(number, 9);
}

#[test]
fn a_reservation_goes_from_stage_to_stage() {
    let request = Request { capacity: 4, n: 3, best_effort: false };
    let task = ReserveTask::Start.next(request, Event::Loaded(2));
    assert_eq!(task, ReserveTask::SawFree { free: 2 });
    let task = task.next(request, Event::Loaded(3));
    assert_eq!(task, ReserveTask::Planned { start: 3, end: 6, count: 3 });
    assert_eq!(task.next(request, Event::Exchanged), ReserveTask::Ended(Ok((3, 6, 3))));
    // Somebody else has taken slots in the meantime.
    assert_eq!(
        task.next(request, Event::Changed(4)),
        ReserveTask::Ended(Err(ReserveError::FailedGrab))
    );

    let task = ReserveTask::SawFree { free: 2 };
    assert_eq!(
        task.next(request, Event::Loaded(4)),
        ReserveTask::Ended(Err(ReserveError::NoSpace))
    );
    let request = Request { best_effort: true, ..request };
    assert_eq!(
        task.next(request, Event::Loaded(4)),
        ReserveTask::Planned { start: 4, end: 6, count: 2 }
    );
    assert_eq!(task.next(request, Event::Loaded(6)), ReserveTask::Ended(Ok((0, 0, 0))));
}

#[test]
fn a_lost_reservation_takes_nothing() {
    let (mut inner, writer, _reader) = area::<u64>(4, 2);
    let request = Request { capacity: 4, n: 2, best_effort: false };
    let task = ReserveTask::Start.next(request, Event::Loaded(inner.load_free_gen()));
    let task = task.next(request, Event::Loaded(inner.load_write_gen()));
    // Another writer comes in between.
    writer.try_reserve_slots::<()>(&mut inner, 1).unwrap();
    let task = match task {
        ReserveTask::Planned { start, end, .. } => {
            task.next(request, inner.exchange_write_gen::<()>(start, end))
        }
        _ => panic!("there was room"),
    };
    assert_eq!(task, ReserveTask::Ended(Err(ReserveError::FailedGrab)));
    assert_eq!(inner.load_write_gen(), 1);
}

#[test]
fn a_cleanup_goes_from_stage_to_stage() {
    let slots = 2;
    let task = CleanupTask::Start.next(slots, Event::Loaded(3));
    assert_eq!(task, CleanupTask::SawLast { last_valid: 3 });
    assert_eq!(
        task.next(slots, Event::Loaded(3)),
        CleanupTask::Ended(Err(CleanupError::NothingToClean))
    );
    let task = task.next(slots, Event::Loaded(9));
    assert_eq!(task, CleanupTask::AtSlot { last_valid: 3, min_held: 9, index: 0 });
    let seen = 4 + SUSPENDED_BIT;
    let task = task.next(slots, Event::Loaded(seen));
    assert_eq!(task, CleanupTask::Forcing { last_valid: 3, min_held: 9, index: 0, seen });
    // The reader has come back.
    assert_eq!(
        task.next(slots, Event::Changed(4)),
        CleanupTask::AtSlot { last_valid: 3, min_held: 4, index: 1 }
    );
    // Another cleanup has moved it.
    assert_eq!(
        task.next(slots, Event::Changed(6 + SUSPENDED_BIT)),
        CleanupTask::Forcing { last_valid: 3, min_held: 9, index: 0, seen: 6 + SUSPENDED_BIT }
    );
    let task = task.next(slots, Event::Exchanged);
    assert_eq!(task, CleanupTask::AtSlot { last_valid: 3, min_held: 9, index: 1 });
    let task = task.next(slots, Event::Loaded(5));
    assert_eq!(task, CleanupTask::Claiming { last_valid: 3, min_held: 5 });
    // Others have cleaned a part of it, or all.
    assert_eq!(
        task.next(slots, Event::Changed(4)),
        CleanupTask::Claiming { last_valid: 4, min_held: 5 }
    );
    assert_eq!(
        task.next(slots, Event::Changed(5)),
        CleanupTask::Ended(Err(CleanupError::NothingToClean))
    );
    let task = task.next(slots, Event::Exchanged);
    assert_eq!(task, CleanupTask::Dropping { last_valid: 3, min_held: 5, done: 0 });
    let task = task.next(slots, Event::Done);
    assert_eq!(task, CleanupTask::Dropping { last_valid: 3, min_held: 5, done: 1 });
    let task = task.next(slots, Event::Done);
    assert_eq!(task, CleanupTask::Freeing { last_valid: 3, min_held: 5 });
    // Another cleanup is still working.
    assert_eq!(task.next(slots, Event::Changed(2)), task);
    assert_eq!(
        task.next(slots, Event::Exchanged),
        CleanupTask::Ended(Ok(CleanupResult {
            old_last_valid: 3,
            new_last_valid: 5,
            slots_cleaned: 2
        }))
    );
}

#[test]
fn a_reader_that_enters_behind_a_cleanup_enters_at_what_is_kept() {
    let (mut inner, writer, mut reader) = area::<u64>(16, 4);
    say(&mut inner, 5);
    reader.suspend(&mut inner).unwrap();

    // The cleanup has been at the first three slots when a reader enters at one of them.
    let mut task = CleanupTask::Start;
    loop {
        if let CleanupTask::AtSlot { index: 3, .. } = task {
            break;
        }
        task = carry_out_once(&mut inner, 4, task);
    }
    let late = reader.create_reader_with_seed(&mut inner, 2).unwrap();
    assert_eq!(late.get_gen(&inner), 5);
    let result = carry_out(&mut inner, 4, task).unwrap();
    assert_eq!(result.new_last_valid, 5);
    assert_eq!(late.get_gen(&inner), inner.load_last_valid_gen());
    assert_eq!(writer.get_writers_count(&inner), 1);
}

#[test]
fn a_reader_that_enters_ahead_of_a_cleanup_is_heeded() {
    let (mut inner, _writer, mut reader) = area::<u64>(16, 4);
    say(&mut inner, 5);
    reader.suspend(&mut inner).unwrap();

    let mut task = CleanupTask::Start;
    loop {
        if let CleanupTask::AtSlot { index: 1, .. } = task {
            break;
        }
        task = carry_out_once(&mut inner, 4, task);
    }
    // The reader enters at a slot that the cleanup has yet to look at.
    let mut late = reader.create_reader_with_seed(&mut inner, 3).unwrap();
    assert_eq!(late.get_gen(&inner), 0);
    assert_eq!(carry_out(&mut inner, 4, task), Err(CleanupError::NothingToClean));
    let slice = late.read(&inner);
    assert_eq!(slice.len(), 5);
    for i in 0..5 {
        assert_eq!(*slice.get(&inner, i).unwrap(), i as u64);
    }
}

#[test]
fn a_cleanup_that_is_overtaken_cleans_the_rest() {
    let (mut inner, _writer, mut reader) = area::<u64>(16, 2);
    say(&mut inner, 3);
    reader.advance(&mut inner, 2).unwrap();

    // One cleanup finds that everything before 2 can go, and is overtaken before it claims it.
    let mut task = CleanupTask::Start;
    while !matches!(task, CleanupTask::Claiming { .. }) {
        task = carry_out_once(&mut inner, 2, task);
    }
    let overtaker = inner.try_cleanup_old_slots::<()>().unwrap();
    assert_eq!(overtaker.slots_cleaned, 2);
    assert_eq!(carry_out(&mut inner, 2, task), Err(CleanupError::NothingToClean));

    // Two cleanups, the second of which goes further.
    say(&mut inner, 3);
    reader.advance(&mut inner, 2).unwrap();
    let mut first = CleanupTask::Start;
    while !matches!(first, CleanupTask::Dropping { .. }) {
        first = carry_out_once(&mut inner, 2, first);
    }
    reader.advance(&mut inner, 1).unwrap();
    let mut second = CleanupTask::Start;
    while !matches!(second, CleanupTask::Freeing { .. }) {
        second = carry_out_once(&mut inner, 2, second);
    }
    // The second one must wait for the first one.
    assert_eq!(carry_out_once(&mut inner, 2, second), second);
    assert_eq!(inner.load_free_gen(), 2);
    assert_eq!(carry_out(&mut inner, 2, first).unwrap().new_last_valid, 4);
    assert_eq!(carry_out(&mut inner, 2, second).unwrap().slots_cleaned, 1);
    assert_eq!(inner.load_free_gen(), 5);
    assert!(inner.get_slot_ptr_const(4).get().is_none());
    assert_eq!(inner.get_slot_ptr_const(5).get(), Some(&5));
}

#[test]
fn resuming_goes_from_stage_to_stage() {
    let task = ResumeTask::Start;
    assert_eq!(task.next(None, Event::Loaded(5)), ResumeTask::Ended(Ok(false)));
    let away = 5 + SUSPENDED_BIT;
    let resuming = task.next(None, Event::Loaded(away));
    assert_eq!(resuming, ResumeTask::Resuming { expected: away, desired: 5 });
    assert_eq!(resuming.next(None, Event::Exchanged), ResumeTask::Ended(Ok(true)));
    // A cleanup has moved the slot: look again.
    assert_eq!(resuming.next(None, Event::Changed(8 + SUSPENDED_BIT)), ResumeTask::Start);

    assert_eq!(
        task.next(Some(7), Event::Loaded(away)),
        ResumeTask::Resuming { expected: away, desired: 7 }
    );
    assert_eq!(
        task.next(Some(4), Event::Loaded(away)),
        ResumeTask::Ended(Err(ResumeError::GenerationTooOld))
    );
}

#[test]
fn a_search_goes_from_slot_to_slot() {
    let search = Search {
        key: 7,
        placement_offset: 0,
        limit: 3,
        capacity: 8,
        insert: true,
        fold: false,
    };
    let task = SearchTask::start(search);
    assert_eq!(task, SearchTask::At { i: 0, index: 7 });
    let task = task.next(search, Event::Loaded(15));
    assert_eq!(task, SearchTask::At { i: 1, index: 0 });
    assert_eq!(
        task.next(search, Event::Loaded(7)),
        SearchTask::Ended(Some(SearchResult { is_new: false, delta: 1, key: 7, index: 0 }))
    );
    let claiming = task.next(search, Event::Loaded(EMPTY));
    let key = 7 | IN_PROGRESS;
    assert_eq!(claiming, SearchTask::Claiming { i: 1, index: 0, key });
    assert_eq!(
        claiming.next(search, Event::Exchanged),
        SearchTask::Ended(Some(SearchResult { is_new: true, delta: 1, key, index: 0 }))
    );
    // Somebody else has put the same key there.
    assert_eq!(
        claiming.next(search, Event::Changed(key)),
        SearchTask::Ended(Some(SearchResult { is_new: false, delta: 1, key, index: 0 }))
    );
    // Somebody else has put another key there.
    let task = claiming.next(search, Event::Changed(15));
    assert_eq!(task, SearchTask::At { i: 2, index: 1 });
    assert_eq!(task.next(search, Event::Loaded(15)), SearchTask::Ended(None));
    let nowhere = Search { limit: 0, ..search };
    assert_eq!(SearchTask::start(nowhere), SearchTask::Ended(None));
}

#[test]
fn leaving_goes_from_stage_to_stage() {
    let slots = 2;
    assert_eq!(
        LeaveTask::LeavingWriters.next(slots, Event::Loaded(2)),
        LeaveTask::Ended { last: false }
    );
    assert_eq!(LeaveTask::LeavingWriters.next(slots, Event::Loaded(1)), LeaveTask::Staging);

    let task = LeaveTask::Entering.next(slots, Event::Done);
    assert_eq!(task, LeaveTask::Unregistering);
    let task = task.next(slots, Event::Done);
    assert_eq!(task, LeaveTask::LookingAround { index: 0 });
    let task = task.next(slots, Event::Loaded(EMPTY));
    assert_eq!(task, LeaveTask::LookingAround { index: 1 });
    // There is another reader.
    let staying = task.next(slots, Event::Loaded(5));
    assert_eq!(staying, LeaveTask::Releasing { competing: false });
    assert_eq!(staying.next(slots, Event::Done), LeaveTask::Ended { last: false });
    // There is none.
    let task = task.next(slots, Event::Loaded(EMPTY));
    assert_eq!(task, LeaveTask::Applying);
    let task = task.next(slots, Event::Done);
    assert_eq!(task, LeaveTask::Releasing { competing: true });
    let task = task.next(slots, Event::Done);
    assert_eq!(task, LeaveTask::Waiting);
    assert_eq!(task.next(slots, Event::Loaded(1)), LeaveTask::Waiting);
    let task = task.next(slots, Event::Loaded(0));
    assert_eq!(task, LeaveTask::Competing);
    assert_eq!(task.next(slots, Event::Loaded(2)), LeaveTask::Ended { last: false });
    let task = task.next(slots, Event::Loaded(1));
    assert_eq!(task, LeaveTask::Staging);
    assert_eq!(task.next(slots, Event::Loaded(2)), LeaveTask::Ended { last: false });
    assert_eq!(task.next(slots, Event::Loaded(1)), LeaveTask::Ended { last: true });
}

#[test]
fn reading_with_a_check_goes_from_stage_to_stage() {
    let task = ReadTask::Start.next(Event::Loaded(SUSPENDED_BIT | 3));
    assert_eq!(task, ReadTask::At { start: 3 });
    // There is something to read.
    assert_eq!(
        task.next(Event::Loaded(5)),
        ReadTask::Ended(Ok(Readable { start: 3, end: 5, armed: true }))
    );
    // There is nothing to read.
    let task = task.next(Event::Loaded(3));
    assert_eq!(task, ReadTask::LookingForWriters { start: 3 });
    assert_eq!(
        task.next(Event::Loaded(2)),
        ReadTask::Ended(Ok(Readable { start: 3, end: 3, armed: false }))
    );
    // There are no writers either.
    let task = task.next(Event::Loaded(0));
    assert_eq!(task, ReadTask::Again);
    let task = task.next(Event::Loaded(3));
    assert_eq!(task, ReadTask::AgainAt { start: 3 });
    assert_eq!(task.next(Event::Loaded(3)), ReadTask::Ended(Err(ReadError)));
    // The last one has said something before it left.
    assert_eq!(
        task.next(Event::Loaded(4)),
        ReadTask::Ended(Ok(Readable { start: 3, end: 4, armed: true }))
    );
    assert_eq!(task.next(Event::Done), task);
}

#[test]
fn what_is_posted_before_the_last_writer_leaves_is_read_first() {
    let (mut inner, writer, mut reader) = area::<u64>(4, 2);
    let id = reader.reader_id();
    let task = ReadTask::Start.next(Event::Loaded(inner.get_reader_gen(id).unwrap()));
    let task = task.next(Event::Loaded(inner.load_read_gen()));
    // Meanwhile a message is posted, and the writer leaves.
    say(&mut inner, 1);
    assert!(!writer.drop(&mut inner));
    let task = task.next(Event::Loaded(inner.load_writers_count() as u64));
    assert_eq!(task, ReadTask::Again);
    let task = task.next(Event::Loaded(inner.get_reader_gen(id).unwrap()));
    assert_eq!(
        task.next(Event::Loaded(inner.load_read_gen())),
        ReadTask::Ended(Ok(Readable { start: 0, end: 1, armed: true }))
    );
    // Once it is read, nothing more will come.
    let slice = reader.read_with_check(&inner).unwrap();
    assert_eq!(slice.len(), 1);
    slice.drop(&mut inner);
    assert!(reader.read_with_check(&inner).is_err());
}
