use market_square::area::{
    area, finish_init, is_suspended, AreaInner, AreaWriterTrait, CleanupError, Exclusive,
    PublishError, ReadError, ReadSlice, RegisterError, ReserveError, ResumeError, SetGenError,
    SuspendError, UnregisterError, SUSPENDED_BIT,
};
use market_square::map::{SimpleLPHashMap, Slot, EMPTY};
use market_square::place::Place;
use market_square::storage::{BoxedSliceStorage, BoxedStorage, StaticSliceStorage, StaticStorage};
use market_square::tasks::Event;

fn contents(places: &[Place<u64>]) -> Vec<Option<u64>> {
    places.iter().map(|place| place.get().copied()).collect()
}

#[test]
fn every_reader_hears_everything_since_it_entered() {
    let (mut inner, writer, mut first) = area::<String>(4, 4);
    let mut heard_by_first: Vec<String> = Vec::new();
    let mut heard_by_second: Vec<String> = Vec::new();
    let mut second = None;
    for round in 0..9 {
        if round == 3 {
            second = Some(first.create_reader(&mut inner).unwrap());
        }
        let mut reservation = writer.reserve::<()>(&mut inner, 2).unwrap();
        reservation.get_mut(&mut inner, 0).unwrap().write(format!("{}a", round));
        reservation.get_mut(&mut inner, 1).unwrap().write(format!("{}b", round));
        reservation.publish_spin(&mut inner);

        let slice = first.read(&inner);
        let mut messages = slice.iter();
        while let Some(message) = messages.next(&inner) {
            heard_by_first.push(message.clone());
        }
        slice.drop(&mut inner);
        if let Some(second) = second.as_mut() {
            let slice = second.read(&inner);
            let mut messages = slice.iter();
            while let Some(message) = messages.next(&inner) {
                heard_by_second.push(message.clone());
            }
            slice.drop(&mut inner);
        }
        let result = writer.try_cleanup_old_slots::<()>(&mut inner).unwrap();
        assert_eq!(result.slots_cleaned, 2);
    }
    let said: Vec<String> = (0..9).flat_map(|r| [format!("{}a", r), format!("{}b", r)]).collect();
    assert_eq!(heard_by_first, said);
    assert_eq!(heard_by_second, said[6..]);
}

#[test]
fn a_message_stays_until_every_active_reader_has_passed_it() {
    let (mut inner, writer, mut fast) = area::<u64>(8, 4);
    let mut slow = fast.create_reader_with_seed(&mut inner, 2).unwrap();
    let (start, end) = writer.try_reserve_slots::<()>(&mut inner, 4).unwrap();
    for g in start..end {
        writer.get_slot_ptr(&mut inner, g).write(g * 10);
    }
    writer.publish_slots::<()>(&mut inner, start, end).unwrap();

    fast.advance(&mut inner, 4).unwrap();
    assert_eq!(
        fast.try_cleanup_old_slots::<()>(&mut inner),
        Err(CleanupError::NothingToClean)
    );
    slow.advance(&mut inner, 1).unwrap();
    let slice = slow.read(&inner);
    assert_eq!(slice.try_cleanup_old_slots::<()>(&mut inner).unwrap().slots_cleaned, 1);
    assert!(inner.get_slot_ptr_const(0).get().is_none());
    assert_eq!(slice.len(), 3);
    assert_eq!(*slice.get(&inner, 0).unwrap(), 10);
    assert_eq!(*slice.get(&inner, 2).unwrap(), 30);
    slice.drop(&mut inner);

    // One that is suspended does not hold anything up, and is moved forward.
    slow.suspend(&mut inner).unwrap();
    let (start, end) = writer.try_reserve_slots::<()>(&mut inner, 2).unwrap();
    writer.publish_slots::<()>(&mut inner, start, end).unwrap();
    fast.advance(&mut inner, 2).unwrap();
    let result = writer.try_cleanup_old_slots::<Exclusive>(&mut inner).unwrap();
    assert_eq!(result.old_last_valid, 1);
    assert_eq!(result.new_last_valid, 6);
    assert_eq!(slow.get_gen(&inner), 6 + SUSPENDED_BIT);
    assert_eq!(slow.resume(&mut inner), Ok(true));
    assert_eq!(slow.get_gen(&inner), 6);
    assert_eq!(slow.resume(&mut inner), Ok(false));
}

#[test]
fn readers_are_also_writers() {
    let (mut inner, writer, mut first) = area::<u64>(8, 4);
    assert!(!writer.drop(&mut inner));
    let second = first.create_reader_with_seed(&mut inner, 9).unwrap();
    let mut reservation = second.reserve::<()>(&mut inner, 1).unwrap();
    reservation.get_mut(&mut inner, 0).unwrap().write(5);
    assert!(reservation.get_mut(&mut inner, 1).is_none());
    reservation.publish_spin(&mut inner);
    let slice = first.read(&inner);
    assert_eq!(*slice.get(&inner, 0).unwrap(), 5);
    slice.drop(&mut inner);
    assert_eq!(first.get_writers_count(&inner), 0);
    assert_eq!(first.try_reserve_slots_best_effort::<()>(&mut inner, 3), Ok((1, 4, 3)));
    assert!(!first.drop(&mut inner));
    assert!(second.drop(&mut inner));
}

#[test]
fn what_is_published_at_the_end_is_dropped_with_the_last_handle() {
    let (mut inner, writer, reader) = area::<u64>(8, 2);
    let (start, end) = writer.try_reserve_slots::<()>(&mut inner, 2).unwrap();
    for g in start..end {
        writer.get_slot_ptr(&mut inner, g).write(g);
    }
    writer.publish_slots::<()>(&mut inner, start, end).unwrap();
    assert!(!writer.drop(&mut inner));
    assert_eq!(inner.get_slot_ptr_const(0).get(), Some(&0));
    assert!(reader.drop(&mut inner));
    assert_eq!(inner.load_last_valid_gen(), 2);
    assert!(inner.get_slot_ptr_const(0).get().is_none());
    assert!(inner.get_slot_ptr_const(1).get().is_none());
    inner.deallocate();
}

#[test]
fn reading_with_check_tells_when_nobody_writes_anymore() {
    let (mut inner, writer, mut reader) = area::<u64>(8, 2);
    {
        // Nothing to read, but somebody who may write
        let slice = reader.read_with_check(&inner).unwrap();
        assert!(slice.is_empty());
        assert_eq!(slice.len(), 0);
        slice.drop(&mut inner);
    }
    assert_eq!(reader.get_gen(&inner), 0);
    let (start, end) = writer.try_reserve_slots::<Exclusive>(&mut inner, 1).unwrap();
    writer.get_slot_ptr(&mut inner, start).write(3);
    writer.publish_slots::<Exclusive>(&mut inner, start, end).unwrap();
    writer.drop(&mut inner);
    {
        // Nobody who may write, but something to read
        let slice = reader.read_with_check(&inner).unwrap();
        assert_eq!(*slice.get(&inner, 0).unwrap(), 3);
        slice.drop(&mut inner);
    }
    assert_eq!(reader.read_with_check(&inner).err(), Some(ReadError));
}

#[test]
fn a_disarmed_slice_does_not_advance_the_reader() {
    let (mut inner, writer, mut reader) = area::<u64>(8, 2);
    let (start, end) = writer.try_reserve_slots::<()>(&mut inner, 3).unwrap();
    for g in start..end {
        writer.get_slot_ptr(&mut inner, g).write(g);
    }
    writer.publish_slots::<()>(&mut inner, start, end).unwrap();

    let mut slice = reader.read(&inner);
    slice.disarm();
    slice.drop(&mut inner);
    assert_eq!(reader.get_gen(&inner), 0);

    let slice = ReadSlice::new_disarmed(&mut reader, 1, 3);
    assert_eq!(slice.len(), 2);
    assert_eq!(*slice.get(&inner, 0).unwrap(), 1);
    let (reader, start, end, armed) = slice.into_raw_parts();
    assert_eq!((start, end, armed), (1, 3, false));
    assert_eq!(reader.get_gen(&inner), 0);

    let (reader, start, end, armed) = reader.read(&inner).into_raw_parts();
    assert_eq!((start, end, armed), (0, 3, true));
    reader.advance(&mut inner, 3).unwrap();
    assert_eq!(reader.get_gen(&inner), 3);
}

#[test]
fn a_slice_that_goes_round_comes_in_two_parts() {
    let (mut inner, writer, mut reader) = area::<u64>(4, 2);
    let (start, end) = writer.try_reserve_slots::<()>(&mut inner, 3).unwrap();
    for g in start..end {
        writer.get_slot_ptr(&mut inner, g).write(g);
    }
    writer.publish_slots::<()>(&mut inner, start, end).unwrap();
    reader.advance(&mut inner, 2).unwrap();
    writer.try_cleanup_old_slots::<()>(&mut inner).unwrap();
    let (start, end) = writer.try_reserve_slots::<()>(&mut inner, 3).unwrap();
    assert_eq!((start, end), (3, 6));
    for g in start..end {
        writer.get_slot_ptr(&mut inner, g).write(g);
    }
    writer.publish_slots::<()>(&mut inner, start, end).unwrap();

    let slice = reader.read(&inner);
    let (first, second) = slice.as_slices(&inner);
    assert_eq!(contents(first), [Some(2), Some(3)]);
    assert_eq!(contents(second), [Some(4), Some(5)]);
    slice.drop(&mut inner);
    let slice = reader.read(&inner);
    assert!(slice.is_empty());
    let (first, second) = slice.as_slices(&inner);
    assert!(first.is_empty() && second.is_empty());
}

#[test]
fn the_counter_may_start_again() {
    let (mut inner, writer, mut reader) = area::<u64>(8, 2);
    // Move everything to just before the end of the range.
    let near = 0x7fff_ffff_ffff_fffe;
    let mut at = 0;
    for next in [0x3000_0000_0000_0000, 0x6000_0000_0000_0000, near] {
        assert_eq!(inner.exchange_write_gen::<()>(at, next), Event::Exchanged);
        inner.publish_slots::<()>(at, next).unwrap();
        reader.advance(&mut inner, next - at).unwrap();
        assert_eq!(inner.exchange_last_valid_gen::<()>(at, next), Event::Exchanged);
        assert_eq!(inner.exchange_free_gen::<()>(at, next), Event::Exchanged);
        at = next;
    }
    let (start, end) = writer.try_reserve_slots::<()>(&mut inner, 5).unwrap();
    assert_eq!((start, end), (near, 3));
    for (i, g) in [near, near + 1, 0, 1, 2].iter().enumerate() {
        writer.get_slot_ptr(&mut inner, *g).write(i as u64);
    }
    writer.publish_slots::<()>(&mut inner, start, end).unwrap();
    let slice = reader.read(&inner);
    assert_eq!(slice.len(), 5);
    for i in 0..5 {
        assert_eq!(*slice.get(&inner, i).unwrap(), i as u64);
    }
    let (first, second) = slice.as_slices(&inner);
    assert_eq!(contents(first), [Some(0), Some(1)]);
    assert_eq!(contents(second), [Some(2), Some(3), Some(4)]);
    slice.drop(&mut inner);
    assert_eq!(reader.get_gen(&inner), 3);
    let result = writer.try_cleanup_old_slots::<()>(&mut inner).unwrap();
    assert_eq!(result.slots_cleaned, 5);
    assert_eq!(result.new_last_valid, 3);
}

#[test]
fn publishing_is_in_order() {
    let (mut inner, writer, _reader) = area::<u64>(8, 2);
    let (start1, end1) = writer.try_reserve_slots::<()>(&mut inner, 1).unwrap();
    let (start2, end2) = writer.try_reserve_slots::<()>(&mut inner, 1).unwrap();
    assert_eq!(
        writer.publish_slots::<Exclusive>(&mut inner, start2, end2),
        Err(PublishError::OutOfOrderPublishAttempt)
    );
    assert_eq!(
        writer.publish_slots::<()>(&mut inner, start2, end2),
        Err(PublishError::CasFailed)
    );
    // Nothing to publish
    assert_eq!(writer.publish_slots::<()>(&mut inner, start2, start2), Ok(()));
    assert_eq!(inner.load_read_gen(), 0);
    writer.publish_slots::<()>(&mut inner, start1, end1).unwrap();
    writer.publish_slots::<Exclusive>(&mut inner, start2, end2).unwrap();
    assert_eq!(inner.load_read_gen(), 2);
}

#[test]
fn operations_of_readers_report_errors() {
    let (mut inner, writer, mut reader) = area::<u64>(8, 2);
    let (start, end) = writer.try_reserve_slots::<()>(&mut inner, 3).unwrap();
    writer.publish_slots::<()>(&mut inner, start, end).unwrap();

    assert_eq!(reader.advance(&mut inner, 0), Err(SetGenError::InvalidGeneration));
    assert_eq!(inner.set_reader_gen(77, 1), Err(SetGenError::ReaderNotFound));
    assert_eq!(inner.get_reader_gen(77), None);
    assert_eq!(inner.suspend_reader(77), Err(SuspendError::ReaderNotFound));
    assert_eq!(inner.resume_reader(77), Err(ResumeError::ReaderNotFound));
    assert_eq!(inner.resume_reader_at(77, 0), Err(ResumeError::ReaderNotFound));
    assert_eq!(inner.unregister_reader(77), Err(UnregisterError::ReaderNotFound));

    reader.advance(&mut inner, 2).unwrap();
    assert_eq!(reader.resume_at(&mut inner, 0), Ok(false));
    reader.suspend(&mut inner).unwrap();
    assert_eq!(reader.resume_at(&mut inner, 1), Err(ResumeError::GenerationTooOld));
    assert!(is_suspended(reader.get_gen(&inner)));
    assert_eq!(reader.resume_at(&mut inner, 3), Ok(true));
    assert_eq!(reader.get_gen(&inner), 3);

    // Everything has been read, but nothing cleaned.
    assert_eq!(writer.try_cleanup_old_slots::<()>(&mut inner).unwrap().slots_cleaned, 3);
    assert_eq!(
        writer.try_cleanup_old_slots::<()>(&mut inner),
        Err(CleanupError::NothingToClean)
    );
}

#[test]
fn ids_of_readers_are_unique_and_slots_are_used_again() {
    let (mut inner, _writer, reader) = area::<u64>(8, 4);
    let mut ids = vec![reader.reader_id()];
    let mut readers = Vec::new();
    for _ in 0..3 {
        let other = reader.create_reader_with_seed(&mut inner, 1).unwrap();
        assert!(!ids.contains(&other.reader_id()));
        ids.push(other.reader_id());
        readers.push(other);
    }
    assert_eq!(
        reader.create_reader(&mut inner).err(),
        Some(RegisterError::ReaderCapacityReached)
    );
    assert!(inner.has_readers());
    let left = readers.pop().unwrap();
    let id = left.reader_id();
    assert!(!left.drop(&mut inner));
    assert_eq!(inner.get_reader_gen(id), None);
    assert_eq!(inner.unregister_reader(id), Err(UnregisterError::ReaderNotFound));
    // Seeds that are no keys are made into ones.
    let other = reader.create_reader_with_seed(&mut inner, 0).unwrap();
    assert!(inner.get_reader_gen(other.reader_id()).is_some());
}

#[test]
fn an_area_in_memory_from_elsewhere() {
    let slots = Box::leak(Box::new([
        Slot { key: EMPTY, value: Place::new(SUSPENDED_BIT) },
        Slot { key: EMPTY, value: Place::new(SUSPENDED_BIT) },
    ]));
    let buffer: &'static mut [Place<u64>] = Box::leak(Box::new([
        Place::uninit(),
        Place::uninit(),
        Place::uninit(),
        Place::uninit(),
    ]));
    let mut inner = AreaInner::init(
        SimpleLPHashMap::from_storage(StaticSliceStorage::from_static(slots)),
        StaticSliceStorage::from_static(buffer),
        StaticStorage::from_raw(Box::leak(Box::new(2))),
        StaticStorage::from_raw(Box::leak(Box::new(0))),
        StaticStorage::from_raw(Box::leak(Box::new(0))),
    );
    assert_eq!(inner.buffer_capacity(), 4);
    let (writer, mut reader) = finish_init(&mut inner);

    let mut reservation = writer.reserve::<()>(&mut inner, 3).expect("Failed to reserve");
    reservation.get_mut(&mut inner, 0).unwrap().write(100);
    reservation.get_mut(&mut inner, 1).unwrap().write(200);
    reservation.get_mut(&mut inner, 2).unwrap().write(300);
    reservation.publish_spin(&mut inner);

    let slice = reader.read(&inner);
    assert_eq!(slice.len(), 3);
    assert_eq!(*slice.get(&inner, 2).unwrap(), 300);
    slice.drop(&mut inner);
    assert_eq!(contents(inner.buffer()), [Some(100), Some(200), Some(300), None]);
    assert!(!reader.drop(&mut inner));
    assert!(writer.drop(&mut inner));
    inner.deallocate();
}

#[test]
fn the_only_writer_need_not_check() {
    let (mut inner, writer, _reader) = area::<u64>(4, 2);
    assert_eq!(writer.try_reserve_slots::<Exclusive>(&mut inner, 3), Ok((0, 3)));
    assert_eq!(
        writer.try_reserve_slots::<Exclusive>(&mut inner, 2),
        Err(ReserveError::NoSpace)
    );
    assert_eq!(
        writer.try_reserve_slots_best_effort::<Exclusive>(&mut inner, 2),
        Ok((3, 4, 1))
    );
    assert!(writer.reserve_best_effort::<Exclusive>(&mut inner, 2).unwrap().is_empty());
}

#[test]
fn a_reservation_can_be_split_at_its_ends() {
    let (mut inner, writer, _reader) = area::<u64>(4, 2);
    let (left, right) = writer.reserve::<()>(&mut inner, 3).unwrap().split_at_mut(0);
    assert!(left.is_empty());
    assert_eq!(right.len(), 3);
    let (left, right) = right.split_at_mut(3);
    assert_eq!(left.len(), 3);
    assert!(right.is_empty());
}

#[test]
fn with_nothing_to_clean_a_cleanup_waits_for_nobody() {
    let (mut inner, writer, mut reader) = area::<u64>(4, 2);
    let mut reservation = writer.reserve::<()>(&mut inner, 1).unwrap();
    reservation.get_mut(&mut inner, 0).unwrap().write(5);
    reservation.publish_spin(&mut inner);
    reader.advance(&mut inner, 1).unwrap();
    // Another cleanup has claimed the message, and has yet to free its slot.
    assert_eq!(inner.exchange_last_valid_gen::<()>(0, 1), Event::Exchanged);
    assert_eq!(
        writer.try_cleanup_old_slots::<()>(&mut inner),
        Err(CleanupError::NothingToClean)
    );
    assert_eq!((inner.load_last_valid_gen(), inner.load_free_gen()), (1, 0));
}

#[test]
fn a_reader_that_is_not_the_last_one_waits_for_nobody() {
    let readers = SimpleLPHashMap::with_capacity_and_init(2, || SUSPENDED_BIT);
    // Another reader is just leaving.
    let mut inner = AreaInner::init(
        readers,
        BoxedSliceStorage::with_capacity_and_init(2, || Place::<u64>::uninit()),
        BoxedStorage::new(2),
        BoxedStorage::new(1),
        BoxedStorage::new(0),
    );
    let (_writer, reader) = finish_init(&mut inner);
    let other = reader.create_reader_with_seed(&mut inner, 2).unwrap();
    assert!(!reader.drop(&mut inner));
    assert!(inner.has_readers());
    assert_eq!(inner.get_reader_gen(other.reader_id()), Some(0));
}
