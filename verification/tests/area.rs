use market_square::area::{
    area, is_suspended, AreaWriterTrait, PublishError, RegisterError, ReserveError, SetGenError,
    SuspendError,
};
use std::cell::Cell;
use std::rc::Rc;

#[test]
fn test_basic_writer_reserve_and_publish() {
    let (mut inner, writer, reader) = area::<u64>(16, 8);

    // Initial state
    assert_eq!(reader.get_gen(&inner), 0);
    // Reserve 4 slots
    let (start, end) = writer.try_reserve_slots::<()>(&mut inner, 4).expect("Failed to reserve");
    assert_eq!(start, 0);
    assert_eq!(end, 4);

    // Write to the slots
    for generation in start..end {
        writer.get_slot_ptr(&mut inner, generation).write(generation * 10);
    }

    // Publish the slots
    writer.publish_slots::<()>(&mut inner, start, end).expect("Failed to publish");

    // Verify read_gen moved forward
    let read_gen = inner.load_read_gen();
    assert_eq!(read_gen, 4);
}

#[test]
fn test_reservation_write_and_publish() {
    let (mut inner, writer, _reader) = area::<u64>(16, 8);

    // Reserve 4 slots
    let mut reservation = writer.reserve::<()>(&mut inner, 4).unwrap();

    // Write to reservation
    for i in 0..4 {
        reservation.get_mut(&mut inner, i).unwrap().write(100 + i as u64);
    }

    reservation
        .publish::<()>(&mut inner)
        .unwrap_or_else(|_| panic!("Failed to publish reservation"));
}

#[test]
fn test_reservation_split() {
    let (mut inner, writer, _reader) = area::<u64>(16, 8);

    // Reserve 4 slots
    let reservation = writer.reserve::<()>(&mut inner, 4).unwrap();
    assert_eq!(reservation.len(), 4);

    // Split at 2
    let (mut left, mut right) = reservation.split_at_mut(2);

    assert_eq!(left.len(), 2);
    assert_eq!(right.len(), 2);

    // Write to both
    left.get_mut(&mut inner, 0).unwrap().write(100);
    left.get_mut(&mut inner, 1).unwrap().write(101);
    right.get_mut(&mut inner, 0).unwrap().write(102);
    right.get_mut(&mut inner, 1).unwrap().write(103);

    // Verify correct ordering works.
    match right.publish::<()>(&mut inner) {
        Ok(_) => panic!("Wrong order works; there's a bug"),
        Err((right, _)) => {
            assert!(left.publish::<()>(&mut inner).is_ok());
            assert!(right.publish::<()>(&mut inner).is_ok());
        }
    }
}

#[test]
fn test_reservation_raii() {
    let (mut inner, writer, reader) = area::<u64>(16, 8);

    // Use reservation
    let mut reservation = writer.reserve::<()>(&mut inner, 4).expect("Failed to reserve");
    assert_eq!(reservation.len(), 4);

    // Write to slots
    for i in 0..4 {
        reservation.get_mut(&mut inner, i).unwrap().write((i as u64) * 100);
    }

    // Publish
    reservation.publish_spin(&mut inner);

    // Verify
    let slice = reader.load_read_gen(&inner);
    assert_eq!(slice, 4);
}

struct ComplexStruct {
    a: u64,
    b: Vec<u8>,
    drop_count: Rc<Cell<usize>>,
}

impl Drop for ComplexStruct {
    fn drop(&mut self) {
        self.drop_count.set(self.drop_count.get() + 1);
    }
}

#[test]
fn test_reservation_inplace_init() {
    // Track drops to ensure that every message is dropped once
    let drop_count = Rc::new(Cell::new(0));
    let (mut inner, writer, mut reader) = area::<ComplexStruct>(16, 8);

    let mut reservation = writer.reserve::<()>(&mut inner, 1).unwrap();
    let slot = reservation.get_mut(&mut inner, 0).unwrap();

    // Initialization in the slot itself
    let message = slot.write(ComplexStruct {
        a: 0,
        b: Vec::new(),
        drop_count: drop_count.clone(),
    });
    message.a = 42;
    message.b = vec![1, 2, 3];

    reservation
        .publish::<()>(&mut inner)
        .unwrap_or_else(|_| panic!("Failed to publish reservation"));

    // Verify read
    let slice = reader.read_with_check(&inner).expect("There should be writers!");
    let (s1, _) = slice.as_slices(&inner);
    assert_eq!(s1.len(), 1);
    assert_eq!(s1[0].get().unwrap().a, 42);
    assert_eq!(s1[0].get().unwrap().b, vec![1, 2, 3]);
    slice.drop(&mut inner);

    assert!(!reader.drop(&mut inner));
    assert_eq!(drop_count.get(), 0);
    assert!(writer.drop(&mut inner));
    assert_eq!(drop_count.get(), 1);
    inner.deallocate();
    assert_eq!(drop_count.get(), 1);
}

#[test]
fn test_reader_registration_and_reading() {
    let (mut inner, writer, reader) = area::<u64>(16, 8);

    // Write some messages
    let (start, end) = writer.try_reserve_slots::<()>(&mut inner, 3).expect("Failed to reserve");
    for generation in start..end {
        writer.get_slot_ptr(&mut inner, generation).write(generation + 100);
    }
    writer.publish_slots::<()>(&mut inner, start, end).expect("Failed to publish");

    // Reader should be able to read
    let reader_gen = reader.get_gen(&inner);
    assert_eq!(reader_gen, 0);

    let read_gen = reader.load_read_gen(&inner);
    assert_eq!(read_gen, 3);

    // Read the messages
    for generation in reader_gen..read_gen {
        let value = reader.get_slot_ptr(&inner, generation).get().unwrap();
        assert_eq!(*value, generation + 100);
    }
}

#[test]
fn test_register_capacity_reached() {
    let (mut inner, _writer, reader1) = area::<u64>(16, 2); // Small capacity

    // Capacity is 2. reader1 takes one slot.

    // Create another reader
    let _reader2 = reader1.create_reader_with_seed(&mut inner, 100).expect("Should succeed");

    // Now capacity should be full (2 readers)
    // Trying to create a 3rd reader should fail
    let result = reader1.create_reader_with_seed(&mut inner, 101);
    assert_eq!(result.err(), Some(RegisterError::ReaderCapacityReached));
}

#[test]
fn test_create_writer() {
    let (mut inner, writer1, _reader) = area::<u64>(16, 8);
    let writer2 = writer1.create_writer(&mut inner);

    // Both writers should work
    let (start1, end1) = writer1.try_reserve_slots::<()>(&mut inner, 2).expect("Failed to reserve");
    assert_eq!(start1, 0);
    assert_eq!(end1, 2);

    let (start2, end2) = writer2.try_reserve_slots::<()>(&mut inner, 2).expect("Failed to reserve");
    assert_eq!(start2, 2);
    assert_eq!(end2, 4);
}

#[test]
fn test_create_reader() {
    let (mut inner, writer, reader1) = area::<u64>(16, 8);
    let reader2 = reader1.create_reader(&mut inner).expect("Failed to create reader");

    // Different reader IDs
    assert_ne!(reader1.reader_id(), reader2.reader_id());

    // Write some messages
    let (start, end) = writer.try_reserve_slots::<()>(&mut inner, 3).expect("Failed to reserve");
    for generation in start..end {
        writer.get_slot_ptr(&mut inner, generation).write(generation * 2);
    }
    writer.publish_slots::<()>(&mut inner, start, end).expect("Failed to publish");

    // Both readers can read
    let read_gen = reader1.load_read_gen(&inner);
    assert_eq!(read_gen, 3);
    assert_eq!(reader2.load_read_gen(&inner), 3);
}

#[test]
fn test_reserve_overflow() {
    let (mut inner, writer, _reader) = area::<u64>(4, 8);

    // Fill the buffer
    let (start1, end1) = writer.try_reserve_slots::<()>(&mut inner, 4).expect("Failed to reserve");
    assert_eq!(start1, 0);
    assert_eq!(end1, 4);

    // Try to reserve more - should fail
    let result = writer.try_reserve_slots::<()>(&mut inner, 1);
    assert_eq!(result, Err(ReserveError::NoSpace));
}

#[test]
fn test_best_effort_reserve() {
    let (mut inner, writer, _reader) = area::<u64>(4, 8);

    // Reserve 2 slots normally
    let (start1, end1) = writer.try_reserve_slots::<()>(&mut inner, 2).expect("Failed to reserve");
    assert_eq!(start1, 0);
    assert_eq!(end1, 2);

    // Try to reserve 10 slots with best effort - should get only 2
    let (start2, end2, actual) = writer
        .try_reserve_slots_best_effort::<()>(&mut inner, 10)
        .expect("Failed to reserve");
    assert_eq!(start2, 2);
    assert_eq!(end2, 4);
    assert_eq!(actual, 2);

    // Try to reserve again, should get 0
    let (start3, end3, actual2) = writer
        .try_reserve_slots_best_effort::<()>(&mut inner, 10)
        .expect("Failed to reserve");
    assert_eq!(start3, 0);
    assert_eq!(end3, 0);
    assert_eq!(actual2, 0);

    // Try to reserve more normally, should fail
    assert_eq!(writer.try_reserve_slots::<()>(&mut inner, 2), Err(ReserveError::NoSpace));
}

#[test]
fn test_suspend_and_resume() {
    let (mut inner, _writer, mut reader) = area::<u64>(16, 8);

    // Suspend the reader
    assert!(reader.suspend(&mut inner).is_ok());

    let generation = reader.get_gen(&inner);
    assert!(is_suspended(generation));

    // Resume the reader
    reader.resume(&mut inner).expect("Failed to resume");

    let generation = reader.get_gen(&inner);
    assert!(!is_suspended(generation));
}

#[test]
fn test_resume_at() {
    let (mut inner, _writer, mut reader) = area::<u64>(16, 8);

    // Suspend
    assert!(reader.suspend(&mut inner).is_ok());

    // Resume at specific generation
    reader.resume_at(&mut inner, 0).expect("Failed to resume");
    assert_eq!(reader.get_gen(&inner), 0);

    // Suspend again
    assert!(reader.suspend(&mut inner).is_ok());

    // Try to resume again
    reader.resume_at(&mut inner, 0).expect("Failed to resume");
}

#[test]
fn test_cleanup_simple() {
    let (mut inner, writer, mut reader) = area::<u64>(16, 8);

    // Write some messages
    let (start, end) = writer.try_reserve_slots::<()>(&mut inner, 5).expect("Failed to reserve");
    for generation in start..end {
        writer.get_slot_ptr(&mut inner, generation).write(generation);
    }
    writer.publish_slots::<()>(&mut inner, start, end).expect("Failed to publish");

    // Reader advances past the messages
    reader.advance(&mut inner, 5).expect("Failed to advance");

    // Cleanup should work now
    let result = writer.try_cleanup_old_slots::<()>(&mut inner);
    assert!(result.is_ok());

    let cleanup_result = result.unwrap();
    assert_eq!(cleanup_result.old_last_valid, 0);
    assert_eq!(cleanup_result.new_last_valid, 5);
    assert_eq!(cleanup_result.slots_cleaned, 5);
}

#[test]
fn test_unregister_unblocks_writer() {
    let (mut inner, writer, reader) = area::<u64>(4, 8);

    // Reader stays at 0

    // Fill the buffer
    let (start, end) = writer.try_reserve_slots::<()>(&mut inner, 4).expect("Failed to reserve");
    writer.publish_slots::<()>(&mut inner, start, end).expect("Failed to publish");

    // Writer should be blocked now
    assert_eq!(writer.try_reserve_slots::<()>(&mut inner, 1), Err(ReserveError::NoSpace));

    // Unregister the reader (dropping it)
    reader.drop(&mut inner);

    // Trigger cleanup.
    let cleanup_result = writer
        .try_cleanup_old_slots::<()>(&mut inner)
        .expect("Cleanup should succeed");
    assert_eq!(cleanup_result.new_last_valid, 4);

    // Now writer can write
    let (start, end) = writer.try_reserve_slots::<()>(&mut inner, 4).expect("Failed to reserve");
    assert_eq!(start, 4);
    assert_eq!(end, 8);
}

#[test]
fn test_writer_drop_decrements_count() {
    let (mut inner, writer1, _reader) = area::<u64>(16, 8);

    let count_before = writer1.get_writers_count(&inner);
    assert_eq!(count_before, 1);

    {
        let writer2 = writer1.create_writer(&mut inner);
        let count_with_two = writer1.get_writers_count(&inner);
        assert_eq!(count_with_two, 2);
        writer2.drop(&mut inner);
    }

    let count_after = writer1.get_writers_count(&inner);
    assert_eq!(count_after, 1);
}

#[test]
fn test_suspend_idempotent() {
    let (mut inner, _writer, mut reader) = area::<u64>(16, 8);

    assert!(reader.suspend(&mut inner).is_ok());
    assert!(is_suspended(reader.get_gen(&inner)));

    // Suspend again should error
    match reader.suspend(&mut inner) {
        Ok(_) => panic!("Suspending again should error"),
        Err(SuspendError::ReaderNotFound) => panic!("Reader unregistered!"),
        Err(SuspendError::AlreadySuspended) => {}
    }
    assert!(is_suspended(reader.get_gen(&inner)));
}

#[test]
fn test_advance_while_suspended_fails() {
    let (mut inner, _writer, mut reader) = area::<u64>(16, 8);

    assert!(reader.suspend(&mut inner).is_ok());

    // Try to advance while suspended
    let result = reader.advance(&mut inner, 1);
    assert_eq!(result, Err(SetGenError::ReaderSuspended));
}

#[test]
fn test_publish_cas_failure() {
    let (mut inner, writer1, _reader) = area::<u64>(16, 8);
    let writer2 = writer1.create_writer(&mut inner);

    // Writer1 reserves slots 0-2
    let (start1, end1) = writer1.try_reserve_slots::<()>(&mut inner, 2).expect("Failed to reserve");
    for generation in start1..end1 {
        writer1.get_slot_ptr(&mut inner, generation).write(generation);
    }

    // Writer2 reserves slots 2-4
    let (start2, end2) = writer2.try_reserve_slots::<()>(&mut inner, 2).expect("Failed to reserve");
    for generation in start2..end2 {
        writer2.get_slot_ptr(&mut inner, generation).write(generation);
    }

    // If writer2 tries to publish first, it should fail
    let result = writer2.publish_slots::<()>(&mut inner, start2, end2);
    assert_eq!(result, Err(PublishError::CasFailed));

    // Writer1 publishes successfully
    writer1
        .publish_slots::<()>(&mut inner, start1, end1)
        .expect("Failed to publish");

    // Writer2 publishes successfully
    writer2
        .publish_slots::<()>(&mut inner, start2, end2)
        .expect("Failed to publish");

    // Now if writer1 tries to publish again with stale range, it should fail
    let result = writer1.publish_slots::<()>(&mut inner, start1, end1);
    assert_eq!(result, Err(PublishError::CasFailed));
}

#[test]
fn test_drop_cleanup() {
    // This test verifies that dropping all handles properly cleans up
    let (mut inner, writer, reader) = area::<u64>(16, 8);
    let writer2 = writer.create_writer(&mut inner);
    let reader2 = reader
        .create_reader_with_seed(&mut inner, 100)
        .expect("Failed to create reader");

    // Use the handles a bit
    let (start, end) = writer.try_reserve_slots::<()>(&mut inner, 2).expect("Failed to reserve");
    for generation in start..end {
        writer.get_slot_ptr(&mut inner, generation).write(generation);
    }
    writer.publish_slots::<()>(&mut inner, start, end).expect("Failed to publish");

    // All handles drop here; only the last one ends the area
    assert!(!reader2.drop(&mut inner));
    assert!(!writer2.drop(&mut inner));
    assert!(!reader.drop(&mut inner));
    assert!(writer.drop(&mut inner));
    inner.deallocate();
}

#[test]
fn test_read_slice() {
    let (mut inner, writer, mut reader) = area::<u64>(16, 8);

    // Write some messages
    let (start, end) = writer.try_reserve_slots::<()>(&mut inner, 5).expect("Failed to reserve");
    for generation in start..end {
        writer.get_slot_ptr(&mut inner, generation).write(generation * 100);
    }
    writer.publish_slots::<()>(&mut inner, start, end).expect("Failed to publish");

    // Read using slice API
    {
        let slice = reader.read_with_check(&inner).expect("There should be writers!");
        assert_eq!(slice.len(), 5);
        assert!(!slice.is_empty());

        // Test get()
        assert_eq!(*slice.get(&inner, 0).unwrap(), 0);
        assert_eq!(*slice.get(&inner, 1).unwrap(), 100);
        assert_eq!(*slice.get(&inner, 4).unwrap(), 400);
        assert!(slice.get(&inner, 5).is_none());

        // Test iterator
        let mut values: Vec<u64> = Vec::new();
        let mut iter = slice.iter();
        assert_eq!(iter.size_hint(), (5, Some(5)));
        while let Some(value) = iter.next(&inner) {
            values.push(*value);
        }
        assert_eq!(iter.size_hint(), (0, Some(0)));
        assert_eq!(values, vec![0, 100, 200, 300, 400]);

        // Test as_slices
        let (s1, s2) = slice.as_slices(&inner);
        assert_eq!(s1.len() + s2.len(), 5);
        // Since capacity is 16 and we start at 0, it should be contiguous
        assert_eq!(s1.len(), 5);
        assert_eq!(s2.len(), 0);
        let messages: Vec<u64> = s1.iter().map(|place| *place.get().unwrap()).collect();
        assert_eq!(messages, [0, 100, 200, 300, 400]);

        // Slice drops here, advancing the reader
        slice.drop(&mut inner);
    }

    // Reader should have advanced
    let reader_gen = reader.get_gen(&inner);
    assert_eq!(reader_gen, 5);

    // New messages
    let (start, end) = writer.try_reserve_slots::<()>(&mut inner, 2).expect("Failed to reserve");
    for generation in start..end {
        writer.get_slot_ptr(&mut inner, generation).write(generation * 10);
    }
    writer.publish_slots::<()>(&mut inner, start, end).expect("Failed to publish");

    // Read again
    {
        let slice = reader.read_with_check(&inner).expect("There should be writers!");
        assert_eq!(slice.len(), 2);
        assert_eq!(*slice.get(&inner, 0).unwrap(), 50);
        assert_eq!(*slice.get(&inner, 1).unwrap(), 60);
        slice.drop(&mut inner);
    }

    assert_eq!(reader.get_gen(&inner), 7);
}

#[test]
fn test_register_reader_respects_cleanup() {
    let (mut inner, writer, mut reader1) = area::<u64>(16, 8);

    // Advance everything to generation 10
    let (start, end) = writer.try_reserve_slots::<()>(&mut inner, 10).unwrap();
    for i in start..end {
        writer.get_slot_ptr(&mut inner, i).write(i);
    }
    writer.publish_slots::<()>(&mut inner, start, end).unwrap();
    reader1.advance(&mut inner, 10).unwrap();

    // Cleanup should advance last_valid to 10
    // And it should drag all empty slots to 10
    let result = writer.try_cleanup_old_slots::<()>(&mut inner).unwrap();
    assert_eq!(result.new_last_valid, 10);

    // Now register a new reader
    // It should pick up a slot that was dragged to 10
    // So it should start at 10
    let reader2 = reader1
        .create_reader_with_seed(&mut inner, 100)
        .expect("Failed to create reader");
    assert_eq!(reader2.get_gen(&inner), 10);
}
