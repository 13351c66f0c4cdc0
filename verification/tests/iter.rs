use market_square::area::{area, AreaWriterTrait, Exclusive, PublishError};

#[test]
fn test_reservation_iter_basic() {
    let (mut inner, writer, mut reader) = area::<u64>(16, 8);

    let reservation = writer.reserve::<()>(&mut inner, 4).unwrap();
    let mut iter = reservation.into_iter();

    let mut i = 0u64;
    while let Some(mut slot) = iter.next(&mut inner) {
        slot.write(i * 100);
        i += 1;
    }

    assert_eq!(iter.written_count(), 4);
    assert!(iter.all_written());
    iter.publish_spin(&mut inner);

    let slice = reader.read(&inner);
    assert_eq!(slice.len(), 4);
    let mut values: Vec<u64> = Vec::new();
    let mut messages = slice.iter();
    while let Some(value) = messages.next(&inner) {
        values.push(*value);
    }
    assert_eq!(values, vec![0, 100, 200, 300]);
}

#[test]
fn test_reservation_iter_for_loop() {
    let (mut inner, writer, mut reader) = area::<u64>(16, 8);

    let reservation = writer.reserve::<()>(&mut inner, 3).unwrap();
    let mut iter = reservation.into_iter();
    let mut val = 10u64;

    for _ in 0..iter.len() {
        iter.next(&mut inner).unwrap().write(val);
        val += 10;
    }
    assert!(iter.next(&mut inner).is_none());

    iter.publish_spin(&mut inner);

    let slice = reader.read(&inner);
    assert_eq!(slice.len(), 3);
    assert_eq!(*slice.get(&inner, 0).unwrap(), 10);
    assert_eq!(*slice.get(&inner, 1).unwrap(), 20);
    assert_eq!(*slice.get(&inner, 2).unwrap(), 30);
}

#[test]
fn test_reservation_iter_empty() {
    let (mut inner, writer, _reader) = area::<u64>(16, 8);

    let reservation = writer.reserve_best_effort::<()>(&mut inner, 0).unwrap_or_else(|_| {
        panic!("unexpected");
    });
    let iter = reservation.into_iter();
    assert!(iter.is_empty());
    assert!(iter.all_written());
    iter.publish_spin(&mut inner);
}

#[test]
fn test_reservation_iter_best_effort_empty() {
    let (mut inner, writer, _reader) = area::<u64>(4, 8);

    // Fill buffer
    let (start, end) = writer.try_reserve_slots::<()>(&mut inner, 4).unwrap();
    for g in start..end {
        writer.get_slot_ptr(&mut inner, g).write(g);
    }
    writer.publish_slots::<()>(&mut inner, start, end).unwrap();

    // Best effort with full buffer should lead to an empty reservation
    let reservation = writer.reserve_best_effort::<()>(&mut inner, 4).unwrap();
    assert!(reservation.is_empty());
    let iter = reservation.into_iter();
    assert!(iter.all_written());
    iter.publish_spin(&mut inner);
}

#[test]
fn test_reservation_iter_exact_size() {
    let (mut inner, writer, _reader) = area::<u64>(16, 8);

    let reservation = writer.reserve::<()>(&mut inner, 5).unwrap();
    let mut iter = reservation.into_iter();
    assert_eq!(iter.len(), 5);
    assert_eq!(iter.size_hint(), (5, Some(5)));

    iter.next(&mut inner).unwrap().write(0);
    assert_eq!(iter.remaining(), 4);

    iter.next(&mut inner).unwrap().write(0);
    iter.next(&mut inner).unwrap().write(0);
    iter.next(&mut inner).unwrap().write(0);
    iter.next(&mut inner).unwrap().write(0);
    assert_eq!(iter.remaining(), 0);

    iter.publish_spin(&mut inner);
}

#[test]
fn slots_know_where_they_are_and_whether_they_are_written() {
    let (mut inner, writer, _reader) = area::<u64>(16, 8);
    let (_, end) = writer.try_reserve_slots::<()>(&mut inner, 3).unwrap();

    let mut iter = writer.reserve::<()>(&mut inner, 1).unwrap().into_iter();
    let mut slot = iter.next(&mut inner).unwrap();
    assert_eq!(slot.generation(), end);
    assert!(!slot.is_written());
    *slot.write(7) += 1;
    assert!(slot.is_written());
    assert_eq!(iter.written_count(), 1);
    assert_eq!(inner.get_slot_ptr_const(end).get(), Some(&8));
}

#[test]
fn iter_is_given_back_when_it_is_not_its_turn() {
    let (mut inner, writer, _reader) = area::<u64>(16, 8);
    let mut first = writer.reserve::<()>(&mut inner, 1).unwrap().into_iter();
    let mut second = writer.reserve::<()>(&mut inner, 1).unwrap().into_iter();
    first.next(&mut inner).unwrap().write(1);
    second.next(&mut inner).unwrap().write(2);

    let second = match second.publish::<()>(&mut inner) {
        Ok(_) => panic!("published out of order"),
        Err((second, err)) => {
            assert_eq!(err, PublishError::CasFailed);
            second
        }
    };
    let second = match second.publish::<Exclusive>(&mut inner) {
        Ok(_) => panic!("published out of order"),
        Err((second, err)) => {
            assert_eq!(err, PublishError::OutOfOrderPublishAttempt);
            second
        }
    };
    assert_eq!(second.written_count(), 1);
    assert!(first.publish::<()>(&mut inner).is_ok());
    assert!(second.publish::<Exclusive>(&mut inner).is_ok());
    assert_eq!(inner.load_read_gen(), 2);
}
