use market_square::area::{
    area, AreaWriterTrait, BoxedAreaInner, CleanupError, CleanupResult, Exclusive,
};
use std::cell::RefCell;
use std::rc::Rc;

/// A message that tells when it is dropped.
struct Message {
    number: u64,
    dropped: Rc<RefCell<Vec<u64>>>,
}

impl Drop for Message {
    fn drop(&mut self) {
        self.dropped.borrow_mut().push(self.number);
    }
}

fn say(inner: &mut BoxedAreaInner<Message>, dropped: &Rc<RefCell<Vec<u64>>>, n: usize) {
    let (start, end) = inner.try_reserve_slots::<()>(n).unwrap();
    for number in start..end {
        inner.get_slot_ptr_mut(number).write(Message { number, dropped: dropped.clone() });
    }
    inner.publish_slots::<()>(start, end).unwrap();
}

fn cleaned(old_last_valid: u64, new_last_valid: u64) -> CleanupResult {
    CleanupResult {
        old_last_valid,
        new_last_valid,
        slots_cleaned: new_last_valid - old_last_valid,
    }
}

#[test]
fn cleanups_follow_on_each_other_and_drop_every_message_once() {
    let dropped = Rc::new(RefCell::new(Vec::new()));
    let (mut inner, writer, mut reader) = area::<Message>(5, 2);
    let mut results = Vec::new();
    for (said, read) in [(3, 2), (2, 0), (1, 3), (4, 5)] {
        say(&mut inner, &dropped, said);
        let _ = reader.advance(&mut inner, read);
        let before = dropped.borrow().len();
        match writer.try_cleanup_old_slots::<()>(&mut inner) {
            Ok(result) => results.push(result),
            Err(err) => {
                assert_eq!(err, CleanupError::NothingToClean);
                // An error comes with nothing dropped.
                assert_eq!(dropped.borrow().len(), before);
            }
        }
    }
    assert_eq!(results, vec![cleaned(0, 2), cleaned(2, 5), cleaned(5, 10)]);
    assert_eq!(*dropped.borrow(), (0..10).collect::<Vec<u64>>());
    // What is said after that is dropped at the end.
    say(&mut inner, &dropped, 2);
    assert!(!writer.drop(&mut inner));
    assert_eq!(dropped.borrow().len(), 10);
    assert!(reader.drop(&mut inner));
    assert_eq!(*dropped.borrow(), (0..12).collect::<Vec<u64>>());
    inner.deallocate();
    assert_eq!(dropped.borrow().len(), 12);
}

#[test]
fn one_handle_of_all_is_the_last_one_and_drops_what_is_left() {
    for writers_first in [true, false] {
        let dropped = Rc::new(RefCell::new(Vec::new()));
        let (mut inner, writer, reader) = area::<Message>(8, 4);
        let other_writer = writer.create_writer(&mut inner);
        let other_reader = reader.create_reader(&mut inner).unwrap();
        say(&mut inner, &dropped, 6);
        let mut answers = Vec::new();
        if writers_first {
            answers.push(writer.drop(&mut inner));
            answers.push(other_reader.drop(&mut inner));
            answers.push(other_writer.drop(&mut inner));
            assert_eq!(dropped.borrow().len(), 0);
            answers.push(reader.drop(&mut inner));
        } else {
            answers.push(reader.drop(&mut inner));
            answers.push(writer.drop(&mut inner));
            answers.push(other_reader.drop(&mut inner));
            assert_eq!(dropped.borrow().len(), 0);
            answers.push(other_writer.drop(&mut inner));
        }
        assert_eq!(answers, vec![false, false, false, true]);
        assert_eq!(*dropped.borrow(), vec![0, 1, 2, 3, 4, 5]);
    }
}

#[test]
fn slices_make_up_everything_that_was_said() {
    let (mut inner, writer, mut reader) = area::<u64>(6, 4);
    let mut other = reader.create_reader(&mut inner).unwrap();
    let mut heard = Vec::new();
    let mut said = 0;
    for round in 0..7 {
        for _ in 0..(round % 3) {
            let (start, end) = writer.try_reserve_slots::<Exclusive>(&mut inner, 1).unwrap();
            writer.get_slot_ptr(&mut inner, start).write(100 + said);
            writer.publish_slots::<Exclusive>(&mut inner, start, end).unwrap();
            said += 1;
        }
        let slice = reader.read(&inner);
        assert_eq!(slice.start_gen, heard.len() as u64);
        assert_eq!(slice.end_gen, said);
        // While the slice is held, others move on and clean up.
        let _ = other.advance(&mut inner, round % 3);
        let _ = other.try_cleanup_old_slots::<()>(&mut inner);
        for i in 0..slice.len() {
            heard.push(*slice.get(&inner, i).unwrap());
        }
        slice.drop(&mut inner);
    }
    assert_eq!(said, 6);
    assert_eq!(heard, vec![100, 101, 102, 103, 104, 105]);
}

#[test]
fn a_message_that_is_overwritten_or_never_published_is_not_dropped() {
    let dropped = Rc::new(RefCell::new(Vec::new()));
    let (mut inner, writer, reader) = area::<Message>(4, 2);
    let mut reservation = writer.reserve::<()>(&mut inner, 1).unwrap();
    for number in [1, 2] {
        let message = Message { number, dropped: dropped.clone() };
        reservation.get_mut(&mut inner, 0).unwrap().write(message);
    }
    reservation.publish_spin(&mut inner);
    let mut unpublished = writer.reserve::<()>(&mut inner, 1).unwrap();
    let message = Message { number: 3, dropped: dropped.clone() };
    unpublished.get_mut(&mut inner, 0).unwrap().write(message);
    assert!(dropped.borrow().is_empty());

    // The last one to leave drops what was published, and nothing else.
    assert!(!reader.drop(&mut inner));
    assert!(writer.drop(&mut inner));
    assert_eq!(*dropped.borrow(), vec![2]);
    inner.deallocate();
    assert_eq!(*dropped.borrow(), vec![2]);
    assert_eq!(Rc::strong_count(&dropped), 3);
}
