use market_square::storage::{
    BoxedSliceStorage, BoxedStorage, FixedStorage, FixedStorageMultiple, StaticSliceStorage,
    StaticStorage,
};
use std::cell::Cell;
use std::rc::Rc;

#[test]
fn boxed_storage_holds_one_item() {
    let mut storage = BoxedStorage::new(5u32);
    assert_eq!(*storage.as_ref(), 5);
    *storage.as_mut() = 6;
    assert_eq!(*storage.as_ref(), 6);
    assert_eq!(*BoxedStorage::from_boxed(Box::new(7u32)).as_ref(), 7);
}

#[test]
fn boxed_slice_storage_holds_many_items() {
    let next = Cell::new(0u32);
    let mut storage = BoxedSliceStorage::with_capacity_and_init(3, || {
        next.set(next.get() + 10);
        next.get()
    });
    assert_eq!(storage.capacity(), 3);
    assert_eq!(storage.slice(), &[10, 20, 30]);
    storage.slice_mut()[1] = 21;
    assert_eq!(storage.slice(), &[10, 21, 30]);
    assert_eq!(*storage.as_ref(), 10);
    *storage.as_mut() = 11;
    assert_eq!(storage.slice(), &[11, 21, 30]);

    let boxed: Box<[u32]> = Box::new([1, 2]);
    assert_eq!(BoxedSliceStorage::from_boxed_slice(boxed).slice(), &[1, 2]);
    assert_eq!(BoxedSliceStorage::from_vec(vec![3, 4]).slice(), &[3, 4]);
}

#[test]
fn static_storage_is_used_in_place() {
    let mut storage = StaticStorage::from_raw(Box::leak(Box::new(5u32)));
    *storage.as_mut() += 1;
    assert_eq!(*storage.as_ref(), 6);
    storage.deallocate();
}

#[test]
fn static_slice_storage_is_used_in_place() {
    let mut storage = StaticSliceStorage::from_static(Box::leak(Box::new([1u32, 2, 3])));
    assert_eq!(storage.capacity(), 3);
    storage.slice_mut()[2] = 4;
    assert_eq!(storage.slice(), &[1, 2, 4]);

    let storage = StaticSliceStorage::from_raw(Box::leak(Box::new([1u32, 2, 3])), 3);
    assert_eq!(storage.capacity(), 3);
    assert_eq!(storage.slice(), &[1, 2, 3]);
}

#[test]
fn heap_storage_is_given_back_with_what_it_holds() {
    let item = Rc::new(());
    let one = BoxedStorage::new(item.clone());
    let many = BoxedSliceStorage::from_vec(vec![item.clone(), item.clone()]);
    assert_eq!(Rc::strong_count(&item), 4);
    one.deallocate();
    assert_eq!(Rc::strong_count(&item), 3);
    many.deallocate();
    assert_eq!(Rc::strong_count(&item), 1);
}

#[test]
fn static_storage_keeps_what_it_holds() {
    let item = Rc::new(());
    let storage = StaticStorage::from_raw(Box::leak(Box::new(item.clone())));
    storage.deallocate();
    assert_eq!(Rc::strong_count(&item), 2);
}
