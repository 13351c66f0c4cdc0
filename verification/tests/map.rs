use market_square::map::{
    claim_key, ends_at_lost_claim, is_in_progress, key_bits, probe_slot, Probe, SimpleLPHashMap,
    Slot, EMPTY, IMMEDIATE, IN_PROGRESS, MAX, ZERO_OFFSET,
};
use market_square::place::Place;
use market_square::storage::BoxedSliceStorage;
use market_square::tasks::Event;

#[test]
fn keys_have_a_flag() {
    assert_eq!(key_bits(5 | IN_PROGRESS), 5);
    assert_eq!(key_bits(5), 5);
    assert!(is_in_progress(5 | IN_PROGRESS));
    assert!(!is_in_progress(5));
    assert!(!is_in_progress(EMPTY));
}

#[test]
fn a_new_entry_with_a_key_of_its_own() {
    let mut map = SimpleLPHashMap::<u64, BoxedSliceStorage<Slot<u64>>>::with_capacity(16);
    let seed_key = 12345u64;

    let (found, is_new, delta, k, index) =
        map.get_or_insert_concurrent(seed_key, ZERO_OFFSET, 16, true, true);
    assert!(found && is_new);
    assert_eq!(delta, 0);
    assert_eq!(index, 12345 % 16);
    assert!(is_in_progress(k));

    let real_key = key_bits(k);
    map.value_at(index).write(42);
    map.finish_init_at(index);

    // Lookup
    let (found, is_new, _, k, index) =
        map.get_or_insert_concurrent(real_key, ZERO_OFFSET, IMMEDIATE, false, false);
    assert!(found && !is_new);
    assert!(!is_in_progress(k));
    assert_eq!(map.slot_at(index).value.get(), Some(&42));
    assert_eq!(map.get(real_key, ZERO_OFFSET, IMMEDIATE), (true, 0, real_key, index));

    // Removal
    assert!(map.remove_concurrent(real_key, ZERO_OFFSET, IMMEDIATE));
    assert!(!map.remove_concurrent(real_key, ZERO_OFFSET, IMMEDIATE));
    let (found, ..) = map.get_or_insert_concurrent(real_key, ZERO_OFFSET, IMMEDIATE, false, false);
    assert!(!found);
}

#[test]
fn folded_entries_of_the_same_seed_have_different_keys() {
    let mut map = SimpleLPHashMap::with_capacity_and_init(4, || 7u64);
    assert_eq!(map.capacity(), 4);
    let mut keys = Vec::new();
    for step in 0..4 {
        let (found, is_new, delta, k, index) =
            map.get_or_insert_concurrent(2, ZERO_OFFSET, 4, true, true);
        assert!(found && is_new);
        assert_eq!(delta, step);
        assert_eq!(index, (2 + step) % 4);
        // The key leads straight to the slot.
        assert_eq!(key_bits(k) as usize % 4, index);
        assert!(!keys.contains(&key_bits(k)));
        assert_eq!(map.slot_at(index).value.get(), Some(&7));
        map.finish_init_at(index);
        keys.push(key_bits(k));
    }
    for key in &keys {
        assert!(map.get(*key, ZERO_OFFSET, IMMEDIATE).0);
    }
    assert_eq!(keys, vec![2, 3, 4, 5]);

    // Full
    let r = map.get_or_insert_concurrent(2, ZERO_OFFSET, MAX, true, true);
    assert_eq!(r, (false, false, usize::MAX, EMPTY, usize::MAX));

    let taken = map.scan_slots();
    assert_eq!(taken, vec![(0, 4), (1, 5), (2, 2), (3, 3)]);
    assert_eq!(map.raw_slots().len(), 4);
    map.deallocate();
}

#[test]
fn without_folding_a_key_is_found_again() {
    let mut map = SimpleLPHashMap::with_capacity_and_init(8, || ());
    let first = map.get_or_insert_concurrent(3, ZERO_OFFSET, MAX, true, false);
    assert_eq!(first, (true, true, 0, 3 | IN_PROGRESS, 3));
    let second = map.get_or_insert_concurrent(3, ZERO_OFFSET, MAX, true, false);
    assert_eq!(second, (true, false, 0, 3 | IN_PROGRESS, 3));
    // A key with the same home goes to the next slot.
    let third = map.get_or_insert_concurrent(11, ZERO_OFFSET, MAX, true, false);
    assert_eq!(third, (true, true, 1, 11 | IN_PROGRESS, 4));
    // With an offset, the search begins elsewhere.
    let fourth = map.get_or_insert_concurrent(11, 3, MAX, true, false);
    assert_eq!(fourth, (true, true, 0, 11 | IN_PROGRESS, 6));
    // A limit ends the search.
    let fifth = map.get_or_insert_concurrent(19, ZERO_OFFSET, 2, true, false);
    assert_eq!(fifth, (false, false, usize::MAX, EMPTY, usize::MAX));
}

#[test]
fn a_map_of_existing_storage() {
    let storage = BoxedSliceStorage::with_capacity_and_init(2, || Slot { key: EMPTY, value: Place::new(1u8) });
    let map = SimpleLPHashMap::from_storage(storage);
    assert_eq!(map.capacity(), 2);
    assert!(!map.get(1, ZERO_OFFSET, MAX).0);
    assert!(map.scan_slots().is_empty());
}

#[test]
fn folding_avoids_the_empty_key() {
    assert_eq!(claim_key(5, 2, 3, 16, true), 10 | IN_PROGRESS);
    assert_eq!(claim_key(5, 2, 3, 16, false), 5 | IN_PROGRESS);
    assert_eq!(claim_key(IN_PROGRESS - 1, 0, 1, 16, true), 16 | IN_PROGRESS);
    assert_eq!(claim_key(IN_PROGRESS - 1, 0, 2, 16, true), 1 | IN_PROGRESS);
}

#[test]
fn what_a_search_does_at_a_slot() {
    assert_eq!(probe_slot(5, 0, 0, 8, EMPTY, true, false), Probe::Claim(5 | IN_PROGRESS));
    assert_eq!(probe_slot(5, 0, 1, 8, EMPTY, true, true), Probe::Claim(6 | IN_PROGRESS));
    assert_eq!(probe_slot(5, 0, 0, 8, EMPTY, false, false), Probe::Next);
    assert_eq!(probe_slot(5, 0, 0, 8, 5, true, false), Probe::Found);
    assert_eq!(probe_slot(5, 0, 0, 8, 5 | IN_PROGRESS, false, false), Probe::Found);
    assert_eq!(probe_slot(5, 0, 0, 8, 5, true, true), Probe::Next);
    assert_eq!(probe_slot(5, 0, 0, 8, 13, true, false), Probe::Next);
    assert!(ends_at_lost_claim(5, 5 | IN_PROGRESS, false));
    assert!(!ends_at_lost_claim(5, 5, true));
    assert!(!ends_at_lost_claim(5, 13, false));
    assert!(!ends_at_lost_claim(5, EMPTY, false));
}

#[test]
fn keys_are_exchanged_only_from_what_is_expected() {
    let mut map = SimpleLPHashMap::with_capacity_and_init(2, || ());
    assert_eq!(map.exchange_key(1, EMPTY, 3), Event::Exchanged);
    assert_eq!(map.exchange_key(1, EMPTY, 5), Event::Changed(3));
    assert_eq!(map.slot_at(1).key, 3);
}
