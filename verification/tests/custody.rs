use lighthouse_core::custody::CGCUpdates;

#[test]
fn updates_are_kept_in_the_order_they_came() {
    let mut updates = CGCUpdates::new(4);
    assert_eq!(updates.len(), 0);
    assert_eq!(updates.at_slot(100), 4);
    assert!(updates.add_latest_update((50, 8)).is_ok());
    assert!(updates.add_latest_update((20, 6)).is_ok());
    assert_eq!(updates.len(), 2);
    assert_eq!(updates.iter(), vec![(0, 4), (50, 8), (20, 6)]);
    assert_eq!(updates.at_slot(51), 8);
    assert_eq!(updates.at_slot(50), 6);
    assert_eq!(updates.at_slot(20), 4);
}

#[test]
fn the_least_count_of_a_range_is_found() {
    let mut updates = CGCUpdates::new(10);
    assert!(updates.add_latest_update((5, 3)).is_ok());
    assert_eq!(updates.min_at_slot_range(0..6), 10);
    assert_eq!(updates.min_at_slot_range(0..7), 3);
    // Of an empty range, the count at its start.
    assert_eq!(updates.min_at_slot_range(3..1), 10);
}

#[test]
fn a_copy_holds_the_same_updates() {
    let mut updates = CGCUpdates::new(1);
    assert!(updates.add_latest_update((2, 7)).is_ok());
    let copy = updates.copy();
    assert!(updates.add_latest_update((3, 9)).is_ok());
    assert_eq!(copy.iter(), vec![(0, 1), (2, 7)]);
}

#[test]
fn a_full_list_takes_no_update() {
    let mut updates = CGCUpdates::new(1);
    for i in 0..131072 {
        assert!(updates.add_latest_update((i, i)).is_ok());
    }
    assert_eq!(
        updates.add_latest_update((0, 0)),
        Err("Updates list full: OutOfBounds { i: 131073, len: 131072 }".to_string())
    );
    assert_eq!(updates.len(), 131072);
}
