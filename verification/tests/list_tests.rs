use knn_periodic::neighbors::{NbrList, SENTINEL_DIST};

#[test]
fn fresh_list_is_all_sentinel() {
    let list = NbrList::new(4);
    assert_eq!(list.num_slots(), 5);
    assert_eq!(list.threshold(), SENTINEL_DIST);
    for q in 0..5 {
        assert_eq!(list.slot(q).dist, SENTINEL_DIST);
        assert_eq!(list.slot(q).id, 0);
    }
}

#[test]
fn insert_into_fresh_list() {
    let mut list = NbrList::new(3);
    assert!(list.try_insert(7, 100));
    assert_eq!(list.slot(1).id, 7);
    assert_eq!(list.slot(1).dist, 100);
    // The remaining candidate slots are still sentinel, and so is the
    // threshold, mirroring the last slot.
    assert_eq!(list.slot(2).dist, SENTINEL_DIST);
    assert_eq!(list.slot(3).dist, SENTINEL_DIST);
    assert_eq!(list.threshold(), SENTINEL_DIST);
}

#[test]
fn threshold_mirrors_last_slot_once_full() {
    let mut list = NbrList::new(2);
    assert!(list.try_insert(1, 50));
    assert!(list.try_insert(2, 30));
    assert_eq!(list.slot(1).id, 2);
    assert_eq!(list.slot(2).id, 1);
    assert_eq!(list.threshold(), 50);
}

#[test]
fn candidate_at_threshold_is_rejected() {
    let mut list = NbrList::new(1);
    assert!(list.try_insert(5, 10));
    assert_eq!(list.threshold(), 10);
    // Equal to the threshold: rejected, nothing changes.
    assert!(!list.try_insert(6, 10));
    assert_eq!(list.slot(1).id, 5);
    assert_eq!(list.slot(1).dist, 10);
    assert_eq!(list.threshold(), 10);
    // Strictly better: accepted, threshold refreshed.
    assert!(list.try_insert(6, 9));
    assert_eq!(list.slot(1).id, 6);
    assert_eq!(list.threshold(), 9);
}

#[test]
fn equal_distance_inserts_before_the_earlier_entry() {
    // The scan stops at the first slot whose distance is at least the
    // candidate's, so a tying candidate takes that slot and pushes the
    // earlier entry one place toward the tail.
    let mut list = NbrList::new(2);
    assert!(list.try_insert(1, 100));
    assert!(list.try_insert(2, 100));
    assert_eq!(list.slot(1).id, 2);
    assert_eq!(list.slot(2).id, 1);
    assert_eq!(list.slot(1).dist, 100);
    assert_eq!(list.slot(2).dist, 100);
    assert_eq!(list.threshold(), 100);
}

#[test]
fn worst_entry_is_evicted() {
    let mut list = NbrList::new(2);
    assert!(list.try_insert(1, 80));
    assert!(list.try_insert(2, 60));
    assert_eq!(list.threshold(), 80);
    assert!(list.try_insert(3, 70));
    assert_eq!(list.slot(1).id, 2);
    assert_eq!(list.slot(2).id, 3);
    assert_eq!(list.threshold(), 70);
    // The evicted candidate's distance can no longer get in.
    assert!(!list.try_insert(4, 80));
}
