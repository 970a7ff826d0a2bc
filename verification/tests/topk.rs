use fraud_index::topk::TopK;

#[test]
fn topk_basic() {
    let mut tk = TopK::new();
    tk.insert(100, 5);
    tk.insert(50, 3);
    tk.insert(200, 1);
    tk.insert(50, 7);
    tk.insert(150, 2);
    // Full now. Sorted: (50,3), (50,7), (100,5), (150,2), (200,1)
    assert_eq!(tk.is_full(), true);
    let r = tk.results();
    // Lower dist first; on tie, lower id first
    let d0 = (r[0].key >> 32) as i32;
    let id0 = r[0].key as u32;
    assert_eq!(d0, 50);
    assert_eq!(id0, 3);
    let d1 = (r[1].key >> 32) as i32;
    let id1 = r[1].key as u32;
    assert_eq!(d1, 50);
    assert_eq!(id1, 7);
}

#[test]
fn topk_eviction() {
    let mut tk = TopK::new();
    for i in 0..5 {
        tk.insert(1000, i as u32);
    }
    // Try to insert something worse — should be rejected
    tk.insert(2000, 99);
    let r = tk.results();
    assert!((r[4].key >> 32) as i32 <= 1000);
    // Insert something better
    tk.insert(1, 42);
    let r = tk.results();
    assert_eq!((r[0].key >> 32) as i32, 1);
    assert_eq!(r[0].key as u32, 42);
}

#[test]
fn labels_are_kept_with_entries() {
    let mut tk = TopK::new();
    tk.insert_labeled(10, 1, 1);
    tk.insert_labeled(20, 2, 0);
    tk.insert_labeled(30, 3, 1);

    assert_eq!(tk.fraud_count(), 2);
}

#[test]
fn an_empty_collection_has_room() {
    let tk = TopK::new();
    assert!(!tk.is_full());
    assert_eq!(tk.worst_dist_sq(), i32::MAX);
    assert_eq!(tk.worst_original_id(), u32::MAX);
    assert_eq!(tk.fraud_count(), 0);
    assert_eq!(TopK::default().worst_key(), tk.worst_key());
}

#[test]
fn the_worst_neighbour_is_the_fifth() {
    let mut tk = TopK::new();
    for i in 0..7u32 {
        tk.insert_labeled(10 * (7 - i as i32), i, (i % 2) as u8);
    }
    assert_eq!(tk.worst_dist_sq(), 50);
    assert_eq!(tk.worst_original_id(), 2);
    assert_eq!(tk.worst_key(), TopK::make_key(50, 2));
    assert_eq!(tk.ids(), [6, 5, 4, 3, 2]);
    assert_eq!(tk.distances(), [10, 20, 30, 40, 50]);
    assert_eq!(tk.fraud_count(), 2);
}

#[test]
fn the_order_of_offers_does_not_matter() {
    let offers = [(9, 4u32), (3, 8), (9, 1), (7, 7), (2, 6), (3, 2), (5, 5)];
    let mut forward = TopK::new();
    let mut backward = TopK::new();
    for &(d, id) in offers.iter() {
        forward.insert(d, id);
    }
    for &(d, id) in offers.iter().rev() {
        backward.insert(d, id);
    }
    assert_eq!(forward.ids(), backward.ids());
    assert_eq!(forward.ids(), [6, 2, 8, 5, 7]);
}

#[test]
fn repeated_offers_are_kept_as_often() {
    let mut tk = TopK::new();
    tk.insert_labeled(-1, 4, 1);
    tk.insert_labeled(i32::MAX, u32::MAX, 1);
    assert_eq!(tk.results().len(), 0);
    for (d, id, label) in [(30, 1, 0), (20, 2, 1), (20, 2, 0), (-7, 3, 1), (10, 9, 1)] {
        tk.insert_labeled(d, id, label);
    }
    assert!(!tk.is_full());
    assert_eq!(tk.distances(), [10, 20, 20, 30, i32::MAX]);
    for (d, id, label) in [(20, 2, 1), (30, 1, 1), (40, 0, 1)] {
        tk.insert_labeled(d, id, label);
    }
    assert!(tk.is_full());
    assert_eq!(tk.distances(), [10, 20, 20, 20, 30]);
    assert_eq!(tk.ids(), [9, 2, 2, 2, 1]);
    assert_eq!(tk.fraud_count(), 3);
}
