use streaming::deduplicator::MessageDeduplicator;

#[test]
fn an_id_is_inserted_once() {
    let mut window = MessageDeduplicator::new(10);
    assert_eq!(window.capacity(), 10);
    assert!(window.try_insert(1));
    assert!(window.try_insert(2));
    assert!(!window.try_insert(1));
    assert!(!window.try_insert(2));
    assert!(window.contains(1));
    assert!(!window.contains(3));
    assert_eq!(window.len(), 2);
}

#[test]
fn a_full_window_forgets_its_oldest_id() {
    let mut window = MessageDeduplicator::new(3);
    assert!(window.try_insert(1));
    assert!(window.try_insert(2));
    assert!(window.try_insert(3));
    assert!(!window.try_insert(1));
    assert!(window.try_insert(4));
    assert_eq!(window.len(), 3);
    assert!(!window.contains(1));
    assert!(window.contains(2));
    assert!(window.try_insert(1));
    assert!(!window.contains(2));
    assert!(window.contains(3));
    assert!(window.contains(4));
    assert!(window.contains(1));
}

#[test]
fn a_window_of_no_capacity_accepts_everything() {
    let mut window = MessageDeduplicator::new(0);
    assert!(window.try_insert(1));
    assert!(window.try_insert(1));
    assert_eq!(window.len(), 0);
    assert!(!window.contains(1));
}
