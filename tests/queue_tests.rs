use bucket_queue::BucketQueue;

#[test]
fn simple() {
    let mut queue = BucketQueue::new(10);

    queue.insert(5);
    queue.insert(4);
    queue.insert(3);
    queue.insert(7);

    assert_eq!(queue.pop_min(), Some(3));
    assert_eq!(queue.pop_min(), Some(4));
    assert_eq!(queue.pop_min(), Some(5));
    assert_eq!(queue.pop_min(), Some(7));
    assert_eq!(queue.pop_min(), None);
}

#[test]
fn remove() {
    let mut queue = BucketQueue::new(10);

    queue.insert(5);
    queue.insert(4);
    queue.insert(6);
    queue.insert(3);

    assert_eq!(queue.remove(3), Some(3));
    assert_eq!(queue.remove(4), Some(4));

    assert_eq!(queue.remove(3), None);

    assert_eq!(queue.pop_min(), Some(5));
}

#[test]
fn new_queue_is_empty() {
    let mut queue = BucketQueue::new(4);
    assert_eq!(queue.get_min(), None);
    assert_eq!(queue.pop_min(), None);
    assert_eq!(queue.remove(2), None);
}

#[test]
fn window_is_inclusive_at_both_ends() {
    let mut queue = BucketQueue::new(10);
    assert!(queue.in_window(0));
    assert!(queue.in_window(10));
    assert!(!queue.in_window(11));

    queue.insert(10);
    assert_eq!(queue.get_min(), Some(10));
    assert_eq!(queue.pop_min(), Some(10));
    assert_eq!(queue.pop_min(), None);
}

#[test]
fn key_beyond_window_is_refused() {
    let queue = BucketQueue::new(5);
    assert!(queue.in_window(5));
    assert!(!queue.in_window(6));
    assert!(!queue.in_window(10));
}

#[test]
fn window_moves_with_each_pop() {
    let mut queue = BucketQueue::new(10);
    queue.insert(3);
    queue.insert(10);
    assert_eq!(queue.pop_min(), Some(3));
    assert!(!queue.in_window(2));
    assert!(queue.in_window(3));
    assert!(queue.in_window(13));
    assert!(!queue.in_window(14));

    // 13 shares its bucket with 2, which left the window with the pop.
    queue.insert(13);
    assert_eq!(queue.pop_min(), Some(10));
    assert_eq!(queue.pop_min(), Some(13));
    assert_eq!(queue.pop_min(), None);
    assert!(queue.in_window(23));
    assert!(!queue.in_window(24));
}

#[test]
fn keys_wrap_around_the_buckets() {
    let mut queue = BucketQueue::new(3);
    queue.insert(0);
    queue.insert(1);
    queue.insert(2);
    let mut expected: Vec<usize> = Vec::new();
    let mut popped: Vec<usize> = Vec::new();
    let mut i: usize = 0;
    while i < 20 {
        expected.push(i);
        popped.push(queue.pop_min().unwrap());
        queue.insert(i + 3);
        i += 1;
    }
    assert_eq!(popped, expected);
    assert_eq!(queue.pop_min(), Some(20));
    assert_eq!(queue.pop_min(), Some(21));
    assert_eq!(queue.pop_min(), Some(22));
    assert_eq!(queue.pop_min(), None);
}

#[test]
fn equal_keys_leave_once_each() {
    let mut queue = BucketQueue::new(5);
    queue.insert(4);
    queue.insert(4);
    queue.insert(4);
    queue.insert(5);
    assert_eq!(queue.pop_min(), Some(4));
    assert_eq!(queue.get_min(), Some(4));
    assert_eq!(queue.pop_min(), Some(4));
    assert_eq!(queue.pop_min(), Some(4));
    assert_eq!(queue.pop_min(), Some(5));
    assert_eq!(queue.pop_min(), None);
}

#[test]
fn held_key_bounds_the_minimum() {
    let mut queue = BucketQueue::new(8);
    queue.insert(7);
    queue.insert(7);
    assert_eq!(queue.remove(7), Some(7));
    let m = queue.get_min().unwrap();
    assert!(m <= 7);
    queue.insert(2);
    assert_eq!(queue.get_min(), Some(2));
}

#[test]
fn insert_then_remove_restores_the_queue() {
    let mut queue = BucketQueue::new(6);
    queue.insert(2);
    queue.insert(5);
    let before = queue.get_min();

    queue.insert(1);
    assert_eq!(queue.get_min(), Some(1));
    assert_eq!(queue.remove(1), Some(1));

    assert_eq!(queue.get_min(), before);
    assert_eq!(queue.remove(1), None);
    assert_eq!(queue.pop_min(), Some(2));
    assert_eq!(queue.pop_min(), Some(5));
    assert_eq!(queue.pop_min(), None);
}

#[test]
fn get_min_does_not_change_the_queue() {
    let mut queue = BucketQueue::new(10);
    queue.insert(8);
    queue.insert(6);
    assert_eq!(queue.get_min(), Some(6));
    assert_eq!(queue.get_min(), Some(6));
    assert_eq!(queue.get_min(), Some(6));
    assert_eq!(queue.pop_min(), Some(6));
    assert_eq!(queue.pop_min(), Some(8));
    assert_eq!(queue.pop_min(), None);
}

#[test]
fn decrease_key_moves_one_occurrence() {
    let mut queue = BucketQueue::new(3);
    queue.insert(0);
    queue.insert(1);
    queue.decrease_key(1, 0);
    assert_eq!(queue.pop_min(), Some(0));
    assert_eq!(queue.pop_min(), Some(0));
    assert_eq!(queue.pop_min(), None);
}

#[test]
fn decrease_key_of_absent_key_changes_nothing() {
    let mut queue = BucketQueue::new(5);
    queue.insert(4);
    queue.decrease_key(3, 1);
    assert_eq!(queue.pop_min(), Some(4));
    assert_eq!(queue.pop_min(), None);
}

#[test]
fn decrease_key_to_the_same_key() {
    let mut queue = BucketQueue::new(5);
    queue.insert(3);
    queue.decrease_key(3, 3);
    assert_eq!(queue.remove(3), Some(3));
    assert_eq!(queue.remove(3), None);
}

#[test]
fn zero_increment_holds_one_key_at_a_time() {
    let mut queue = BucketQueue::new(0);
    assert!(queue.in_window(0));
    assert!(!queue.in_window(1));
    queue.insert(0);
    queue.insert(0);
    assert_eq!(queue.pop_min(), Some(0));
    assert_eq!(queue.pop_min(), Some(0));
    assert_eq!(queue.pop_min(), None);
}
