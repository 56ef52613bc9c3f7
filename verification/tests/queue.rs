use dshot_pio::queue::{TransmitQueue, QUEUE_DEPTH};

#[test]
fn new_queue_is_empty() {
    let queue = TransmitQueue::new(QUEUE_DEPTH);
    assert_eq!(QUEUE_DEPTH, 4);
    assert_eq!(queue.len(), 0);
    assert_eq!(queue.depth(), 4);
    assert!(queue.is_empty());
    assert!(!queue.is_full());
    assert_eq!(queue.front(), None);
}

#[test]
fn queue_accepts_until_full() {
    let mut queue = TransmitQueue::new(4);
    assert!(queue.submit(1));
    assert!(queue.submit(2));
    assert!(queue.submit(3));
    assert!(!queue.is_full());
    assert!(queue.submit(4));
    assert!(queue.is_full());
    assert!(!queue.submit(5));
    assert_eq!(queue.len(), 4);
    assert_eq!(queue.front(), Some(1));
}

#[test]
fn queue_gives_words_back_in_order() {
    let mut queue = TransmitQueue::new(4);
    assert!(queue.submit(10));
    assert!(queue.submit(20));
    assert!(queue.submit(30));
    assert_eq!(queue.take(), Some(10));
    assert!(queue.submit(40));
    assert_eq!(queue.take(), Some(20));
    assert_eq!(queue.take(), Some(30));
    assert_eq!(queue.take(), Some(40));
    assert_eq!(queue.take(), None);
    assert!(queue.is_empty());
}

#[test]
fn refused_word_is_dropped() {
    let mut queue = TransmitQueue::new(2);
    assert!(queue.submit(1));
    assert!(queue.submit(2));
    assert!(!queue.submit(3));
    assert_eq!(queue.take(), Some(1));
    assert_eq!(queue.take(), Some(2));
    assert_eq!(queue.take(), None);
}

#[test]
fn queue_of_depth_zero_refuses_everything() {
    let mut queue = TransmitQueue::new(0);
    assert!(queue.is_full());
    assert!(!queue.submit(7));
    assert_eq!(queue.take(), None);
}

#[test]
fn take_from_empty_queue_changes_nothing() {
    let mut queue = TransmitQueue::new(4);
    assert_eq!(queue.take(), None);
    assert_eq!(queue.len(), 0);
    assert!(queue.submit(9));
    assert_eq!(queue.front(), Some(9));
    assert_eq!(queue.len(), 1);
}
