use rats::queue::MaxQueue;

#[test]
fn test_enqueue_dequeue() {
    let mut queue = MaxQueue::new();
    queue.enqueue(3);
    queue.enqueue(1);
    queue.enqueue(4);
    queue.enqueue(2);

    assert_eq!(queue.dequeue(), Some(3));
    assert_eq!(queue.dequeue(), Some(1));
    assert_eq!(queue.dequeue(), Some(4));
    assert_eq!(queue.dequeue(), Some(2));
    assert_eq!(queue.dequeue(), None);
}

#[test]
fn test_peek() {
    let mut queue = MaxQueue::new();
    queue.enqueue(5);
    queue.enqueue(3);

    assert_eq!(queue.peek(), Some(&5));
    assert_eq!(queue.len(), 2);
}

#[test]
fn test_getmax() {
    let mut queue = MaxQueue::new();
    queue.enqueue(3);
    assert_eq!(queue.getmax(), Some(&3));

    queue.enqueue(1);
    assert_eq!(queue.getmax(), Some(&3));

    queue.enqueue(4);
    assert_eq!(queue.getmax(), Some(&4));

    queue.enqueue(2);
    assert_eq!(queue.getmax(), Some(&4));

    queue.dequeue();
    assert_eq!(queue.getmax(), Some(&4));

    queue.dequeue();
    assert_eq!(queue.getmax(), Some(&4));

    queue.dequeue();
    assert_eq!(queue.getmax(), Some(&2));

    queue.dequeue();
    assert_eq!(queue.getmax(), None);
}

#[test]
fn test_empty_queue() {
    let mut queue: MaxQueue<i32> = MaxQueue::new();
    assert!(queue.is_empty());
    assert_eq!(queue.len(), 0);
    assert_eq!(queue.dequeue(), None);
    assert_eq!(queue.peek(), None);
    assert_eq!(queue.getmax(), None);
}

#[test]
fn test_monotonic_sequence() {
    let mut queue = MaxQueue::new();

    queue.enqueue(1);
    queue.enqueue(2);
    queue.enqueue(3);
    queue.enqueue(4);
    assert_eq!(queue.getmax(), Some(&4));

    queue.dequeue();
    queue.dequeue();
    queue.dequeue();
    queue.dequeue();

    queue.enqueue(4);
    queue.enqueue(3);
    queue.enqueue(2);
    queue.enqueue(1);
    assert_eq!(queue.getmax(), Some(&4));

    queue.dequeue();
    assert_eq!(queue.getmax(), Some(&3));

    queue.dequeue();
    assert_eq!(queue.getmax(), Some(&2));
}

#[test]
fn equal_items_keep_the_maximum_until_the_last_leaves() {
    let mut queue = MaxQueue::new();
    queue.enqueue(7u64);
    queue.enqueue(7u64);
    queue.enqueue(5u64);
    assert_eq!(queue.getmax(), Some(&7));
    assert_eq!(queue.dequeue(), Some(7));
    assert_eq!(queue.getmax(), Some(&7));
    assert_eq!(queue.dequeue(), Some(7));
    assert_eq!(queue.getmax(), Some(&5));
    assert_eq!(queue.len(), 1);
    assert!(!queue.is_empty());
}

#[test]
fn maximum_matches_a_scan_of_the_contents() {
    let mut queue = MaxQueue::new();
    let mut shadow: Vec<i64> = Vec::new();
    let mut state: i64 = 12345;
    for step in 0..400 {
        state = (state * 1103515245 + 12345) % 2147483648;
        if step % 3 == 2 {
            let got = queue.dequeue();
            let want = if shadow.is_empty() { None } else { Some(shadow.remove(0)) };
            assert_eq!(got, want);
        } else {
            let value = state % 50;
            queue.enqueue(value);
            shadow.push(value);
        }
        assert_eq!(queue.getmax().copied(), shadow.iter().copied().max());
        assert_eq!(queue.peek().copied(), shadow.first().copied());
        assert_eq!(queue.len(), shadow.len());
    }
}
