use rats::admission::ConnectionSemaphore;

#[test]
fn permits_are_bounded() {
    let mut sem = ConnectionSemaphore::new(3);
    assert_eq!(sem.limit(), 3);
    assert_eq!(sem.free(), 3);
    assert!(sem.try_acquire());
    assert!(sem.try_acquire());
    assert!(sem.try_acquire());
    assert_eq!(sem.free(), 0);
    assert!(!sem.try_acquire());
    assert!(!sem.try_acquire());
    assert_eq!(sem.free(), 0);
}

#[test]
fn release_admits_exactly_one_more() {
    let mut sem = ConnectionSemaphore::new(2);
    assert!(sem.try_acquire());
    assert!(sem.try_acquire());
    assert!(!sem.try_acquire());
    sem.release();
    assert_eq!(sem.free(), 1);
    assert!(sem.try_acquire());
    assert!(!sem.try_acquire());
}

#[test]
fn release_never_exceeds_the_limit() {
    let mut sem = ConnectionSemaphore::new(1);
    sem.release();
    assert_eq!(sem.free(), 1);
    assert!(sem.try_acquire());
    sem.release();
    sem.release();
    assert_eq!(sem.free(), 1);
    assert!(sem.try_acquire());
    assert!(!sem.try_acquire());
}

#[test]
fn semaphore_without_permits_admits_nobody() {
    let mut sem = ConnectionSemaphore::new(0);
    assert!(!sem.try_acquire());
    sem.release();
    assert!(!sem.try_acquire());
    assert_eq!(sem.free(), 0);
}
