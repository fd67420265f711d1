use concurrency::semaphore::{Semaphore, WaitOutcome};

#[test]
fn new_semaphore_holds_nothing() {
    let s = Semaphore::new(4);
    assert_eq!(s.held(), 0);
    assert_eq!(s.limit(), 4);
}

#[test]
fn wait_grants_up_to_the_limit_then_blocks() {
    let mut s = Semaphore::new(2);
    assert_eq!(s.wait(), WaitOutcome::Acquired);
    assert_eq!(s.wait(), WaitOutcome::Acquired);
    assert_eq!(s.held(), 2);
    assert_eq!(s.wait(), WaitOutcome::MustBlock);
    assert_eq!(s.held(), 2);
}

#[test]
fn post_undoes_a_granted_wait() {
    let mut s = Semaphore::new(3);
    assert_eq!(s.wait(), WaitOutcome::Acquired);
    assert_eq!(s.held(), 1);
    s.post();
    assert_eq!(s.held(), 0);
}

#[test]
fn post_lets_a_blocked_waiter_in() {
    let mut s = Semaphore::new(1);
    assert_eq!(s.wait(), WaitOutcome::Acquired);
    assert_eq!(s.wait(), WaitOutcome::MustBlock);
    s.post();
    assert_eq!(s.wait(), WaitOutcome::Acquired);
    assert_eq!(s.held(), 1);
}

#[test]
fn zero_or_negative_limit_always_blocks() {
    let mut z = Semaphore::new(0);
    assert_eq!(z.wait(), WaitOutcome::MustBlock);
    let mut n = Semaphore::new(-3);
    assert_eq!(n.wait(), WaitOutcome::MustBlock);
    assert_eq!(n.held(), 0);
}

#[test]
fn post_without_wait_goes_below_zero() {
    let mut s = Semaphore::new(1);
    s.post();
    assert_eq!(s.held(), -1);
    assert_eq!(s.wait(), WaitOutcome::Acquired);
    assert_eq!(s.wait(), WaitOutcome::Acquired);
    assert_eq!(s.wait(), WaitOutcome::MustBlock);
}

#[test]
fn matched_posts_keep_count_between_zero_and_limit() {
    let mut s = Semaphore::new(2);
    let mut holders = 0isize;
    for round in 0..5 {
        while s.wait() == WaitOutcome::Acquired {
            holders += 1;
        }
        assert_eq!(s.held(), holders);
        assert!(0 <= s.held() && s.held() <= 2);
        for _ in 0..(round % 3).min(holders as usize) {
            s.post();
            holders -= 1;
            assert!(s.held() >= 0);
        }
    }
}
