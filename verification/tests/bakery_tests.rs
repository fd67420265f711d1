use concurrency::bakery::{
    next_ticket, observe_choosing, observe_ticket, Acquiring, BakeryLock, Progress, WaitPhase,
};

fn waiting(thread_idx: usize, ticket: usize, other: usize, phase: WaitPhase) -> Acquiring {
    Acquiring { thread_idx, ticket, other, phase }
}

#[test]
fn next_ticket_is_one_past_the_largest() {
    assert_eq!(next_ticket(&vec![]), Some(1));
    assert_eq!(next_ticket(&vec![0, 0, 0, 0]), Some(1));
    assert_eq!(next_ticket(&vec![3, 7, 2]), Some(8));
}

#[test]
fn next_ticket_overflow_is_none() {
    assert_eq!(next_ticket(&vec![1, usize::MAX]), None);
    assert_eq!(next_ticket(&vec![usize::MAX - 1]), Some(usize::MAX));
}

#[test]
fn new_lock_has_its_size() {
    let lock = BakeryLock::new(4);
    assert_eq!(lock.size(), 4);
}

#[test]
fn issue_ticket_on_idle_lock_draws_one() {
    let lock = BakeryLock::new(4);
    assert_eq!(lock.issue_ticket(2), Some(1));
}

#[test]
fn lock_starts_with_first_other_thread() {
    let lock = BakeryLock::new(4);
    assert_eq!(lock.lock(0), Some(waiting(0, 1, 1, WaitPhase::Choosing)));
    assert_eq!(lock.lock(2), Some(waiting(2, 1, 0, WaitPhase::Choosing)));
}

#[test]
fn single_thread_enters_after_passing_every_other() {
    let lock = BakeryLock::new(3);
    let mut a = lock.lock(1).unwrap();
    let mut visited = Vec::new();
    let guard = loop {
        match lock.enter_critical_section(a) {
            Progress::Entered(g) => break g,
            Progress::Pending(n) => {
                visited.push((n.other, n.phase));
                a = n;
            }
            Progress::OtherChoosing(_) => panic!("nobody else is choosing"),
        }
    };
    assert_eq!(
        visited,
        vec![
            (0, WaitPhase::Ticket),
            (2, WaitPhase::Choosing),
            (2, WaitPhase::Ticket),
            (3, WaitPhase::Choosing),
        ]
    );
    assert_eq!(guard.thread_idx(), 1);
    guard.release();
}

#[test]
fn single_thread_lock_enters_at_once() {
    let lock = BakeryLock::new(1);
    let a = lock.lock(0).unwrap();
    match lock.enter_critical_section(a) {
        Progress::Entered(g) => {
            assert_eq!(g.thread_idx(), 0);
            g.release();
        }
        _ => panic!("a lone thread enters at once"),
    }
}

#[test]
fn choosing_other_keeps_the_thread_waiting() {
    let a = waiting(1, 4, 0, WaitPhase::Choosing);
    assert_eq!(observe_choosing(a, true), (a, true));
    assert_eq!(observe_choosing(a, false), (waiting(1, 4, 0, WaitPhase::Ticket), false));
}

#[test]
fn ticket_decides_who_goes_first() {
    let a = waiting(1, 5, 2, WaitPhase::Ticket);
    // no ticket: pass
    assert_eq!(observe_ticket(a, 0), waiting(1, 5, 3, WaitPhase::Choosing));
    // larger ticket: pass
    assert_eq!(observe_ticket(a, 7), waiting(1, 5, 3, WaitPhase::Choosing));
    // same ticket, smaller index: pass
    assert_eq!(observe_ticket(a, 5), waiting(1, 5, 3, WaitPhase::Choosing));
    // smaller ticket: wait
    assert_eq!(observe_ticket(a, 3), a);
    // same ticket, larger index of the waiter: wait
    let b = waiting(3, 5, 2, WaitPhase::Ticket);
    assert_eq!(observe_ticket(b, 5), b);
}

#[test]
fn passing_skips_the_waiting_thread_itself() {
    let a = waiting(1, 2, 0, WaitPhase::Ticket);
    assert_eq!(observe_ticket(a, 0), waiting(1, 2, 2, WaitPhase::Choosing));
}

#[test]
fn of_two_ticket_holders_exactly_one_passes() {
    let a = waiting(0, 4, 1, WaitPhase::Ticket);
    let b = waiting(1, 4, 0, WaitPhase::Ticket);
    let a_passes = observe_ticket(a, 4) != a;
    let b_passes = observe_ticket(b, 4) != b;
    assert!(a_passes);
    assert!(!b_passes);
}

#[test]
fn waiting_thread_enters_after_settled_passing_looks() {
    // flags down and every other ticket zero: two looks per other thread
    let mut a = waiting(2, 1, 0, WaitPhase::Choosing);
    let mut looks = 0;
    while a.other < 4 {
        a = match a.phase {
            WaitPhase::Choosing => observe_choosing(a, false).0,
            WaitPhase::Ticket => observe_ticket(a, 0),
        };
        looks += 1;
    }
    assert_eq!(looks, 6);
    assert_eq!(a.other, 4);
}
