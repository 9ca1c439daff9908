use dining::lock::LockError;
use dining::worker::Philosopher;

#[test]
fn new_worker_starts_at_zero() {
    let p = Philosopher::new("first", 0, 1, false);
    assert_eq!(p.name, "first");
    assert_eq!(p.left_fork, 0);
    assert_eq!(p.right_fork, 1);
    assert!(!p.is_left_handed);
    assert_eq!(p.counter, 0);
}

#[test]
fn handedness_selects_acquisition_order() {
    let normal = Philosopher::new("n", 3, 4, false);
    assert_eq!(normal.primary_fork(), 4);
    assert_eq!(normal.secondary_fork(), 3);
    let reversed = Philosopher::new("r", 3, 4, true);
    assert_eq!(reversed.primary_fork(), 3);
    assert_eq!(reversed.secondary_fork(), 4);
}

#[test]
fn counter_advances_only_when_both_guards_held() {
    let mut p = Philosopher::new("w", 0, 1, false);
    assert!(p.record_cycle(true, Ok(())));
    assert_eq!(p.counter, 1);
    // both secondary failure kinds are treated alike: no meal either way
    assert!(!p.record_cycle(true, Err(LockError::WouldBlock)));
    assert_eq!(p.counter, 1);
    assert!(!p.record_cycle(true, Err(LockError::Poisoned)));
    assert_eq!(p.counter, 1);
    // a poisoned primary forfeits the cycle too
    assert!(!p.record_cycle(false, Ok(())));
    assert_eq!(p.counter, 1);
}

#[test]
fn is_done_exactly_at_quota() {
    let mut p = Philosopher::new("w", 0, 1, false);
    assert!(!p.is_done(2));
    p.record_cycle(true, Ok(()));
    assert!(!p.is_done(2));
    p.record_cycle(true, Ok(()));
    assert!(p.is_done(2));
}
