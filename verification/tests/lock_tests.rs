use dining::lock::{LockError, PollStep, ScriptedLock, TimeoutLock, TryOutcome, poll_decision};

fn script(outcomes: &[TryOutcome], pad_to: usize) -> Vec<TryOutcome> {
    let mut v: Vec<TryOutcome> = outcomes.to_vec();
    while v.len() < pad_to {
        v.push(TryOutcome::Busy);
    }
    v
}

#[test]
fn zero_timeout_would_block_immediately() {
    let mut l = ScriptedLock::new(vec![TryOutcome::Busy]);
    let r = l.try_lock_for(0, 10);
    assert_eq!(r, Err(LockError::WouldBlock));
    // exactly one immediate probe, no sleeping poll afterwards
    assert_eq!(l.pos, 1);
}

#[test]
fn zero_timeout_acquires_free_lock() {
    let mut l = ScriptedLock::new(vec![TryOutcome::Acquired]);
    let r = l.try_lock_for(0, 10);
    assert_eq!(r, Ok(0));
    assert_eq!(l.pos, 1);
}

#[test]
fn acquires_at_later_poll_within_timeout() {
    // free at the second poll: 2 * 10ms <= 100ms, so the wait succeeds there
    let s = script(&[TryOutcome::Busy, TryOutcome::Busy, TryOutcome::Acquired], 11);
    let mut l = ScriptedLock::new(s);
    let r = l.try_lock_for(100, 10);
    assert_eq!(r, Ok(2));
    assert_eq!(l.pos, 3);
}

#[test]
fn acquires_at_last_poll_of_window() {
    // polls fall at 0, 10 and 20ms; the lock frees exactly at the last one
    let s = script(&[TryOutcome::Busy, TryOutcome::Busy, TryOutcome::Acquired], 3);
    let mut l = ScriptedLock::new(s);
    let r = l.try_lock_for(20, 10);
    assert_eq!(r, Ok(2));
}

#[test]
fn would_block_when_lock_never_frees() {
    let s = script(&[], 11);
    let mut l = ScriptedLock::new(s);
    let r = l.try_lock_for(100, 10);
    assert_eq!(r, Err(LockError::WouldBlock));
    // the full window was polled: at 0, 10, ..., 100ms
    assert_eq!(l.pos, 11);
}

#[test]
fn poisoned_lock_reported_at_any_poll() {
    let s = script(&[TryOutcome::Busy, TryOutcome::Poisoned], 11);
    let mut l = ScriptedLock::new(s);
    let r = l.try_lock_for(100, 10);
    assert_eq!(r, Err(LockError::Poisoned));
    assert_eq!(l.pos, 2);
}

#[test]
fn decision_never_sleeps_on_zero_timeout() {
    assert_eq!(poll_decision(0, 0, 10, TryOutcome::Busy), PollStep::TimedOut);
}

#[test]
fn decision_retries_while_interval_fits() {
    assert_eq!(poll_decision(0, 100, 10, TryOutcome::Busy), PollStep::SleepRetry);
    assert_eq!(poll_decision(90, 100, 10, TryOutcome::Busy), PollStep::SleepRetry);
    assert_eq!(poll_decision(95, 100, 10, TryOutcome::Busy), PollStep::TimedOut);
}

#[test]
fn decision_ends_on_decisive_probe() {
    assert_eq!(poll_decision(50, 100, 10, TryOutcome::Acquired), PollStep::Acquired);
    assert_eq!(poll_decision(50, 100, 10, TryOutcome::Poisoned), PollStep::Poisoned);
}
