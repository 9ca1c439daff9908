//! The bounded, polling acquisition primitive.
//!
//! A bounded acquisition probes the underlying exclusive lock once immediately
//! and then, while the timeout allows a further poll interval, sleeps one
//! interval and probes again.  The sequence of probe outcomes fully determines
//! the verdict, so the verdict is a spec function (`poll_result`) over that
//! sequence, and both the per-iteration decision (`poll_decision`) and a whole
//! bounded acquisition over a deterministic lock model (`ScriptedLock`) are
//! verified against it.

use vstd::prelude::*;

verus! {

/// Why a bounded acquisition returned no guard: the timeout expired while the
/// lock stayed busy, or the lock was found poisoned by a prior holder.
#[derive(Clone, Copy, Debug, PartialEq, Eq, Structural)]
pub enum LockError {
    WouldBlock,
    Poisoned,
}

/// What one immediate, non-blocking probe of the underlying lock reported.
#[derive(Clone, Copy, Debug, PartialEq, Eq, Structural)]
pub enum TryOutcome {
    Acquired,
    Busy,
    Poisoned,
}

/// What the polling loop does right after one probe.
#[derive(Clone, Copy, Debug, PartialEq, Eq, Structural)]
pub enum PollStep {
    Acquired,
    Poisoned,
    SleepRetry,
    TimedOut,
}

/// The decision taken after a probe made `elapsed_ms` into the bounded wait:
/// a decisive probe ends the wait at once; a busy lock is retried after one
/// more interval only when that interval still fits in the remaining budget.
pub open spec fn spec_poll_decision(
    elapsed_ms: int,
    timeout_ms: int,
    interval_ms: int,
    probe: TryOutcome,
) -> PollStep {
    match probe {
        TryOutcome::Acquired => PollStep::Acquired,
        TryOutcome::Poisoned => PollStep::Poisoned,
        TryOutcome::Busy => if timeout_ms - elapsed_ms >= interval_ms {
            PollStep::SleepRetry
        } else {
            PollStep::TimedOut
        },
    }
}

/// The verdict of a bounded acquisition whose successive immediate probes
/// report `probes`, with `budget` time left and a fixed poll interval.
/// `Ok(k)` means the lock was acquired by the probe made after `k` sleeps.
/// A zero budget still makes exactly one probe.
pub open spec fn poll_result(probes: Seq<TryOutcome>, budget: int, interval: int) -> Result<
    int,
    LockError,
>
    decreases budget,
{
    match probes[0] {
        TryOutcome::Acquired => Ok(0),
        TryOutcome::Poisoned => Err(LockError::Poisoned),
        TryOutcome::Busy => if interval > 0 && budget >= interval {
            match poll_result(probes.skip(1), budget - interval, interval) {
                Ok(k) => Ok(k + 1),
                Err(e) => Err(e),
            }
        } else {
            Err(LockError::WouldBlock)
        },
    }
}

/// How many probes the bounded acquisition of `poll_result` makes.
pub open spec fn polls_used(probes: Seq<TryOutcome>, budget: int, interval: int) -> int
    decreases budget,
{
    match probes[0] {
        TryOutcome::Busy => if interval > 0 && budget >= interval {
            1 + polls_used(probes.skip(1), budget - interval, interval)
        } else {
            1
        },
        _ => 1,
    }
}

/// One iteration of the polling loop, decided from plain values, so that a
/// caller driving a real lock can be held to the same rule as the model.
pub fn poll_decision(elapsed_ms: u64, timeout_ms: u64, interval_ms: u64, probe: TryOutcome) -> (r:
    PollStep)
    requires
        elapsed_ms <= timeout_ms,
    ensures
        r == spec_poll_decision(elapsed_ms as int, timeout_ms as int, interval_ms as int, probe),
{
    match probe {
        TryOutcome::Acquired => PollStep::Acquired,
        TryOutcome::Poisoned => PollStep::Poisoned,
        TryOutcome::Busy => {
            if timeout_ms - elapsed_ms >= interval_ms {
                PollStep::SleepRetry
            } else {
                PollStep::TimedOut
            }
        },
    }
}

/// If the first `k` probes find the lock busy and one more poll interval still
/// fits before each of them expires the budget, the verdict is decided by
/// probe `k`: an acquiring probe yields `Ok(k)` and a poisoned one the
/// poisoning error, each after exactly `k + 1` probes.
pub proof fn lemma_poll_busy_prefix(probes: Seq<TryOutcome>, budget: int, interval: int, k: int)
    requires
        interval > 0,
        0 <= k < probes.len(),
        k * interval <= budget,
        forall|j: int| 0 <= j < k ==> probes[j] == TryOutcome::Busy,
    ensures
        probes[k] == TryOutcome::Acquired ==> poll_result(probes, budget, interval) == Ok::<
            int,
            LockError,
        >(k) && polls_used(probes, budget, interval) == k + 1,
        probes[k] == TryOutcome::Poisoned ==> poll_result(probes, budget, interval) == Err::<
            int,
            LockError,
        >(LockError::Poisoned) && polls_used(probes, budget, interval) == k + 1,
    decreases k,
{
    if k > 0 {
        assert(probes[0] == TryOutcome::Busy);
        assert(interval <= k * interval && (k - 1) * interval == k * interval - interval)
            by (nonlinear_arith)
            requires
                interval > 0,
                k >= 1;
        assert(forall|j: int| 0 <= j < k - 1 ==> probes.skip(1)[j] == probes[j + 1]);
        lemma_poll_busy_prefix(probes.skip(1), budget - interval, interval, k - 1);
        assert(probes.skip(1)[k - 1] == probes[k]);
    }
}

/// If every probe up to and including probe `p` finds the lock busy, and after
/// probe `p` the remaining budget no longer fits a poll interval, the bounded
/// acquisition times out with `WouldBlock` after exactly `p + 1` probes.
pub proof fn lemma_poll_exhausted(probes: Seq<TryOutcome>, budget: int, interval: int, p: int)
    requires
        interval > 0,
        0 <= p < probes.len(),
        p * interval <= budget,
        budget - p * interval < interval,
        forall|j: int| 0 <= j <= p ==> probes[j] == TryOutcome::Busy,
    ensures
        poll_result(probes, budget, interval) == Err::<int, LockError>(LockError::WouldBlock),
        polls_used(probes, budget, interval) == p + 1,
    decreases p,
{
    assert(probes[0] == TryOutcome::Busy);
    if p == 0 {
        assert(budget < interval) by (nonlinear_arith)
            requires
                p == 0,
                p * interval <= budget,
                budget - p * interval < interval;
    } else {
        assert(interval <= p * interval && (p - 1) * interval == p * interval - interval)
            by (nonlinear_arith)
            requires
                interval > 0,
                p >= 1;
        assert(forall|j: int| 0 <= j <= p - 1 ==> probes.skip(1)[j] == probes[j + 1]);
        lemma_poll_exhausted(probes.skip(1), budget - interval, interval, p - 1);
    }
}

/// Bounded-wait law, zero-timeout half: with no budget at all, a busy lock is
/// reported `WouldBlock` after exactly one immediate probe, and the decision
/// after that probe is to stop, never to sleep.
pub proof fn lemma_zero_timeout_immediate(probes: Seq<TryOutcome>, interval: int)
    requires
        interval > 0,
        probes.len() >= 1,
        probes[0] == TryOutcome::Busy,
    ensures
        poll_result(probes, 0, interval) == Err::<int, LockError>(LockError::WouldBlock),
        polls_used(probes, 0, interval) == 1,
        spec_poll_decision(0, 0, interval, TryOutcome::Busy) == PollStep::TimedOut,
{
}

/// Bounded-wait law, success half: if the lock stays busy for the first `n`
/// probes and is free at probe `n`, and `n` whole poll intervals fit within
/// the timeout, the bounded acquisition succeeds at exactly that probe.
pub proof fn lemma_succeeds_within_window(
    probes: Seq<TryOutcome>,
    timeout: int,
    interval: int,
    n: int,
)
    requires
        interval > 0,
        0 <= n < probes.len(),
        n * interval <= timeout,
        forall|j: int| 0 <= j < n ==> probes[j] == TryOutcome::Busy,
        probes[n] == TryOutcome::Acquired,
    ensures
        poll_result(probes, timeout, interval) == Ok::<int, LockError>(n),
{
    lemma_poll_busy_prefix(probes, timeout, interval, n);
}

/// A lock offering a bounded, polling acquisition beside the unbounded one of
/// the underlying primitive.  `pending` is the outcomes its next immediate
/// probes would report, in order; the bounded acquisition is held to exactly
/// the verdict `poll_result` computes over them.
pub trait TimeoutLock {
    /// The outcomes the next immediate probes of this lock would report.
    spec fn pending(&self) -> Seq<TryOutcome>;

    /// Poll the lock every `interval_ms` until it is acquired, found poisoned,
    /// or the timeout leaves no room for one more interval.  A zero timeout
    /// still makes exactly one immediate probe and never sleeps.  `Ok(k)`
    /// reports success after `k` sleeps, so the call waited `k * interval_ms`.
    fn try_lock_for(&mut self, timeout_ms: u64, interval_ms: u64) -> (r: Result<u64, LockError>)
        requires
            interval_ms > 0,
            old(self).pending().len() * interval_ms as int > timeout_ms as int,
        ensures
            (match r {
                Ok(k) => poll_result(
                    old(self).pending(),
                    timeout_ms as int,
                    interval_ms as int,
                ) == Ok::<int, LockError>(k as int),
                Err(e) => poll_result(
                    old(self).pending(),
                    timeout_ms as int,
                    interval_ms as int,
                ) == Err::<int, LockError>(e),
            }),
            final(self).pending() == old(self).pending().skip(
                polls_used(old(self).pending(), timeout_ms as int, interval_ms as int),
            ),
    ;
}

/// A deterministic model of a contended lock: the outcome of each successive
/// immediate probe is scripted in advance, and `pos` counts the probes made.
pub struct ScriptedLock {
    pub script: Vec<TryOutcome>,
    pub pos: usize,
}

impl ScriptedLock {
    /// A fresh lock model with no probes made yet.
    pub fn new(script: Vec<TryOutcome>) -> (r: ScriptedLock)
        ensures
            r.script == script,
            r.pos == 0,
    {
        ScriptedLock { script, pos: 0 }
    }

    /// One immediate, non-blocking probe: reports the next scripted outcome.
    pub fn probe(&mut self) -> (r: TryOutcome)
        requires
            old(self).pos < old(self).script.len(),
        ensures
            r == old(self).script@[old(self).pos as int],
            final(self).script == old(self).script,
            final(self).pos == old(self).pos + 1,
    {
        let r = self.script[self.pos];
        self.pos = self.pos + 1;
        r
    }
}

impl TimeoutLock for ScriptedLock {
    open spec fn pending(&self) -> Seq<TryOutcome> {
        if self.pos as int <= self.script@.len() {
            self.script@.skip(self.pos as int)
        } else {
            Seq::empty()
        }
    }

    fn try_lock_for(&mut self, timeout_ms: u64, interval_ms: u64) -> (r: Result<u64, LockError>) {
        let ghost s = old(self).pending();
        let ghost pos0 = old(self).pos as int;
        proof {
            if pos0 > self.script@.len() {
                assert(s.len() * (interval_ms as int) == 0) by (nonlinear_arith)
                    requires
                        s.len() == 0;
                assert(false);
            }
            assert(0int * (interval_ms as int) == 0) by (nonlinear_arith);
        }
        let mut elapsed: u64 = 0;
        let mut polls: u64 = 0;
        loop
            invariant
                interval_ms > 0,
                elapsed <= timeout_ms,
                elapsed as int == polls as int * interval_ms as int,
                self.script == old(self).script,
                self.pos as int == pos0 + polls as int,
                0 <= pos0 <= self.script@.len(),
                s == self.script@.skip(pos0),
                s == old(self).pending(),
                s.len() * interval_ms as int > timeout_ms as int,
                forall|j: int| 0 <= j < polls as int ==> s[j] == TryOutcome::Busy,
            decreases s.len() - polls as int,
        {
            proof {
                assert((polls as int) < s.len()) by (nonlinear_arith)
                    requires
                        polls as int * interval_ms as int <= timeout_ms as int,
                        s.len() * interval_ms as int > timeout_ms as int,
                        interval_ms > 0;
            }
            let probe = self.probe();
            assert(probe == s[polls as int]);
            match poll_decision(elapsed, timeout_ms, interval_ms, probe) {
                PollStep::Acquired => {
                    proof {
                        lemma_poll_busy_prefix(
                            s,
                            timeout_ms as int,
                            interval_ms as int,
                            polls as int,
                        );
                        assert(self.pending() =~= s.skip(polls as int + 1));
                    }
                    return Ok(polls);
                },
                PollStep::Poisoned => {
                    proof {
                        lemma_poll_busy_prefix(
                            s,
                            timeout_ms as int,
                            interval_ms as int,
                            polls as int,
                        );
                        assert(self.pending() =~= s.skip(polls as int + 1));
                    }
                    return Err(LockError::Poisoned);
                },
                PollStep::TimedOut => {
                    proof {
                        lemma_poll_exhausted(
                            s,
                            timeout_ms as int,
                            interval_ms as int,
                            polls as int,
                        );
                        assert(self.pending() =~= s.skip(polls as int + 1));
                    }
                    return Err(LockError::WouldBlock);
                },
                PollStep::SleepRetry => {
                    proof {
                        assert((polls as int + 1) * interval_ms as int == polls as int
                            * interval_ms as int + interval_ms as int) by (nonlinear_arith);
                    }
                    elapsed = elapsed + interval_ms;
                    polls = polls + 1;
                },
            }
        }
    }
}

} // verus!
