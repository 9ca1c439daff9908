//! A single participant of the ring.
//!
//! A worker owns a name, the indices of its two adjacent shared resources, a
//! handedness flag and a meal counter.  Its dine cycle acquires one resource
//! unboundedly (the primary) and then attempts the other under a bounded
//! timeout (the secondary); which adjacent resource plays which role is
//! decided by the handedness flag.  The counter advances exactly when both
//! guards were obtained, and every failure kind is treated alike.

use vstd::prelude::*;

use crate::lock::LockError;

verus! {

broadcast use vstd::string::group_string_axioms;

/// The mathematical image of a worker.
#[verifier::ext_equal]
pub struct WorkerView {
    pub name: Seq<char>,
    pub left_fork: int,
    pub right_fork: int,
    pub is_left_handed: bool,
    pub counter: int,
}

/// A participant: a name, its two adjacent resources (as indices into the
/// ring), the handedness flag, and the meal counter.
pub struct Philosopher {
    pub name: String,
    pub left_fork: usize,
    pub right_fork: usize,
    pub is_left_handed: bool,
    pub counter: u32,
}

impl View for Philosopher {
    type V = WorkerView;

    open spec fn view(&self) -> WorkerView {
        WorkerView {
            name: self.name@,
            left_fork: self.left_fork as int,
            right_fork: self.right_fork as int,
            is_left_handed: self.is_left_handed,
            counter: self.counter as int,
        }
    }
}

/// The resource a worker acquires first, with the unbounded wait: the left
/// one for the single reversed-handed worker, the right one otherwise.
pub open spec fn spec_primary(w: WorkerView) -> int {
    if w.is_left_handed {
        w.left_fork
    } else {
        w.right_fork
    }
}

/// The resource a worker attempts second, under the bounded timeout.
pub open spec fn spec_secondary(w: WorkerView) -> int {
    if w.is_left_handed {
        w.right_fork
    } else {
        w.left_fork
    }
}

impl Philosopher {
    /// A fresh worker with its counter at zero.
    pub fn new(name: &str, left_fork: usize, right_fork: usize, is_left_handed: bool) -> (r:
        Philosopher)
        ensures
            r@.name == name@,
            r@.left_fork == left_fork as int,
            r@.right_fork == right_fork as int,
            r@.is_left_handed == is_left_handed,
            r@.counter == 0,
    {
        Philosopher { name: name.to_string(), left_fork, right_fork, is_left_handed, counter: 0 }
    }

    /// The index of the resource this worker acquires unboundedly first.
    pub fn primary_fork(&self) -> (f: usize)
        ensures
            f as int == spec_primary(self@),
    {
        if self.is_left_handed {
            self.left_fork
        } else {
            self.right_fork
        }
    }

    /// The index of the resource this worker then attempts under the bounded
    /// timeout.
    pub fn secondary_fork(&self) -> (f: usize)
        ensures
            f as int == spec_secondary(self@),
    {
        if self.is_left_handed {
            self.right_fork
        } else {
            self.left_fork
        }
    }

    /// Whether this worker's task is finished: its counter reached the quota.
    pub fn is_done(&self, quota: u32) -> (r: bool)
        ensures
            r == (self.counter >= quota),
    {
        self.counter >= quota
    }

    /// The decision closing one dine cycle.  The worker ate exactly when the
    /// unbounded primary acquisition returned a guard and the bounded
    /// secondary one did too; then the counter advances by exactly one.  Both
    /// failure kinds of the secondary are treated identically, and nothing
    /// but the counter changes.
    pub fn record_cycle(&mut self, got_primary: bool, secondary: Result<(), LockError>) -> (ate:
        bool)
        requires
            old(self).counter < u32::MAX,
        ensures
            ate == (got_primary && secondary is Ok),
            (final(self)@ == WorkerView {
                counter: old(self)@.counter + (if ate {
                    1int
                } else {
                    0int
                }),
                ..old(self)@
            }),
    {
        if got_primary && secondary.is_ok() {
            self.counter = self.counter + 1;
            true
        } else {
            false
        }
    }
}

} // verus!
