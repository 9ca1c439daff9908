//! The ring of workers and resources, and the acquire/hold/release protocol.
//!
//! The simulation driver's state is a table: the workers wired into a ring,
//! the protocol phase each worker is in, and the holder of each resource.
//! One `step` runs the next atomic move of a worker's dine cycle: acquire the
//! primary when free, then either acquire the secondary and eat or give the
//! primary back when the bounded wait for the secondary times out, then
//! release both together and advance the counter.  Well-formedness ties the
//! holder of every resource to the phases, which yields mutual exclusion; the
//! single reversed-handed worker makes the all-hold-their-primary
//! configuration (the circular wait) unreachable.

use vstd::prelude::*;

use crate::worker::{Philosopher, WorkerView, spec_primary, spec_secondary};

verus! {

/// The protocol phase of one worker's dine cycle.  A worker in
/// `HoldingPrimary` holds its primary resource for the whole bounded wait on
/// the secondary; `Eating` holds both.
#[derive(Clone, Copy, Debug, PartialEq, Eq, Structural)]
pub enum Phase {
    Thinking,
    HoldingPrimary,
    Eating,
}

/// The mathematical image of a table.
#[verifier::ext_equal]
pub struct TableView {
    pub workers: Seq<WorkerView>,
    pub phases: Seq<Phase>,
    pub holder: Seq<Option<int>>,
    pub quota: int,
}

/// The simulation state: `workers[i]` is wired to resources `i` and
/// `i + 1 mod n`, `phases[i]` is its protocol phase, and `holder[f]` is the
/// worker holding resource `f`, if any.
pub struct Table {
    pub workers: Vec<Philosopher>,
    pub phases: Vec<Phase>,
    pub holder: Vec<Option<usize>>,
    pub quota: u32,
}

impl View for Table {
    type V = TableView;

    open spec fn view(&self) -> TableView {
        TableView {
            workers: self.workers@.map_values(|p: Philosopher| p@),
            phases: self.phases@,
            holder: self.holder@.map_values(
                |h: Option<usize>|
                    match h {
                        Option::Some(w) => Option::Some(w as int),
                        Option::None => Option::<int>::None,
                    },
            ),
            quota: self.quota as int,
        }
    }
}

/// The ring adjacency rule: worker `i` is wired to resource `i` on its left
/// and resource `i + 1 mod n` on its right.
pub open spec fn ring_wired(t: TableView) -> bool {
    forall|i: int|
        0 <= i < t.workers.len() ==> (#[trigger] t.workers[i]).left_fork == i
            && t.workers[i].right_fork == (if i + 1 < t.workers.len() {
            i + 1
        } else {
            0
        })
}

/// Whether worker `w` holds resource `f`, read off its phase: the primary is
/// held from its acquisition through the whole cycle, the secondary only
/// while eating, and both are released together on return to `Thinking`.
pub open spec fn holds(t: TableView, w: int, f: int) -> bool {
    match t.phases[w] {
        Phase::Thinking => false,
        Phase::HoldingPrimary => f == spec_primary(t.workers[w]),
        Phase::Eating => f == spec_primary(t.workers[w]) || f == spec_secondary(t.workers[w]),
    }
}

/// The holder record of resource `f` agrees with the phases: whoever is
/// recorded as holding `f` really does.
pub open spec fn holder_ok(t: TableView, f: int) -> bool {
    match t.holder[f] {
        Option::Some(x) => 0 <= x < t.workers.len() && holds(t, x, f),
        Option::None => true,
    }
}

/// Well-formedness of a table: a ring of at least two workers, counters
/// capped by the quota, finished workers at rest, and the holder record in
/// exact agreement with the phases.
pub open spec fn wf(t: TableView) -> bool {
    let n = t.workers.len() as int;
    &&& n >= 2
    &&& t.phases.len() == n
    &&& t.holder.len() == n
    &&& t.quota >= 0
    &&& ring_wired(t)
    &&& (forall|w: int| 0 <= w < n ==> 0 <= (#[trigger] t.workers[w]).counter <= t.quota)
    &&& (forall|w: int|
        0 <= w < n && (#[trigger] t.workers[w]).counter == t.quota ==> t.phases[w]
            == Phase::Thinking)
    &&& (forall|w: int, f: int|
        0 <= w < n && 0 <= f < n && #[trigger] holds(t, w, f) ==> t.holder[f] == Option::Some(w))
    &&& (forall|f: int| 0 <= f < n ==> #[trigger] holder_ok(t, f))
}

/// Exactly the worker at `r` has the reversed handedness.
pub open spec fn one_reversed(t: TableView, r: int) -> bool {
    &&& 0 <= r < t.workers.len()
    &&& t.workers[r].is_left_handed
    &&& forall|w: int|
        0 <= w < t.workers.len() && w != r ==> !(#[trigger] t.workers[w]).is_left_handed
}

/// No worker has the reversed handedness: the deadlock-prone configuration.
pub open spec fn uniform_handed(t: TableView) -> bool {
    forall|w: int| 0 <= w < t.workers.len() ==> !(#[trigger] t.workers[w]).is_left_handed
}

/// Every worker has reached the quota.
pub open spec fn all_done(t: TableView) -> bool {
    forall|w: int| 0 <= w < t.workers.len() ==> (#[trigger] t.workers[w]).counter == t.quota
}

/// Mutual exclusion law: in a well-formed table, no resource is held by two
/// workers at once — the number of workers concurrently holding any resource
/// never exceeds one.
pub proof fn lemma_mutual_exclusion(t: TableView, w1: int, w2: int, f: int)
    requires
        wf(t),
        0 <= w1 < t.workers.len(),
        0 <= w2 < t.workers.len(),
        0 <= f < t.workers.len(),
        holds(t, w1, f),
        holds(t, w2, f),
    ensures
        w1 == w2,
{
    assert(t.holder[f] == Option::Some(w1));
    assert(t.holder[f] == Option::Some(w2));
}

/// Ring structure law: in a well-formed table of `n` workers, each resource
/// `f` is referenced by exactly two workers — worker `f`, whose left resource
/// it is, and its ring predecessor, whose right resource it is — and those
/// two are distinct, so the adjacency forms a single cycle of length `n`.
pub proof fn lemma_ring_two_references(t: TableView, w: int, f: int)
    requires
        wf(t),
        0 <= w < t.workers.len(),
        0 <= f < t.workers.len(),
    ensures
        (t.workers[w].left_fork == f || t.workers[w].right_fork == f) <==> (w == f || w == (if f
            == 0 {
            t.workers.len() - 1
        } else {
            f - 1
        })),
        f != (if f == 0 {
            t.workers.len() - 1
        } else {
            f - 1
        }),
{
}

/// One atomic move of worker `w`'s dine cycle.  A finished worker moves no
/// more.  A thinking worker takes its primary resource when free and
/// otherwise keeps waiting (the unbounded acquisition).  A worker holding its
/// primary takes the secondary when free and eats; when the secondary is
/// busy, the bounded wait times out, and it gives the primary back and
/// returns to thinking — the primary was held for the whole bounded wait, and
/// nothing was eaten.  An eating worker advances its counter by one and
/// releases both resources together.
pub open spec fn spec_step(t: TableView, w: int) -> TableView
    recommends
        wf(t),
        0 <= w < t.workers.len(),
{
    let wk = t.workers[w];
    let prim = spec_primary(wk);
    let sec = spec_secondary(wk);
    if wk.counter == t.quota {
        t
    } else {
        match t.phases[w] {
            Phase::Thinking => if t.holder[prim] is None {
                TableView {
                    phases: t.phases.update(w, Phase::HoldingPrimary),
                    holder: t.holder.update(prim, Option::Some(w)),
                    ..t
                }
            } else {
                t
            },
            Phase::HoldingPrimary => if t.holder[sec] is None {
                TableView {
                    phases: t.phases.update(w, Phase::Eating),
                    holder: t.holder.update(sec, Option::Some(w)),
                    ..t
                }
            } else {
                TableView {
                    phases: t.phases.update(w, Phase::Thinking),
                    holder: t.holder.update(prim, Option::None),
                    ..t
                }
            },
            Phase::Eating => TableView {
                workers: t.workers.update(w, WorkerView { counter: wk.counter + 1, ..wk }),
                phases: t.phases.update(w, Phase::Thinking),
                holder: t.holder.update(prim, Option::None).update(sec, Option::None),
                ..t
            },
        }
    }
}

/// A worker's primary and secondary resources both lie in the ring and are
/// distinct.
pub proof fn lemma_forks_in_ring(t: TableView, w: int)
    requires
        wf(t),
        0 <= w < t.workers.len(),
    ensures
        0 <= spec_primary(t.workers[w]) < t.workers.len(),
        0 <= spec_secondary(t.workers[w]) < t.workers.len(),
        spec_primary(t.workers[w]) != spec_secondary(t.workers[w]),
{
    assert(t.workers[w].left_fork == w);
}

/// Every move preserves well-formedness — in particular the agreement of the
/// holder record with the phases, from which mutual exclusion follows.
pub proof fn lemma_step_preserves_wf(t: TableView, w: int)
    requires
        wf(t),
        0 <= w < t.workers.len(),
    ensures
        wf(spec_step(t, w)),
{
    let n = t.workers.len() as int;
    let wk = t.workers[w];
    let prim = spec_primary(wk);
    let sec = spec_secondary(wk);
    let t2 = spec_step(t, w);
    lemma_forks_in_ring(t, w);
    if wk.counter != t.quota {
        match t.phases[w] {
            Phase::Thinking => {
                if t.holder[prim] is None {
                    assert forall|x: int, f: int|
                        0 <= x < n && 0 <= f < n && #[trigger] holds(t2, x, f) implies t2.holder[f]
                        == Option::Some(x) by {
                        if x == w {
                            assert(f == prim);
                        } else {
                            assert(holds(t, x, f));
                            assert(t.holder[f] == Option::Some(x));
                            assert(holder_ok(t, prim));
                            assert(f != prim);
                        }
                    }
                    assert forall|f: int| 0 <= f < n implies #[trigger] holder_ok(t2, f) by {
                        if f == prim {
                            assert(holds(t2, w, prim));
                        } else {
                            assert(holder_ok(t, f));
                            if t.holder[f] is Some {
                                let x = t.holder[f]->0;
                                assert(holds(t, x, f));
                                assert(x != w);
                                assert(holds(t2, x, f));
                            }
                        }
                    }
                }
            },
            Phase::HoldingPrimary => {
                assert(holds(t, w, prim));
                assert(t.holder[prim] == Option::Some(w));
                if t.holder[sec] is None {
                    assert forall|x: int, f: int|
                        0 <= x < n && 0 <= f < n && #[trigger] holds(t2, x, f) implies t2.holder[f]
                        == Option::Some(x) by {
                        if x == w {
                            assert(f == prim || f == sec);
                        } else {
                            assert(holds(t, x, f));
                            assert(t.holder[f] == Option::Some(x));
                            assert(holder_ok(t, sec));
                            assert(f != sec);
                        }
                    }
                    assert forall|f: int| 0 <= f < n implies #[trigger] holder_ok(t2, f) by {
                        if f == sec {
                            assert(holds(t2, w, sec));
                        } else {
                            assert(holder_ok(t, f));
                            if t.holder[f] is Some {
                                let x = t.holder[f]->0;
                                assert(holds(t, x, f));
                                if x == w {
                                    assert(f == prim);
                                    assert(holds(t2, w, prim));
                                } else {
                                    assert(holds(t2, x, f));
                                }
                            }
                        }
                    }
                } else {
                    assert forall|x: int, f: int|
                        0 <= x < n && 0 <= f < n && #[trigger] holds(t2, x, f) implies t2.holder[f]
                        == Option::Some(x) by {
                        assert(x != w);
                        assert(holds(t, x, f));
                        assert(t.holder[f] == Option::Some(x));
                        assert(f != prim);
                    }
                    assert forall|f: int| 0 <= f < n implies #[trigger] holder_ok(t2, f) by {
                        if f != prim {
                            assert(holder_ok(t, f));
                            if t.holder[f] is Some {
                                let x = t.holder[f]->0;
                                assert(holds(t, x, f));
                                assert(x != w);
                                assert(holds(t2, x, f));
                            }
                        }
                    }
                }
            },
            Phase::Eating => {
                assert(holds(t, w, prim));
                assert(holds(t, w, sec));
                assert(t.holder[prim] == Option::Some(w));
                assert(t.holder[sec] == Option::Some(w));
                assert(spec_primary(t2.workers[w]) == prim);
                assert(spec_secondary(t2.workers[w]) == sec);
                assert(ring_wired(t2)) by {
                    assert forall|i: int|
                        0 <= i < n implies (#[trigger] t2.workers[i]).left_fork == i
                        && t2.workers[i].right_fork == (if i + 1 < n {
                        i + 1
                    } else {
                        0
                    }) by {
                        assert(t.workers[i].left_fork == i);
                    }
                }
                assert forall|x: int, f: int|
                    0 <= x < n && 0 <= f < n && #[trigger] holds(t2, x, f) implies t2.holder[f]
                    == Option::Some(x) by {
                    assert(x != w);
                    assert(t2.workers[x] == t.workers[x]);
                    assert(holds(t, x, f));
                    assert(t.holder[f] == Option::Some(x));
                    assert(f != prim && f != sec);
                }
                assert forall|f: int| 0 <= f < n implies #[trigger] holder_ok(t2, f) by {
                    if f != prim && f != sec {
                        assert(holder_ok(t, f));
                        if t.holder[f] is Some {
                            let x = t.holder[f]->0;
                            assert(holds(t, x, f));
                            assert(x != w);
                            assert(t2.workers[x] == t.workers[x]);
                            assert(holds(t2, x, f));
                        }
                    }
                }
            },
        }
    }
}

/// Counter law, one move: no counter changes but the moving worker's; it
/// advances by exactly one when the worker finishes eating and is otherwise
/// untouched; it never passes the quota; and a finished worker's move changes
/// nothing at all.  With counters starting at zero, each worker's counter
/// thus runs through exactly zero, one, two, … up to the quota, and stops
/// there.
pub proof fn lemma_counter_step(t: TableView, w: int)
    requires
        wf(t),
        0 <= w < t.workers.len(),
    ensures
        spec_step(t, w).workers.len() == t.workers.len(),
        spec_step(t, w).phases.len() == t.phases.len(),
        spec_step(t, w).holder.len() == t.holder.len(),
        spec_step(t, w).quota == t.quota,
        forall|x: int|
            0 <= x < t.workers.len() && x != w ==> spec_step(t, w).workers[x] == t.workers[x],
        spec_step(t, w).workers[w].counter == t.workers[w].counter + (if t.phases[w]
            == Phase::Eating {
            1int
        } else {
            0int
        }),
        spec_step(t, w).workers[w].counter <= t.quota,
        spec_step(t, w).workers[w].left_fork == t.workers[w].left_fork,
        spec_step(t, w).workers[w].right_fork == t.workers[w].right_fork,
        spec_step(t, w).workers[w].is_left_handed == t.workers[w].is_left_handed,
        spec_step(t, w).workers[w].name == t.workers[w].name,
        t.workers[w].counter == t.quota ==> spec_step(t, w) == t,
{
}

/// Runs the moves of `schedule` in order, each entry naming the worker whose
/// dine cycle advances by one atomic move.
pub open spec fn spec_run(t: TableView, schedule: Seq<int>) -> TableView
    decreases schedule.len(),
{
    if schedule.len() == 0 {
        t
    } else {
        spec_run(spec_step(t, schedule[0]), schedule.skip(1))
    }
}

/// Counter law, whole runs: any schedule of moves keeps the table well
/// formed, its shape and quota unchanged, and every worker's counter
/// non-decreasing (and, by well-formedness, never past the quota).
pub proof fn lemma_run_counters_monotonic(t: TableView, schedule: Seq<int>)
    requires
        wf(t),
        forall|i: int| 0 <= i < schedule.len() ==> 0 <= #[trigger] schedule[i] < t.workers.len(),
    ensures
        wf(spec_run(t, schedule)),
        spec_run(t, schedule).workers.len() == t.workers.len(),
        spec_run(t, schedule).quota == t.quota,
        forall|x: int|
            0 <= x < t.workers.len() ==> t.workers[x].counter <= #[trigger] spec_run(
                t,
                schedule,
            ).workers[x].counter,
    decreases schedule.len(),
{
    if schedule.len() > 0 {
        let w = schedule[0];
        lemma_step_preserves_wf(t, w);
        lemma_counter_step(t, w);
        assert(forall|i: int|
            0 <= i < schedule.skip(1).len() ==> 0 <= #[trigger] schedule.skip(1)[i] < spec_step(
                t,
                w,
            ).workers.len());
        lemma_run_counters_monotonic(spec_step(t, w), schedule.skip(1));
    }
}

/// One fair round: each worker in turn, in index order.
pub open spec fn round_schedule(n: int) -> Seq<int> {
    Seq::new(n as nat, |i: int| i)
}

/// The driver's round-robin run: fair rounds until every worker has reached
/// the quota or `rounds` rounds have passed; the reached table, and whether
/// all finished.
pub open spec fn spec_round_robin(t: TableView, rounds: int) -> (TableView, bool)
    decreases rounds,
{
    if all_done(t) {
        (t, true)
    } else if rounds <= 0 {
        (t, false)
    } else {
        spec_round_robin(spec_run(t, round_schedule(t.workers.len() as int)), rounds - 1)
    }
}

/// Deadlock-avoidance law: with exactly one reversed-handed worker in the
/// ring, the circular wait is impossible — never do all workers hold their
/// primary resource at once.  The reversed worker's primary is its left
/// resource, which is also the primary of its ring predecessor; mutual
/// exclusion forbids both holding it.
pub proof fn lemma_no_circular_wait(t: TableView, r: int)
    requires
        wf(t),
        one_reversed(t, r),
    ensures
        exists|x: int|
            0 <= x < t.workers.len() && (#[trigger] t.phases[x]) != Phase::HoldingPrimary,
{
    let n = t.workers.len() as int;
    let p = if r == 0 {
        n - 1
    } else {
        r - 1
    };
    assert(t.workers[r].left_fork == r);
    assert(t.workers[p].left_fork == p);
    if t.phases[r] == Phase::HoldingPrimary && t.phases[p] == Phase::HoldingPrimary {
        assert(spec_primary(t.workers[r]) == r);
        assert(spec_primary(t.workers[p]) == r);
        assert(holds(t, r, r));
        assert(holds(t, p, r));
        lemma_mutual_exclusion(t, r, p, r);
        assert(false);
    }
    if t.phases[r] != Phase::HoldingPrimary {
        assert(0 <= r < n && t.phases[r] != Phase::HoldingPrimary);
    } else {
        assert(0 <= p < n && t.phases[p] != Phase::HoldingPrimary);
    }
}

/// Progress law: as long as some worker has not reached its quota, some
/// worker's next move changes the state — the protocol has no stuck state.
/// A worker holding resources can always move (eat, or give the primary back
/// when the bounded wait times out), and when every worker is thinking, every
/// resource is free, so an unfinished worker can take its primary.
pub proof fn lemma_no_deadlock(t: TableView, w: int)
    requires
        wf(t),
        0 <= w < t.workers.len(),
        t.workers[w].counter != t.quota,
    ensures
        exists|x: int| 0 <= x < t.workers.len() && spec_step(t, x) != t,
{
    let n = t.workers.len() as int;
    if exists|x: int| 0 <= x < n && (#[trigger] t.phases[x]) != Phase::Thinking {
        let x = choose|x: int| 0 <= x < n && (#[trigger] t.phases[x]) != Phase::Thinking;
        lemma_forks_in_ring(t, x);
        assert(t.workers[x].counter != t.quota);
        let t2 = spec_step(t, x);
        assert(t2.phases[x] != t.phases[x]);
        assert(0 <= x < n && spec_step(t, x) != t);
    } else {
        lemma_forks_in_ring(t, w);
        let prim = spec_primary(t.workers[w]);
        assert(holder_ok(t, prim));
        if t.holder[prim] is Some {
            let x = t.holder[prim]->0;
            assert(holds(t, x, prim));
            assert(false);
        }
        let t2 = spec_step(t, w);
        assert(t2.phases[w] == Phase::HoldingPrimary);
        assert(t2.phases[w] != t.phases[w]);
        assert(0 <= w < n && spec_step(t, w) != t);
    }
}

/// Running a schedule and then one more move is one more move after the
/// schedule.
pub proof fn lemma_run_snoc(t: TableView, schedule: Seq<int>, w: int)
    ensures
        spec_run(t, schedule.push(w)) == spec_step(spec_run(t, schedule), w),
    decreases schedule.len(),
{
    if schedule.len() == 0 {
        assert(schedule.push(w)[0] == w);
        assert(schedule.push(w).skip(1) =~= Seq::<int>::empty());
        assert(spec_run(t, schedule.push(w)) == spec_run(spec_step(t, w), Seq::<int>::empty()));
        assert(spec_run(spec_step(t, w), Seq::<int>::empty()) == spec_step(t, w));
        assert(spec_run(t, schedule) == t);
    } else {
        assert(schedule.push(w)[0] == schedule[0]);
        assert(schedule.push(w).skip(1) =~= schedule.skip(1).push(w));
        assert(spec_run(t, schedule.push(w)) == spec_run(
            spec_step(t, schedule[0]),
            schedule.skip(1).push(w),
        ));
        lemma_run_snoc(spec_step(t, schedule[0]), schedule.skip(1), w);
        assert(spec_run(t, schedule) == spec_run(spec_step(t, schedule[0]), schedule.skip(1)));
    }
}

/// In the deadlock-prone configuration, one move each in index order fills
/// the ring: after the first `k` workers have moved once from the fresh
/// state, each of them holds its primary (its right resource) and the rest
/// still think; no counter has changed.
pub proof fn lemma_uniform_fill(t: TableView, k: int)
    requires
        wf(t),
        uniform_handed(t),
        forall|x: int| 0 <= x < t.workers.len() ==> (#[trigger] t.workers[x]).counter != t.quota,
        forall|x: int| 0 <= x < t.workers.len() ==> (#[trigger] t.phases[x]) == Phase::Thinking,
        forall|f: int| 0 <= f < t.workers.len() ==> (#[trigger] t.holder[f]) is None,
        0 <= k <= t.workers.len(),
    ensures
        spec_run(t, round_schedule(t.workers.len() as int).take(k)).workers == t.workers,
        spec_run(t, round_schedule(t.workers.len() as int).take(k)).quota == t.quota,
        spec_run(t, round_schedule(t.workers.len() as int).take(k)).phases.len()
            == t.workers.len(),
        spec_run(t, round_schedule(t.workers.len() as int).take(k)).holder.len()
            == t.workers.len(),
        forall|x: int|
            0 <= x < k ==> (#[trigger] spec_run(
                t,
                round_schedule(t.workers.len() as int).take(k),
            ).phases[x]) == Phase::HoldingPrimary,
        forall|x: int|
            k <= x < t.workers.len() ==> (#[trigger] spec_run(
                t,
                round_schedule(t.workers.len() as int).take(k),
            ).phases[x]) == Phase::Thinking,
        forall|f: int|
            1 <= f <= k && f < t.workers.len() ==> (#[trigger] spec_run(
                t,
                round_schedule(t.workers.len() as int).take(k),
            ).holder[f]) == Option::Some(f - 1),
        forall|f: int|
            k < f < t.workers.len() ==> (#[trigger] spec_run(
                t,
                round_schedule(t.workers.len() as int).take(k),
            ).holder[f]) is None,
        spec_run(t, round_schedule(t.workers.len() as int).take(k)).holder[0] == (if k
            == t.workers.len() {
            Option::Some(t.workers.len() - 1)
        } else {
            Option::<int>::None
        }),
    decreases k,
{
    let n = t.workers.len() as int;
    let sched = round_schedule(n);
    if k == 0 {
        assert(sched.take(0) =~= Seq::<int>::empty());
    } else {
        lemma_uniform_fill(t, k - 1);
        let t1 = spec_run(t, sched.take(k - 1));
        assert(sched.take(k) =~= sched.take(k - 1).push(k - 1));
        lemma_run_snoc(t, sched.take(k - 1), k - 1);
        assert(t.workers[k - 1].left_fork == k - 1);
        let prim = spec_primary(t1.workers[k - 1]);
        assert(prim == (if k < n {
            k
        } else {
            0
        }));
        assert(t1.holder[prim] is None);
        assert(spec_run(t, sched.take(k)) == spec_step(t1, k - 1));
    }
}

/// Contrast law for the avoidance mechanism, reachability half: from the
/// fresh deadlock-prone table — every worker thinking, every resource free,
/// nobody finished, no reversed handedness — one move each in index order
/// leaves every worker holding its primary resource: the classic circular
/// wait, which `lemma_no_circular_wait` shows the single reversed worker
/// makes impossible.
pub proof fn lemma_uniform_reaches_circular_wait(t: TableView)
    requires
        wf(t),
        uniform_handed(t),
        forall|x: int| 0 <= x < t.workers.len() ==> (#[trigger] t.workers[x]).counter != t.quota,
        forall|x: int| 0 <= x < t.workers.len() ==> (#[trigger] t.phases[x]) == Phase::Thinking,
        forall|f: int| 0 <= f < t.workers.len() ==> (#[trigger] t.holder[f]) is None,
    ensures
        spec_run(t, round_schedule(t.workers.len() as int)).workers == t.workers,
        forall|x: int|
            0 <= x < t.workers.len() ==> (#[trigger] spec_run(
                t,
                round_schedule(t.workers.len() as int),
            ).phases[x]) == Phase::HoldingPrimary,
{
    let n = t.workers.len() as int;
    lemma_uniform_fill(t, n);
    assert(round_schedule(n).take(n) =~= round_schedule(n));
}

/// Contrast law for the avoidance mechanism: with the reversed flag removed
/// from every worker, the configuration in which each worker holds its
/// primary resource simply repeats itself — worker zero's bounded wait for
/// its secondary times out, it gives its primary back, and retakes it — so
/// the system admits an endless run in which no counter ever advances.
pub proof fn lemma_uniform_no_progress(t: TableView)
    requires
        wf(t),
        uniform_handed(t),
        forall|x: int|
            0 <= x < t.workers.len() ==> (#[trigger] t.phases[x]) == Phase::HoldingPrimary,
    ensures
        spec_step(spec_step(t, 0), 0) == t,
{
    let n = t.workers.len() as int;
    lemma_forks_in_ring(t, 0);
    assert(t.workers[0].left_fork == 0);
    let prim = spec_primary(t.workers[0]);
    let sec = spec_secondary(t.workers[0]);
    assert(prim == 1 && sec == 0);
    assert(t.workers[0].counter != t.quota);
    assert(t.workers[n - 1].left_fork == n - 1);
    assert(spec_primary(t.workers[n - 1]) == 0);
    assert(holds(t, n - 1, 0));
    assert(t.holder[0] == Option::Some(n - 1));
    assert(holds(t, 0, 1));
    assert(t.holder[1] == Option::Some(0int));
    let t1 = spec_step(t, 0);
    assert(t1.phases == t.phases.update(0, Phase::Thinking));
    assert(t1.holder == t.holder.update(1, Option::None));
    assert(t1.workers == t.workers);
    assert(t1.quota == t.quota);
    assert(t1.holder[1] is None);
    assert(t1.phases[0] == Phase::Thinking);
    let t2 = spec_step(t1, 0);
    assert(t2.phases =~= t.phases);
    assert(t2.holder =~= t.holder);
    assert(t2 =~= t);
}

impl Table {
    /// Builds the ring: `n` resources, all free, and `n` workers each wired
    /// to resources `i` and `i + 1 mod n`, all thinking with counters at
    /// zero; the worker at `lefty_at` gets the reversed handedness, and
    /// `lefty_at == n` gives it to none.
    fn build(n: usize, lefty_at: usize, quota: u32) -> (t: Table)
        requires
            2 <= n,
            lefty_at <= n,
        ensures
            wf(t@),
            t@.workers.len() == n as int,
            t@.quota == quota as int,
            forall|w: int| 0 <= w < n as int ==> (#[trigger] t@.workers[w]).counter == 0,
            forall|w: int|
                0 <= w < n as int ==> ((#[trigger] t@.workers[w]).is_left_handed <==> w
                    == lefty_at as int),
            forall|w: int| 0 <= w < n as int ==> (#[trigger] t@.phases[w]) == Phase::Thinking,
            forall|f: int| 0 <= f < n as int ==> (#[trigger] t@.holder[f]) is None,
    {
        let mut workers: Vec<Philosopher> = Vec::new();
        let mut phases: Vec<Phase> = Vec::new();
        let mut holder: Vec<Option<usize>> = Vec::new();
        let mut i: usize = 0;
        while i < n
            invariant
                i <= n,
                2 <= n,
                lefty_at <= n,
                workers@.len() == i as int,
                phases@.len() == i as int,
                holder@.len() == i as int,
                forall|w: int|
                    0 <= w < i as int ==> (#[trigger] workers@[w])@.left_fork == w
                        && workers@[w]@.right_fork == (if w + 1 < n as int {
                        w + 1
                    } else {
                        0
                    }) && workers@[w]@.counter == 0 && (workers@[w]@.is_left_handed <==> w
                        == lefty_at as int),
                forall|w: int| 0 <= w < i as int ==> (#[trigger] phases@[w]) == Phase::Thinking,
                forall|f: int| 0 <= f < i as int ==> (#[trigger] holder@[f]) is None,
            decreases n - i,
        {
            let right = if i + 1 < n {
                i + 1
            } else {
                0
            };
            workers.push(Philosopher::new("", i, right, i == lefty_at));
            phases.push(Phase::Thinking);
            holder.push(Option::None);
            i = i + 1;
        }
        let t = Table { workers, phases, holder, quota };
        proof {
            assert forall|w: int, f: int|
                0 <= w < n as int && 0 <= f < n as int && #[trigger] holds(t@, w, f) implies t@
                .holder[f] == Option::Some(w) by {
                assert(t@.phases[w] == Phase::Thinking);
            }
        }
        t
    }

    /// The reference configuration: a ring of `n` workers and `n` resources
    /// with exactly one reversed-handed worker, at index `reversed`, all
    /// counters at zero and all resources free.
    pub fn new(n: usize, reversed: usize, quota: u32) -> (t: Table)
        requires
            2 <= n,
            reversed < n,
        ensures
            wf(t@),
            one_reversed(t@, reversed as int),
            t@.workers.len() == n as int,
            t@.quota == quota as int,
            forall|w: int| 0 <= w < n as int ==> (#[trigger] t@.workers[w]).counter == 0,
            forall|w: int| 0 <= w < n as int ==> (#[trigger] t@.phases[w]) == Phase::Thinking,
            forall|f: int| 0 <= f < n as int ==> (#[trigger] t@.holder[f]) is None,
    {
        Table::build(n, reversed, quota)
    }

    /// The deadlock-prone contrast configuration: the same ring with the
    /// reversed handedness removed from every worker.
    pub fn new_uniform(n: usize, quota: u32) -> (t: Table)
        requires
            2 <= n,
        ensures
            wf(t@),
            uniform_handed(t@),
            t@.workers.len() == n as int,
            t@.quota == quota as int,
            forall|w: int| 0 <= w < n as int ==> (#[trigger] t@.workers[w]).counter == 0,
            forall|w: int| 0 <= w < n as int ==> (#[trigger] t@.phases[w]) == Phase::Thinking,
            forall|f: int| 0 <= f < n as int ==> (#[trigger] t@.holder[f]) is None,
    {
        Table::build(n, n, quota)
    }

    /// Whether every worker has reached the quota.
    pub fn all_workers_done(&self) -> (r: bool)
        ensures
            r == all_done(self@),
    {
        let mut w: usize = 0;
        while w < self.workers.len()
            invariant
                w as int <= self@.workers.len(),
                forall|x: int|
                    0 <= x < w as int ==> (#[trigger] self@.workers[x]).counter == self@.quota,
            decreases self@.workers.len() - w as int,
        {
            if self.workers[w].counter != self.quota {
                assert(self@.workers[w as int].counter != self@.quota);
                return false;
            }
            w = w + 1;
        }
        true
    }

    /// Runs the next atomic move of worker `w`'s dine cycle, as `spec_step`
    /// describes it, and keeps the table well-formed.
    pub fn step(&mut self, w: usize)
        requires
            wf(old(self)@),
            w < old(self)@.workers.len(),
        ensures
            wf(final(self)@),
            final(self)@ == spec_step(old(self)@, w as int),
    {
        proof {
            lemma_step_preserves_wf(old(self)@, w as int);
            lemma_forks_in_ring(old(self)@, w as int);
        }
        let prim = self.workers[w].primary_fork();
        let sec = self.workers[w].secondary_fork();
        assert(prim < self.holder.len());
        assert(sec < self.holder.len());
        if self.workers[w].counter == self.quota {
            return;
        }
        let ph = self.phases[w];
        match ph {
            Phase::Thinking => {
                if self.holder[prim].is_none() {
                    self.phases[w] = Phase::HoldingPrimary;
                    self.holder[prim] = Option::Some(w);
                }
            },
            Phase::HoldingPrimary => {
                if self.holder[sec].is_none() {
                    self.phases[w] = Phase::Eating;
                    self.holder[sec] = Option::Some(w);
                } else {
                    self.phases[w] = Phase::Thinking;
                    self.holder[prim] = Option::None;
                }
            },
            Phase::Eating => {
                let c = self.workers[w].counter;
                self.workers[w].counter = c + 1;
                self.phases[w] = Phase::Thinking;
                self.holder[prim] = Option::None;
                self.holder[sec] = Option::None;
            },
        }
        proof {
            assert(self@.workers =~= spec_step(old(self)@, w as int).workers);
            assert(self@.phases =~= spec_step(old(self)@, w as int).phases);
            assert(self@.holder =~= spec_step(old(self)@, w as int).holder);
            assert(self@ =~= spec_step(old(self)@, w as int));
        }
    }

    /// Runs the moves of `schedule` in order, as `spec_run` describes them.
    pub fn run_schedule(&mut self, schedule: &Vec<usize>)
        requires
            wf(old(self)@),
            forall|i: int|
                0 <= i < schedule@.len() ==> (#[trigger] schedule@[i]) < old(
                    self,
                )@.workers.len(),
        ensures
            wf(final(self)@),
            final(self)@ == spec_run(old(self)@, schedule@.map_values(|u: usize| u as int)),
    {
        let ghost sched = schedule@.map_values(|u: usize| u as int);
        proof {
            assert(sched.skip(0) =~= sched);
        }
        let mut i: usize = 0;
        while i < schedule.len()
            invariant
                i as int <= schedule@.len(),
                wf(self@),
                sched == schedule@.map_values(|u: usize| u as int),
                self@.workers.len() == old(self)@.workers.len(),
                forall|j: int|
                    0 <= j < schedule@.len() ==> (#[trigger] schedule@[j]) < old(
                        self,
                    )@.workers.len(),
                spec_run(old(self)@, sched) == spec_run(self@, sched.skip(i as int)),
            decreases schedule@.len() - i as int,
        {
            let w = schedule[i];
            proof {
                lemma_counter_step(self@, w as int);
                assert(sched.skip(i as int)[0] == w as int);
                assert(sched.skip(i as int).skip(1) =~= sched.skip(i as int + 1));
            }
            self.step(w);
            i = i + 1;
        }
        proof {
            assert(sched.skip(schedule@.len() as int) =~= Seq::<int>::empty());
        }
    }

    /// The driver loop under a fair round-robin schedule: every worker moves
    /// in turn, round after round, until all have reached the quota or
    /// `max_rounds` rounds have passed; reports whether all finished.
    /// Counters never decrease along the way.
    pub fn run_round_robin(&mut self, max_rounds: u64) -> (done: bool)
        requires
            wf(old(self)@),
        ensures
            wf(final(self)@),
            ((*final(self))@, done) == spec_round_robin(old(self)@, max_rounds as int),
            done == all_done(final(self)@),
            final(self)@.workers.len() == old(self)@.workers.len(),
            final(self)@.quota == old(self)@.quota,
            forall|x: int|
                0 <= x < old(self)@.workers.len() ==> old(self)@.workers[x].counter <= (
                #[trigger] final(self)@.workers[x]).counter,
    {
        let n = self.workers.len();
        let mut order: Vec<usize> = Vec::new();
        let mut k: usize = 0;
        while k < n
            invariant
                k <= n,
                order@.len() == k as int,
                forall|j: int| 0 <= j < k as int ==> (#[trigger] order@[j]) == j,
            decreases n - k,
        {
            order.push(k);
            k = k + 1;
        }
        proof {
            assert(order@.map_values(|u: usize| u as int) =~= round_schedule(n as int));
        }
        let mut round: u64 = 0;
        loop
            invariant
                wf(self@),
                round <= max_rounds,
                n as int == self@.workers.len(),
                self@.workers.len() == old(self)@.workers.len(),
                self@.quota == old(self)@.quota,
                order@.len() == n as int,
                forall|j: int| 0 <= j < n as int ==> (#[trigger] order@[j]) == j,
                order@.map_values(|u: usize| u as int) == round_schedule(n as int),
                spec_round_robin(old(self)@, max_rounds as int) == spec_round_robin(
                    self@,
                    max_rounds as int - round as int,
                ),
                forall|x: int|
                    0 <= x < old(self)@.workers.len() ==> old(self)@.workers[x].counter <= (
                    #[trigger] self@.workers[x]).counter,
            decreases max_rounds - round,
        {
            if self.all_workers_done() {
                return true;
            }
            if round == max_rounds {
                return false;
            }
            let ghost before = self@;
            proof {
                lemma_run_counters_monotonic(before, round_schedule(n as int));
            }
            self.run_schedule(&order);
            round = round + 1;
        }
    }
}

} // verus!
