use dining::table::{Phase, Table};

/// The forks worker `w` holds, read off its phase as the protocol defines it.
fn held_forks(t: &Table, w: usize) -> Vec<usize> {
    match t.phases[w] {
        Phase::Thinking => vec![],
        Phase::HoldingPrimary => vec![t.workers[w].primary_fork()],
        Phase::Eating => vec![t.workers[w].primary_fork(), t.workers[w].secondary_fork()],
    }
}

/// Asserts that no fork is held by two workers at once and that the holder
/// record agrees with the phases.
fn assert_mutual_exclusion(t: &Table) {
    let n = t.workers.len();
    let mut holders_per_fork = vec![0usize; n];
    for w in 0..n {
        for f in held_forks(t, w) {
            holders_per_fork[f] += 1;
            assert_eq!(t.holder[f], Some(w));
        }
    }
    for f in 0..n {
        assert!(holders_per_fork[f] <= 1);
    }
}

#[test]
fn ring_structure_of_new_table() {
    let n = 5;
    let t = Table::new(n, 4, 6);
    let mut references = vec![0usize; n];
    let mut reversed_count = 0;
    for i in 0..n {
        assert_eq!(t.workers[i].left_fork, i);
        assert_eq!(t.workers[i].right_fork, (i + 1) % n);
        references[t.workers[i].left_fork] += 1;
        references[t.workers[i].right_fork] += 1;
        if t.workers[i].is_left_handed {
            reversed_count += 1;
        }
        assert_eq!(t.phases[i], Phase::Thinking);
        assert_eq!(t.holder[i], None);
        assert_eq!(t.workers[i].counter, 0);
    }
    // each resource is referenced by exactly two workers
    for f in 0..n {
        assert_eq!(references[f], 2);
    }
    assert_eq!(reversed_count, 1);
    assert!(t.workers[4].is_left_handed);
}

#[test]
fn acquire_eat_release_cycle() {
    let mut t = Table::new(5, 4, 6);
    // worker 0 is normal-handed: primary is fork 1, secondary fork 0
    t.step(0);
    assert_eq!(t.phases[0], Phase::HoldingPrimary);
    assert_eq!(t.holder[1], Some(0));
    t.step(0);
    assert_eq!(t.phases[0], Phase::Eating);
    assert_eq!(t.holder[0], Some(0));
    t.step(0);
    assert_eq!(t.phases[0], Phase::Thinking);
    assert_eq!(t.workers[0].counter, 1);
    assert_eq!(t.holder[0], None);
    assert_eq!(t.holder[1], None);
}

#[test]
fn failed_secondary_releases_primary() {
    let mut t = Table::new(5, 4, 6);
    t.step(0);
    assert_eq!(t.holder[1], Some(0));
    // worker 1 takes its primary (fork 2), then its bounded wait for fork 1
    // times out because worker 0 holds it: both guards are given up together
    t.step(1);
    assert_eq!(t.phases[1], Phase::HoldingPrimary);
    assert_eq!(t.holder[2], Some(1));
    t.step(1);
    assert_eq!(t.phases[1], Phase::Thinking);
    assert_eq!(t.holder[2], None);
    assert_eq!(t.workers[1].counter, 0);
    // worker 0 kept its primary through all of that
    assert_eq!(t.holder[1], Some(0));
}

#[test]
fn mutual_exclusion_along_a_run() {
    let mut t = Table::new(5, 4, 6);
    assert_mutual_exclusion(&t);
    for round in 0..120 {
        for w in 0..5 {
            t.step((w + round) % 5);
            assert_mutual_exclusion(&t);
        }
    }
}

#[test]
fn five_workers_reach_quota() {
    let mut t = Table::new(5, 4, 6);
    let done = t.run_round_robin(10_000);
    assert!(done);
    let mut total = 0;
    for w in 0..5 {
        assert_eq!(t.workers[w].counter, 6);
        total += t.workers[w].counter;
    }
    assert_eq!(total, 30);
}

#[test]
fn three_workers_reach_quota() {
    let mut t = Table::new(3, 2, 3);
    let done = t.run_round_robin(10_000);
    assert!(done);
    for w in 0..3 {
        assert_eq!(t.workers[w].counter, 3);
    }
}

#[test]
fn uniform_ring_makes_no_progress() {
    // the deadlock-prone contrast configuration: no reversed worker
    let mut t = Table::new_uniform(3, 1);
    // one move each: every worker takes its primary, none can eat
    t.run_schedule(&vec![0, 1, 2]);
    for w in 0..3 {
        assert_eq!(t.phases[w], Phase::HoldingPrimary);
        assert_eq!(t.workers[w].counter, 0);
    }
    // a bounded window in which the system only spins: worker 0 times out on
    // its secondary, gives its primary back and retakes it, over and over
    for _ in 0..100 {
        t.run_schedule(&vec![0, 0]);
        for w in 0..3 {
            assert_eq!(t.phases[w], Phase::HoldingPrimary);
            assert_eq!(t.workers[w].counter, 0);
        }
    }
    assert!(!t.all_workers_done());
}

#[test]
fn counters_climb_one_meal_at_a_time() {
    let mut t = Table::new(3, 2, 4);
    let mut prev: Vec<u32> = (0..3).map(|w| t.workers[w].counter).collect();
    for round in 0..2_000 {
        let w = round % 3;
        t.step(w);
        for x in 0..3 {
            let c = t.workers[x].counter;
            // monotone, by steps of one, never past the quota
            assert!(c == prev[x] || (x == w && c == prev[x] + 1));
            assert!(c <= 4);
            prev[x] = c;
        }
    }
    // the fair run reaches the quota exactly, for every worker
    assert!(t.all_workers_done());
    for x in 0..3 {
        assert_eq!(t.workers[x].counter, 4);
    }
}

#[test]
fn finished_worker_never_moves_again() {
    let mut t = Table::new(2, 1, 1);
    let done = t.run_round_robin(1_000);
    assert!(done);
    t.step(0);
    assert_eq!(t.phases[0], Phase::Thinking);
    assert_eq!(t.workers[0].counter, 1);
    assert_eq!(t.holder[0], None);
    assert_eq!(t.holder[1], None);
}
