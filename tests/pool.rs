use frame_pool::threads::{Job, Threads, Worker, WorkerState};

/// Runs the workers' loops in rounds until the counter reads zero: every idle
/// worker takes a job if one is queued, then every running worker finishes.
/// Returns the payloads executed, in order, and how often the completion
/// signal fired.
fn drive(pool: &mut Threads<u64>) -> (Vec<u64>, usize) {
    let mut executed = Vec::new();
    let mut signals = 0;
    while pool.wait() {
        for w in 0..pool.worker_count() {
            if pool.worker(w).state == WorkerState::Idle {
                if let Some(Job::Invoke(x)) = pool.take(w) {
                    executed.push(x);
                }
            }
        }
        for w in 0..pool.worker_count() {
            if let WorkerState::Running { .. } = pool.worker(w).state {
                if pool.finish(w) {
                    signals += 1;
                }
            }
        }
    }
    (executed, signals)
}

#[test]
fn four_workers_run_four_jobs() {
    let mut pool: Threads<u64> = Threads::with_workers(4);
    for i in 0..4u64 {
        pool.send(Job::Invoke(i));
    }
    assert_eq!(pool.jobs_outstanding(), 4);
    assert!(pool.wait());
    let (mut executed, signals) = drive(&mut pool);
    executed.sort();
    assert_eq!(executed, vec![0, 1, 2, 3]);
    assert_eq!(signals, 1);
    assert!(!pool.wait());
}

#[test]
fn idle_wait_does_not_block() {
    let pool: Threads<u64> = Threads::with_workers(1);
    assert!(!pool.wait());
    assert_eq!(pool.jobs_outstanding(), 0);
}

#[test]
fn hundred_jobs_in_one_batch() {
    let mut pool: Threads<u64> = Threads::with_workers(8);
    let jobs: Vec<Job<u64>> = (0..100u64).map(Job::Invoke).collect();
    pool.send_jobs(jobs);
    assert_eq!(pool.jobs_outstanding(), 100);
    let (executed, signals) = drive(&mut pool);
    assert_eq!(executed.len(), 100);
    assert_eq!(executed, (0..100u64).collect::<Vec<u64>>());
    assert_eq!(signals, 1);
    assert_eq!(pool.jobs_outstanding(), 0);
    assert!(!pool.wait());
}

#[test]
fn teardown_without_jobs_exits_every_worker() {
    let mut pool: Threads<u64> = Threads::with_workers(2);
    pool.send_to_all(Job::Terminate);
    assert_eq!(pool.jobs_outstanding(), 2);
    let (executed, signals) = drive(&mut pool);
    assert!(executed.is_empty());
    assert_eq!(signals, 0);
    for w in 0..2 {
        assert_eq!(pool.worker(w), Worker { id: w, state: WorkerState::Exited });
    }
}

#[test]
fn decrement_to_nonzero_does_not_signal() {
    let mut pool: Threads<u64> = Threads::with_workers(2);
    pool.send(Job::Invoke(7));
    pool.send(Job::Invoke(8));
    assert!(matches!(pool.take(0), Some(Job::Invoke(7))));
    assert!(matches!(pool.take(1), Some(Job::Invoke(8))));
    assert!(!pool.finish(1));
    assert_eq!(pool.jobs_outstanding(), 1);
    assert_eq!(pool.worker(1).state, WorkerState::Idle);
    assert!(pool.finish(0));
    assert_eq!(pool.jobs_outstanding(), 0);
}

#[test]
fn take_from_empty_queue_changes_nothing() {
    let mut pool: Threads<u64> = Threads::with_workers(3);
    assert!(pool.take(2).is_none());
    assert_eq!(pool.worker(2), Worker { id: 2, state: WorkerState::Idle });
    assert_eq!(pool.jobs_outstanding(), 0);
}

#[test]
fn jobs_leave_the_queue_in_order() {
    let mut pool: Threads<u64> = Threads::with_workers(1);
    pool.send_jobs(vec![Job::Invoke(5), Job::Terminate, Job::Invoke(6)]);
    assert!(matches!(pool.take(0), Some(Job::Invoke(5))));
    assert_eq!(pool.worker(0).state, WorkerState::Running { closing: false });
    assert!(!pool.finish(0));
    assert!(matches!(pool.take(0), Some(Job::Terminate)));
    assert_eq!(pool.worker(0).state, WorkerState::Running { closing: true });
    assert!(!pool.finish(0));
    assert_eq!(pool.worker(0).state, WorkerState::Exited);
    assert_eq!(pool.jobs_outstanding(), 1);
    assert!(pool.wait());
}

#[test]
fn broadcast_invoke_reaches_every_worker() {
    let mut pool: Threads<u64> = Threads::with_workers(3);
    pool.send_to_all(Job::Invoke(9));
    let (executed, signals) = drive(&mut pool);
    assert_eq!(executed, vec![9, 9, 9]);
    assert_eq!(signals, 1);
}

#[test]
fn machine_sized_pool_is_idle() {
    let pool: Threads<u64> = Threads::new();
    assert!(pool.worker_count() >= 1);
    assert!(!pool.wait());
    for w in 0..pool.worker_count() {
        assert_eq!(pool.worker(w), Worker { id: w, state: WorkerState::Idle });
    }
}

#[test]
fn shutdown_needs_one_terminate_per_worker() {
    let mut pool: Threads<u64> = Threads::with_workers(2);
    assert!(!pool.is_shut_down());
    pool.send(Job::Terminate);
    assert!(!pool.is_shut_down());
    pool.send(Job::Terminate);
    assert!(pool.is_shut_down());
}

#[test]
fn broadcast_terminate_shuts_the_pool_down() {
    let mut pool: Threads<u64> = Threads::with_workers(3);
    pool.send(Job::Invoke(1));
    assert!(!pool.is_shut_down());
    pool.send_to_all(Job::Terminate);
    assert!(pool.is_shut_down());
    let (executed, signals) = drive(&mut pool);
    assert_eq!(executed, vec![1]);
    assert_eq!(signals, 0);
    for w in 0..3 {
        assert_eq!(pool.worker(w).state, WorkerState::Exited);
    }
}
