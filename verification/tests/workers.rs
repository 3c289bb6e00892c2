use entropyfs_store::workers::{BudgetState, PoolQueues, RequestState, Streak};

#[test]
fn budget_serializes_full_requests() {
    let mut b = BudgetState::new(4);
    assert_eq!(b.clamp(usize::MAX), 4);
    assert_eq!(b.clamp(0), 1);
    assert!(b.try_acquire(usize::MAX));
    assert!(!b.try_acquire(usize::MAX));
    b.start_wait();
    b.release(4);
    assert!(b.try_acquire(usize::MAX));
    b.end_wait();
    assert_eq!((b.in_flight, b.waiters, b.max_waiters), (4, 0, 1));
}

#[test]
fn requests_are_served_in_turn() {
    let mut q = PoolQueues::new();
    q.submit(7, 2);
    q.submit(9, 2);
    let mut cursor = 0;
    let mut streak = Streak { last: None, consecutive: 0 };
    let mut served = Vec::new();
    while let Some((request, ordinal, next, after)) = q.pick_one(cursor, streak) {
        served.push((request, ordinal));
        cursor = next;
        streak = after;
    }
    assert_eq!(served, vec![(7, 0), (9, 0), (7, 1), (9, 1)]);
    assert_eq!(streak.consecutive, 1);
}

#[test]
fn idle_pool_admits_oversized_requests() {
    let mut q = PoolQueues::new();
    assert!(q.admits(40, 32));
    q.submit(1, 30);
    assert!(q.admits(2, 32));
    assert!(!q.admits(3, 32));
}

#[test]
fn results_come_back_by_ordinal() {
    let mut r: RequestState<u64> = RequestState::new(3);
    assert!(!r.deliver(2, 20));
    assert!(!r.deliver(0, 0));
    assert!(r.deliver(1, 10));
    assert_eq!(r.join(), vec![0, 10, 20]);
}
