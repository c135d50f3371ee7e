use hermit_crab::LinePool;
use hermit_crab::PoolAction;

// The pool's admission decisions, driven the way the accept loop drives
// them: each action is "performed" here by choosing the outcome a real
// worker would have produced.

#[test]
fn admission_rejects_only_while_all_workers_busy() {
    let mut pool = LinePool::new(2);

    // first socket: one worker is created lazily, then takes the socket
    assert_eq!(pool.handle_start(), PoolAction::SpawnLine);
    assert_eq!(pool.on_spawned(), PoolAction::TrySend { idx: 0 });
    assert_eq!(pool.on_send_ok(), PoolAction::Accepted);

    // second socket: worker 0 is busy with a slow handler, so the pool
    // grows to its maximum of two and the new worker takes it
    assert_eq!(pool.handle_start(), PoolAction::TrySend { idx: 0 });
    assert_eq!(pool.on_send_busy(), PoolAction::SpawnLine);
    assert_eq!(pool.on_spawned(), PoolAction::TrySend { idx: 1 });
    assert_eq!(pool.on_send_ok(), PoolAction::Accepted);

    // third socket while both workers are still busy: rejected, and only
    // after every worker answered busy
    assert_eq!(pool.handle_start(), PoolAction::TrySend { idx: 0 });
    assert_eq!(pool.on_send_busy(), PoolAction::TrySend { idx: 1 });
    assert_eq!(pool.on_send_busy(), PoolAction::Reject);

    // one worker finished its handler: the next socket is accepted
    assert_eq!(pool.handle_start(), PoolAction::TrySend { idx: 0 });
    assert_eq!(pool.on_send_ok(), PoolAction::Accepted);
    assert_eq!(pool.n_lines, 2);
}

#[test]
fn dead_worker_is_pruned_and_delivery_retried() {
    let mut pool = LinePool::new(3);

    // bring up two workers
    assert_eq!(pool.handle_start(), PoolAction::SpawnLine);
    assert_eq!(pool.on_spawned(), PoolAction::TrySend { idx: 0 });
    assert_eq!(pool.on_send_ok(), PoolAction::Accepted);
    assert_eq!(pool.handle_start(), PoolAction::TrySend { idx: 0 });
    assert_eq!(pool.on_send_busy(), PoolAction::SpawnLine);
    assert_eq!(pool.on_spawned(), PoolAction::TrySend { idx: 1 });
    assert_eq!(pool.on_send_ok(), PoolAction::Accepted);
    assert_eq!(pool.n_lines, 2);

    // worker 0 has died: it is pruned and the same slot, which now names
    // the next worker, is retried; the caller never sees a failure
    assert_eq!(pool.handle_start(), PoolAction::TrySend { idx: 0 });
    assert_eq!(pool.on_send_disconnected(), PoolAction::TrySend { idx: 0 });
    assert_eq!(pool.on_send_ok(), PoolAction::Accepted);
    assert_eq!(pool.n_lines, 1);

    // the last worker has died too: a fresh one is created transparently
    assert_eq!(pool.handle_start(), PoolAction::TrySend { idx: 0 });
    assert_eq!(pool.on_send_disconnected(), PoolAction::SpawnLine);
    assert_eq!(pool.on_spawned(), PoolAction::TrySend { idx: 0 });
    assert_eq!(pool.on_send_ok(), PoolAction::Accepted);
    assert_eq!(pool.n_lines, 1);
}

#[test]
fn zero_capacity_pool_rejects_immediately() {
    let mut pool = LinePool::new(0);
    assert_eq!(pool.handle_start(), PoolAction::Reject);
    assert_eq!(pool.n_lines, 0);
}

#[test]
fn busy_worker_in_the_middle_is_skipped() {
    let mut pool = LinePool::new(3);
    assert_eq!(pool.handle_start(), PoolAction::SpawnLine);
    assert_eq!(pool.on_spawned(), PoolAction::TrySend { idx: 0 });
    assert_eq!(pool.on_send_ok(), PoolAction::Accepted);
    assert_eq!(pool.handle_start(), PoolAction::TrySend { idx: 0 });
    assert_eq!(pool.on_send_busy(), PoolAction::SpawnLine);
    assert_eq!(pool.on_spawned(), PoolAction::TrySend { idx: 1 });
    assert_eq!(pool.on_send_ok(), PoolAction::Accepted);

    // with two workers and the first busy, the second gets the socket
    // without growing the pool
    assert_eq!(pool.handle_start(), PoolAction::TrySend { idx: 0 });
    assert_eq!(pool.on_send_busy(), PoolAction::TrySend { idx: 1 });
    assert_eq!(pool.on_send_ok(), PoolAction::Accepted);
    assert_eq!(pool.n_lines, 2);
}
