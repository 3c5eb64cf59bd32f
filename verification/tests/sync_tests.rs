use goaldy::engine::{
    apply_push_outcome, backoff_delay, drain, next_drain_decision, pull_apply, stalled_entries,
    DrainDecision, PushResponse, RemoteStore, StepStatus, TransportOutcome,
};
use goaldy::queue::{capture_local_write, CaptureError, Operation, SyncFailure, SyncQueue};
use goaldy::records::{merge_states, Payload, RecordState, RecordStore, TableKind};

fn expense(amount_cents: u64) -> Payload {
    Payload::Expense { amount_cents, category_id: Some(1), date: 20240301 }
}

fn state(amount_cents: u64, updated_at: u64) -> RecordState {
    RecordState {
        user_id: Some(42),
        created_at: 1,
        updated_at,
        deleted_at: None,
        fields: expense(amount_cents),
    }
}

#[test]
fn offline_mutations_coalesce_to_one_entry() {
    let mut store = RecordStore::new();
    let mut queue = SyncQueue::new();
    capture_local_write(
        &mut store,
        &mut queue,
        TableKind::Expenses,
        1,
        Operation::Create,
        expense(500),
        Some(42),
        10,
    )
    .unwrap();
    capture_local_write(
        &mut store,
        &mut queue,
        TableKind::Expenses,
        1,
        Operation::Update,
        expense(700),
        Some(42),
        11,
    )
    .unwrap();
    capture_local_write(
        &mut store,
        &mut queue,
        TableKind::Expenses,
        1,
        Operation::Update,
        expense(900),
        Some(42),
        12,
    )
    .unwrap();
    assert_eq!(queue.entries.len(), 1);
    let entry = &queue.entries[0];
    assert_eq!(entry.operation, Operation::Create);
    assert_eq!(entry.payload.fields, expense(900));
    assert_eq!(entry.payload.updated_at, 12);
    assert_eq!(entry.created_at, 10);
    assert_eq!(store.rows.len(), 1);
    assert_eq!(store.rows[0].state.fields, expense(900));
}

#[test]
fn delete_of_unpushed_create_drops_the_entry() {
    let mut store = RecordStore::new();
    let mut queue = SyncQueue::new();
    capture_local_write(
        &mut store,
        &mut queue,
        TableKind::Expenses,
        1,
        Operation::Create,
        expense(500),
        Some(42),
        10,
    )
    .unwrap();
    capture_local_write(
        &mut store,
        &mut queue,
        TableKind::Expenses,
        1,
        Operation::Delete,
        expense(500),
        Some(42),
        11,
    )
    .unwrap();
    // the record never reached the remote authority, so nothing is queued
    assert_eq!(queue.entries.len(), 0);
    // locally the row carries its tombstone
    assert_eq!(store.rows[0].state.deleted_at, Some(11));
    assert!(store.read_record(TableKind::Expenses, 1).is_none());
}

#[test]
fn delete_after_sync_queues_a_delete() {
    let mut store = RecordStore::new();
    let mut queue = SyncQueue::new();
    let mut remote = RemoteStore::new();
    capture_local_write(
        &mut store,
        &mut queue,
        TableKind::Expenses,
        1,
        Operation::Create,
        expense(500),
        Some(42),
        10,
    )
    .unwrap();
    drain(&mut store, &mut queue, &mut remote, 20, 10);
    assert_eq!(queue.entries.len(), 0);
    capture_local_write(
        &mut store,
        &mut queue,
        TableKind::Expenses,
        1,
        Operation::Update,
        expense(800),
        Some(42),
        30,
    )
    .unwrap();
    capture_local_write(
        &mut store,
        &mut queue,
        TableKind::Expenses,
        1,
        Operation::Delete,
        expense(800),
        Some(42),
        31,
    )
    .unwrap();
    assert_eq!(queue.entries.len(), 1);
    assert_eq!(queue.entries[0].operation, Operation::Delete);
    assert_eq!(queue.entries[0].payload.deleted_at, Some(31));
}

#[test]
fn capture_rejects_conflicting_writes() {
    let mut store = RecordStore::new();
    let mut queue = SyncQueue::new();
    assert_eq!(
        capture_local_write(
            &mut store,
            &mut queue,
            TableKind::Expenses,
            1,
            Operation::Update,
            expense(500),
            Some(42),
            10,
        ),
        Err(CaptureError::TransactionFailure)
    );
    capture_local_write(
        &mut store,
        &mut queue,
        TableKind::Expenses,
        1,
        Operation::Create,
        expense(500),
        Some(42),
        10,
    )
    .unwrap();
    assert_eq!(
        capture_local_write(
            &mut store,
            &mut queue,
            TableKind::Expenses,
            1,
            Operation::Create,
            expense(700),
            Some(42),
            11,
        ),
        Err(CaptureError::TransactionFailure)
    );
    // the failed writes left nothing behind
    assert_eq!(queue.entries.len(), 1);
    assert_eq!(queue.entries[0].payload.fields, expense(500));
}

#[test]
fn replayed_push_creates_no_duplicate() {
    let mut remote = RemoteStore::new();
    let payload = state(500, 10);
    let first = remote.push(TableKind::Expenses, 1, payload);
    assert_eq!(first, PushResponse::Applied { state: payload });
    let second = remote.push(TableKind::Expenses, 1, payload);
    assert_eq!(second, PushResponse::Applied { state: payload });
    assert_eq!(remote.records.len(), 1);
    assert_eq!(remote.records[0].state, payload);
}

#[test]
fn pushed_record_pulls_back_equal() {
    // device A creates and drains; device B pulls the record unchanged
    let mut store_a = RecordStore::new();
    let mut queue_a = SyncQueue::new();
    let mut remote = RemoteStore::new();
    capture_local_write(
        &mut store_a,
        &mut queue_a,
        TableKind::SavingsGoals,
        9,
        Operation::Create,
        Payload::SavingsGoal {
            target_amount_cents: 100_000,
            target_date: 20251231,
            monthly_contribution_cents: 5_000,
        },
        Some(42),
        10,
    )
    .unwrap();
    let created = store_a.rows[0].state;
    drain(&mut store_a, &mut queue_a, &mut remote, 20, 10);
    let mut store_b = RecordStore::new();
    let mut queue_b = SyncQueue::new();
    let wm = pull_apply(&mut store_b, &mut queue_b, &remote, 0);
    assert_eq!(wm, 10);
    assert_eq!(store_b.rows.len(), 1);
    assert_eq!(store_b.rows[0].state, created);
    // the push also marked device A's row as synced
    assert_eq!(store_a.rows[0].synced_at, Some(20));
}

#[test]
fn merge_takes_the_later_writer_and_remote_on_ties() {
    let local = state(500, 20);
    let remote = state(700, 10);
    assert_eq!(merge_states(&local, &remote), local);
    let remote_newer = state(700, 30);
    assert_eq!(merge_states(&local, &remote_newer), remote_newer);
    let remote_tie = state(900, 20);
    assert_eq!(merge_states(&local, &remote_tie), remote_tie);
}

#[test]
fn transient_failure_blocks_later_entries() {
    let mut store = RecordStore::new();
    let mut queue = SyncQueue::new();
    capture_local_write(
        &mut store,
        &mut queue,
        TableKind::Expenses,
        1,
        Operation::Create,
        expense(500),
        Some(42),
        1,
    )
    .unwrap();
    capture_local_write(
        &mut store,
        &mut queue,
        TableKind::Expenses,
        2,
        Operation::Create,
        expense(700),
        Some(42),
        2,
    )
    .unwrap();
    // entry for record 1 is first in line
    assert_eq!(next_drain_decision(&queue, 5), DrainDecision::Push(0));
    let status = apply_push_outcome(&mut store, &mut queue, 0, TransportOutcome::TransientFailure, 5);
    assert_eq!(status, StepStatus::TransientlyDeferred);
    assert_eq!(queue.entries[0].attempts, 1);
    assert_eq!(queue.entries[0].error, Some(SyncFailure::Transient));
    // while record 1 backs off, record 2 is not pushed ahead of it
    assert_eq!(next_drain_decision(&queue, 6), DrainDecision::Backoff(0));
    // once the backoff window passes, record 1 is still first in line
    assert_eq!(next_drain_decision(&queue, 5 + 60), DrainDecision::Push(0));
}

#[test]
fn backoff_doubles_and_caps() {
    assert_eq!(backoff_delay(0), 30);
    assert_eq!(backoff_delay(1), 60);
    assert_eq!(backoff_delay(2), 120);
    assert_eq!(backoff_delay(6), 1920);
    assert_eq!(backoff_delay(7), 3840);
    assert_eq!(backoff_delay(40), 3840);
}

#[test]
fn permanent_rejection_is_kept_but_not_retried() {
    let mut store = RecordStore::new();
    let mut queue = SyncQueue::new();
    capture_local_write(
        &mut store,
        &mut queue,
        TableKind::Expenses,
        1,
        Operation::Create,
        expense(500),
        Some(42),
        1,
    )
    .unwrap();
    let status = apply_push_outcome(
        &mut store,
        &mut queue,
        0,
        TransportOutcome::Response(PushResponse::Rejected),
        5,
    );
    assert_eq!(status, StepStatus::PermanentlyRejected);
    assert_eq!(queue.entries.len(), 1);
    assert!(queue.entries[0].terminally_failed);
    assert_eq!(queue.entries[0].error, Some(SyncFailure::Permanent));
    // the queue moves on past it
    assert_eq!(next_drain_decision(&queue, 10_000), DrainDecision::Idle);
}

#[test]
fn repeated_transient_failures_surface_as_stalled() {
    let mut store = RecordStore::new();
    let mut queue = SyncQueue::new();
    capture_local_write(
        &mut store,
        &mut queue,
        TableKind::Expenses,
        1,
        Operation::Create,
        expense(500),
        Some(42),
        1,
    )
    .unwrap();
    let mut now: u64 = 10;
    for _ in 0..9 {
        assert!(stalled_entries(&queue).is_empty());
        let status =
            apply_push_outcome(&mut store, &mut queue, 0, TransportOutcome::TransientFailure, now);
        assert_eq!(status, StepStatus::TransientlyDeferred);
        now += 10_000;
    }
    // the ninth failure passes the ceiling of eight attempts
    assert_eq!(stalled_entries(&queue), vec![0]);
    // stalled entries still retry at the capped interval
    assert_eq!(next_drain_decision(&queue, now + 10_000), DrainDecision::Push(0));
}

#[test]
fn drain_respects_the_batch_budget() {
    let mut store = RecordStore::new();
    let mut queue = SyncQueue::new();
    let mut remote = RemoteStore::new();
    for id in 1..=3u64 {
        capture_local_write(
            &mut store,
            &mut queue,
            TableKind::Expenses,
            id,
            Operation::Create,
            expense(100 * id),
            Some(42),
            id,
        )
        .unwrap();
    }
    drain(&mut store, &mut queue, &mut remote, 10, 2);
    assert_eq!(queue.entries.len(), 1);
    assert_eq!(remote.records.len(), 2);
    drain(&mut store, &mut queue, &mut remote, 11, 2);
    assert_eq!(queue.entries.len(), 0);
    assert_eq!(remote.records.len(), 3);
}

#[test]
fn push_of_stale_payload_is_superseded() {
    let mut remote = RemoteStore::new();
    let newer = state(900, 50);
    remote.push(TableKind::Expenses, 1, newer);
    let mut store = RecordStore::new();
    let mut queue = SyncQueue::new();
    capture_local_write(
        &mut store,
        &mut queue,
        TableKind::Expenses,
        1,
        Operation::Create,
        expense(500),
        Some(42),
        10,
    )
    .unwrap();
    drain(&mut store, &mut queue, &mut remote, 60, 10);
    // the local edit was dropped and the remote state stands locally
    assert_eq!(queue.entries.len(), 0);
    assert_eq!(remote.records[0].state, newer);
    assert_eq!(store.rows[0].state, newer);
}

#[test]
fn superseded_entry_does_not_stop_the_pass() {
    // A's payload is stale, B's is fresh: the pass resolves A and still
    // pushes B, since only backoff defers the queue
    let mut remote = RemoteStore::new();
    remote.push(TableKind::Expenses, 1, state(900, 50));
    let mut store = RecordStore::new();
    let mut queue = SyncQueue::new();
    capture_local_write(
        &mut store,
        &mut queue,
        TableKind::Expenses,
        1,
        Operation::Create,
        expense(500),
        Some(42),
        10,
    )
    .unwrap();
    capture_local_write(
        &mut store,
        &mut queue,
        TableKind::Expenses,
        2,
        Operation::Create,
        expense(600),
        Some(42),
        11,
    )
    .unwrap();
    drain(&mut store, &mut queue, &mut remote, 60, 10);
    assert_eq!(queue.entries.len(), 0);
    assert_eq!(remote.records.len(), 2);
    assert_eq!(store.rows[0].state, state(900, 50));
}

#[test]
fn pull_applies_last_writer_wins_and_discards_superseded_edits() {
    let mut remote = RemoteStore::new();
    remote.push(TableKind::Expenses, 1, state(900, 50));
    remote.push(TableKind::Expenses, 2, state(100, 5));
    let mut store = RecordStore::new();
    let mut queue = SyncQueue::new();
    // a pending local edit of record 1, older than the remote copy
    capture_local_write(
        &mut store,
        &mut queue,
        TableKind::Expenses,
        1,
        Operation::Create,
        expense(500),
        Some(42),
        10,
    )
    .unwrap();
    // a pending local edit of record 2, newer than the remote copy
    capture_local_write(
        &mut store,
        &mut queue,
        TableKind::Expenses,
        2,
        Operation::Create,
        expense(800),
        Some(42),
        20,
    )
    .unwrap();
    let wm = pull_apply(&mut store, &mut queue, &remote, 7);
    // only record 1 was newer than the watermark window
    assert_eq!(wm, 50);
    assert_eq!(store.rows[0].state, state(900, 50));
    // record 1's local edit is superseded and gone; record 2's is kept
    assert_eq!(queue.entries.len(), 1);
    assert_eq!(queue.entries[0].record_id, 2);
}

#[test]
fn later_identity_change_does_not_rewrite_owner() {
    let mut store = RecordStore::new();
    let mut queue = SyncQueue::new();
    capture_local_write(
        &mut store,
        &mut queue,
        TableKind::Expenses,
        1,
        Operation::Create,
        expense(500),
        Some(42),
        10,
    )
    .unwrap();
    // the user signs in under another identity before the update
    capture_local_write(
        &mut store,
        &mut queue,
        TableKind::Expenses,
        1,
        Operation::Update,
        expense(700),
        Some(99),
        11,
    )
    .unwrap();
    assert_eq!(store.rows[0].state.user_id, Some(42));
    assert_eq!(queue.entries[0].payload.user_id, Some(42));
}

#[test]
fn soft_deleted_records_are_invisible_to_reads() {
    let mut store = RecordStore::new();
    let mut queue = SyncQueue::new();
    capture_local_write(
        &mut store,
        &mut queue,
        TableKind::Budgets,
        3,
        Operation::Create,
        Payload::Budget { month: 202403, total_amount_cents: 120_000, spending_limit_cents: None },
        None,
        10,
    )
    .unwrap();
    assert!(store.read_record(TableKind::Budgets, 3).is_some());
    capture_local_write(
        &mut store,
        &mut queue,
        TableKind::Budgets,
        3,
        Operation::Delete,
        Payload::Budget { month: 202403, total_amount_cents: 120_000, spending_limit_cents: None },
        None,
        11,
    )
    .unwrap();
    assert!(store.read_record(TableKind::Budgets, 3).is_none());
    // the tombstoned row itself is still there for sync
    assert_eq!(store.rows.len(), 1);
}
