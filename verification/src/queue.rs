//! The sync queue and change capture: every local mutation is applied to the
//! record store and, in the same step, coalesced into at most one pending
//! queue entry per record, so offline edits replay idempotently and the
//! queue stays bounded.

use vstd::prelude::*;

use crate::records::LocalRow;
use crate::records::Payload;
use crate::records::RecordState;
use crate::records::RecordStore;
use crate::records::TableKind;
use crate::records::has_row;
use crate::records::payload_table;
use crate::records::row_has_key;
use crate::records::wf_record_store;

verus! {

/// The kind of a queued outbound mutation.
#[derive(Clone, Copy, PartialEq, Eq, Structural, Debug)]
pub enum Operation {
    Create,
    Update,
    Delete,
}

/// Why the last sync attempt of an entry failed.
#[derive(Clone, Copy, PartialEq, Eq, Structural, Debug)]
pub enum SyncFailure {
    /// Network, timeout, or server-busy: retried automatically with backoff.
    Transient,
    /// The remote authority rejected the mutation as invalid: kept for
    /// manual resolution, excluded from automatic retries.
    Permanent,
}

/// The local store could not commit the write and its queue entry together;
/// nothing was changed.
#[derive(Clone, Copy, PartialEq, Eq, Structural, Debug)]
pub enum CaptureError {
    TransactionFailure,
}

/// One pending outbound mutation with its retry bookkeeping.
#[derive(Clone, Copy, PartialEq, Eq, Structural, Debug)]
pub struct QueueEntry {
    pub table: TableKind,
    pub record_id: u64,
    pub operation: Operation,
    /// Snapshot of the record's state after the captured mutation.
    pub payload: RecordState,
    /// Count of failed sync attempts.
    pub attempts: u32,
    pub last_attempt_at: Option<u64>,
    /// The last failure reason; cleared on success by deleting the entry.
    pub error: Option<SyncFailure>,
    pub created_at: u64,
    /// Set on permanent rejection: kept, but no longer retried automatically.
    pub terminally_failed: bool,
}

/// `e` is a pending (still to be replayed) entry for the given record.
pub open spec fn entry_matches(e: QueueEntry, table: TableKind, id: u64) -> bool {
    e.table == table && e.record_id == id && !e.terminally_failed
}

pub open spec fn has_pending(s: Seq<QueueEntry>, table: TableKind, id: u64) -> bool {
    exists|i: int| 0 <= i < s.len() && #[trigger] entry_matches(s[i], table, id)
}

/// At most one pending entry per record, and entries ordered by creation
/// time (the drain order).
pub open spec fn wf_queue_entries(s: Seq<QueueEntry>) -> bool {
    &&& forall|i: int, j: int|
        0 <= i < j < s.len() && !s[j].terminally_failed ==> !(#[trigger] entry_matches(
            s[i],
            s[j].table,
            s[j].record_id,
        ))
    &&& forall|i: int, j: int|
        0 <= i < j < s.len() ==> #[trigger] s[i].created_at <= #[trigger] s[j].created_at
    &&& forall|i: int|
        0 <= i < s.len() ==> payload_table(#[trigger] s[i].payload.fields) == s[i].table
}

/// The ordered, durable log of pending outbound mutations.
pub struct SyncQueue {
    pub entries: Vec<QueueEntry>,
}

pub open spec fn wf_queue(q: SyncQueue) -> bool {
    wf_queue_entries(q.entries@)
}

/// The record state written by a local mutation.
pub open spec fn spec_create_state(fields: Payload, user: Option<u64>, now: u64) -> RecordState {
    RecordState { user_id: user, created_at: now, updated_at: now, deleted_at: None, fields }
}

pub open spec fn spec_update_state(prev: RecordState, fields: Payload, now: u64) -> RecordState {
    RecordState { updated_at: now, deleted_at: None, fields, ..prev }
}

pub open spec fn spec_delete_state(prev: RecordState, now: u64) -> RecordState {
    RecordState { updated_at: now, deleted_at: Some(now), ..prev }
}

/// How a new local operation combines with an already-pending one for the
/// same record. A pending `Create` stays a `Create` (the record is still
/// unknown remotely); any later state change on an already-pushed record is
/// an `Update` or `Delete`.
pub open spec fn combine_ops(prev: Operation, next: Operation) -> Operation {
    match (prev, next) {
        (Operation::Create, _) => Operation::Create,
        (_, Operation::Delete) => Operation::Delete,
        (_, _) => Operation::Update,
    }
}

/// A fresh queue entry for a newly captured mutation.
pub open spec fn spec_fresh_entry(
    table: TableKind,
    id: u64,
    op: Operation,
    snap: RecordState,
    now: u64,
) -> QueueEntry {
    QueueEntry {
        table,
        record_id: id,
        operation: op,
        payload: snap,
        attempts: 0,
        last_attempt_at: None,
        error: None,
        created_at: now,
        terminally_failed: false,
    }
}

/// The coalescing upsert: a mutation replaces the payload of the existing
/// pending entry for its record (keeping its place in line and its attempt
/// count); a `Delete` of a record whose `Create` was never pushed drops the
/// entry entirely; otherwise a fresh entry is appended.
pub open spec fn spec_capture(
    s: Seq<QueueEntry>,
    table: TableKind,
    id: u64,
    op: Operation,
    snap: RecordState,
    now: u64,
) -> Seq<QueueEntry> {
    if has_pending(s, table, id) {
        let i = choose|i: int| 0 <= i < s.len() && #[trigger] entry_matches(s[i], table, id);
        if s[i].operation is Create && op is Delete {
            s.remove(i)
        } else {
            s.update(
                i,
                QueueEntry {
                    operation: combine_ops(s[i].operation, op),
                    payload: snap,
                    ..s[i]
                },
            )
        }
    } else {
        s.push(spec_fresh_entry(table, id, op, snap, now))
    }
}

impl SyncQueue {
    pub fn new() -> (r: SyncQueue)
        ensures
            wf_queue(r),
            r.entries@.len() == 0,
    {
        SyncQueue { entries: Vec::new() }
    }

    /// The index of the pending entry for (table, id), if one exists.
    pub fn find_pending(&self, table: TableKind, id: u64) -> (r: Option<usize>)
        ensures
            match r {
                Some(i) => i < self.entries@.len() && entry_matches(
                    self.entries@[i as int],
                    table,
                    id,
                ),
                None => !has_pending(self.entries@, table, id),
            },
    {
        let n = self.entries.len();
        let mut i: usize = 0;
        while i < n
            invariant
                i <= n,
                n == self.entries@.len(),
                forall|k: int|
                    0 <= k < i ==> !(#[trigger] entry_matches(self.entries@[k], table, id)),
            decreases n - i,
        {
            let e = &self.entries[i];
            if e.record_id == id && e.table == table && !e.terminally_failed {
                return Some(i);
            }
            i = i + 1;
        }
        None
    }
}

/// In a well-formed queue the pending entry for a record is unique, so the
/// chosen one is the found one.
pub proof fn lemma_pending_unique(s: Seq<QueueEntry>, table: TableKind, id: u64, i: int, j: int)
    requires
        wf_queue_entries(s),
        0 <= i < s.len(),
        0 <= j < s.len(),
        entry_matches(s[i], table, id),
        entry_matches(s[j], table, id),
    ensures
        i == j,
{
    if i < j {
        assert(entry_matches(s[i], s[j].table, s[j].record_id));
    } else if j < i {
        assert(entry_matches(s[j], s[i].table, s[i].record_id));
    }
}

/// The coalescing law: whatever mutation is captured, the queue afterwards
/// holds at most one pending entry for the record — exactly one, carrying
/// the mutation's resulting state as payload, unless the mutation was a
/// delete of a never-pushed create, in which case none is left. A sequence
/// of offline mutations to one record therefore always ends with exactly one
/// pending entry holding the latest state (or none, if the record's whole
/// life happened offline).
pub proof fn lemma_capture_coalesces(
    s: Seq<QueueEntry>,
    table: TableKind,
    id: u64,
    op: Operation,
    snap: RecordState,
    now: u64,
)
    requires
        wf_queue_entries(s),
        forall|j: int| 0 <= j < s.len() ==> #[trigger] s[j].created_at <= now,
        payload_table(snap.fields) == table,
    ensures
        wf_queue_entries(spec_capture(s, table, id, op, snap, now)),
        ({
            let s2 = spec_capture(s, table, id, op, snap, now);
            if has_pending(s, table, id) && s[choose|i: int|
                0 <= i < s.len() && #[trigger] entry_matches(s[i], table, id)].operation is Create
                && op is Delete {
                !has_pending(s2, table, id)
            } else {
                exists|i: int|
                    0 <= i < s2.len() && #[trigger] entry_matches(s2[i], table, id)
                        && s2[i].payload == snap && forall|j: int|
                        0 <= j < s2.len() && #[trigger] entry_matches(s2[j], table, id) ==> j == i
            }
        }),
        forall|j: int|
            0 <= j < spec_capture(s, table, id, op, snap, now).len()
                ==> #[trigger] spec_capture(s, table, id, op, snap, now)[j].created_at <= now,
{
    let s2 = spec_capture(s, table, id, op, snap, now);
    if has_pending(s, table, id) {
        let i = choose|i: int| 0 <= i < s.len() && #[trigger] entry_matches(s[i], table, id);
        if s[i].operation is Create && op is Delete {
            assert(s2 == s.remove(i));
            assert forall|k: int| 0 <= k < s2.len() implies !(#[trigger] entry_matches(
                s2[k],
                table,
                id,
            )) by {
                if k < i {
                    assert(s2[k] == s[k]);
                    if entry_matches(s[k], table, id) {
                        lemma_pending_unique(s, table, id, k, i);
                    }
                } else {
                    assert(s2[k] == s[k + 1]);
                    if entry_matches(s[k + 1], table, id) {
                        lemma_pending_unique(s, table, id, k + 1, i);
                    }
                }
            }
            assert forall|a: int, b: int|
                0 <= a < b < s2.len() && !s2[b].terminally_failed implies !(
            #[trigger] entry_matches(s2[a], s2[b].table, s2[b].record_id)) by {
                let a0 = if a < i { a } else { a + 1 };
                let b0 = if b < i { b } else { b + 1 };
                assert(s2[a] == s[a0]);
                assert(s2[b] == s[b0]);
            }
            assert forall|a: int, b: int| 0 <= a < b < s2.len() implies #[trigger] s2[a].created_at
                <= #[trigger] s2[b].created_at by {
                let a0 = if a < i { a } else { a + 1 };
                let b0 = if b < i { b } else { b + 1 };
                assert(s2[a] == s[a0]);
                assert(s2[b] == s[b0]);
            }
        } else {
            let e2 = QueueEntry {
                operation: combine_ops(s[i].operation, op),
                payload: snap,
                ..s[i]
            };
            assert(s2 == s.update(i, e2));
            assert(entry_matches(s2[i], table, id));
            assert forall|j: int|
                0 <= j < s2.len() && #[trigger] entry_matches(s2[j], table, id) implies j == i by {
                if j != i {
                    assert(s2[j] == s[j]);
                    lemma_pending_unique(s, table, id, j, i);
                }
            }
            assert forall|a: int, b: int|
                0 <= a < b < s2.len() && !s2[b].terminally_failed implies !(
            #[trigger] entry_matches(s2[a], s2[b].table, s2[b].record_id)) by {
                if entry_matches(s2[a], s2[b].table, s2[b].record_id) {
                    assert(entry_matches(s[a], s[b].table, s[b].record_id));
                }
            }
        }
    } else {
        let e = spec_fresh_entry(table, id, op, snap, now);
        assert(s2 == s.push(e));
        let n = s.len() as int;
        assert(entry_matches(s2[n], table, id));
        assert forall|j: int|
            0 <= j < s2.len() && #[trigger] entry_matches(s2[j], table, id) implies j == n by {
            if j < n {
                assert(entry_matches(s[j], table, id));
            }
        }
        assert forall|a: int, b: int|
            0 <= a < b < s2.len() && !s2[b].terminally_failed implies !(#[trigger] entry_matches(
            s2[a],
            s2[b].table,
            s2[b].record_id,
        )) by {
            if b < n {
                if entry_matches(s2[a], s2[b].table, s2[b].record_id) {
                    assert(entry_matches(s[a], s[b].table, s[b].record_id));
                }
            } else {
                if entry_matches(s2[a], s2[b].table, s2[b].record_id) {
                    assert(entry_matches(s[a], table, id));
                }
            }
        }
    }
}

/// The queue after a whole offline session: each mutation of the sequence
/// (operation, resulting state snapshot, capture time) coalesced in turn.
pub open spec fn spec_capture_all(
    s: Seq<QueueEntry>,
    table: TableKind,
    id: u64,
    muts: Seq<(Operation, RecordState, u64)>,
) -> Seq<QueueEntry>
    decreases muts.len(),
{
    if muts.len() == 0 {
        s
    } else {
        spec_capture_all(
            spec_capture(s, table, id, muts[0].0, muts[0].1, muts[0].2),
            table,
            id,
            muts.drop_first(),
        )
    }
}

/// The coalescing law over whole sequences: however many local mutations hit
/// one record while offline, the queue ends with exactly one pending entry
/// for it, whose payload is the last mutation's resulting state — or with
/// none at all, when the last mutation was the delete of a record whose
/// create never left the device.
pub proof fn lemma_capture_sequence(
    s: Seq<QueueEntry>,
    table: TableKind,
    id: u64,
    muts: Seq<(Operation, RecordState, u64)>,
)
    requires
        wf_queue_entries(s),
        muts.len() >= 1,
        forall|k: int| 0 <= k < muts.len() ==> payload_table((#[trigger] muts[k]).1.fields) == table,
        forall|j: int| 0 <= j < s.len() ==> #[trigger] s[j].created_at <= muts[0].2,
        forall|a: int, b: int| 0 <= a < b < muts.len() ==> (#[trigger] muts[a]).2 <= (
        #[trigger] muts[b]).2,
    ensures
        wf_queue_entries(spec_capture_all(s, table, id, muts)),
        ({
            let s2 = spec_capture_all(s, table, id, muts);
            ||| (muts.last().0 is Delete && !has_pending(s2, table, id))
            ||| (exists|i: int|
                0 <= i < s2.len() && #[trigger] entry_matches(s2[i], table, id)
                    && s2[i].payload == muts.last().1 && forall|j: int|
                    0 <= j < s2.len() && #[trigger] entry_matches(s2[j], table, id) ==> j == i)
        }),
    decreases muts.len(),
{
    let (op, snap, now) = muts[0];
    lemma_capture_coalesces(s, table, id, op, snap, now);
    let s1 = spec_capture(s, table, id, op, snap, now);
    assert(spec_capture_all(s, table, id, muts) == spec_capture_all(
        s1,
        table,
        id,
        muts.drop_first(),
    ));
    if muts.len() == 1 {
        assert(muts.drop_first().len() == 0);
        assert(spec_capture_all(s1, table, id, muts.drop_first()) == s1);
        assert(muts.last() == muts[0]);
    } else {
        assert(muts.drop_first().last() == muts.last());
        assert forall|j: int| 0 <= j < s1.len() implies #[trigger] s1[j].created_at <= muts.drop_first()[0].2 by {
            assert(s1[j].created_at <= muts[0].2);
            assert(muts[0].2 <= muts[1].2);
        }
        lemma_capture_sequence(s1, table, id, muts.drop_first());
    }
}

/// Removing any entry keeps the queue well-formed.
pub proof fn lemma_wf_entries_remove(s: Seq<QueueEntry>, i: int)
    requires
        wf_queue_entries(s),
        0 <= i < s.len(),
    ensures
        wf_queue_entries(s.remove(i)),
{
    let s2 = s.remove(i);
    assert forall|a: int, b: int|
        0 <= a < b < s2.len() && !s2[b].terminally_failed implies !(#[trigger] entry_matches(
        s2[a],
        s2[b].table,
        s2[b].record_id,
    )) by {
        let a0 = if a < i { a } else { a + 1 };
        let b0 = if b < i { b } else { b + 1 };
        assert(s2[a] == s[a0]);
        assert(s2[b] == s[b0]);
    }
    assert forall|a: int, b: int| 0 <= a < b < s2.len() implies #[trigger] s2[a].created_at
        <= #[trigger] s2[b].created_at by {
        let a0 = if a < i { a } else { a + 1 };
        let b0 = if b < i { b } else { b + 1 };
        assert(s2[a] == s[a0]);
        assert(s2[b] == s[b0]);
    }
    assert forall|k: int| 0 <= k < s2.len() implies payload_table(#[trigger] s2[k].payload.fields)
        == s2[k].table by {
        let k0 = if k < i { k } else { k + 1 };
        assert(s2[k] == s[k0]);
    }
}

/// Replacing an entry in place keeps the queue well-formed, provided the
/// replacement keeps the entry's record key and creation time, does not turn
/// a terminally failed entry back into a pending one, and keeps the payload
/// on the entry's own table.
pub proof fn lemma_wf_entries_update(s: Seq<QueueEntry>, i: int, e: QueueEntry)
    requires
        wf_queue_entries(s),
        0 <= i < s.len(),
        e.table == s[i].table,
        e.record_id == s[i].record_id,
        e.created_at == s[i].created_at,
        !e.terminally_failed ==> !s[i].terminally_failed,
        payload_table(e.payload.fields) == e.table,
    ensures
        wf_queue_entries(s.update(i, e)),
{
    let s2 = s.update(i, e);
    assert forall|a: int, b: int|
        0 <= a < b < s2.len() && !s2[b].terminally_failed implies !(#[trigger] entry_matches(
        s2[a],
        s2[b].table,
        s2[b].record_id,
    )) by {
        if entry_matches(s2[a], s2[b].table, s2[b].record_id) {
            assert(entry_matches(s[a], s[b].table, s[b].record_id));
        }
    }
}

/// Change capture: apply one local mutation to the record store and coalesce
/// it into the sync queue, both or neither. A `Create` of an existing
/// record, or an `Update`/`Delete` of a missing one, cannot commit and
/// leaves both untouched.
pub fn capture_local_write(
    store: &mut RecordStore,
    queue: &mut SyncQueue,
    table: TableKind,
    id: u64,
    op: Operation,
    fields: Payload,
    user: Option<u64>,
    now: u64,
) -> (r: Result<(), CaptureError>)
    requires
        wf_record_store(*old(store)),
        wf_queue(*old(queue)),
        payload_table(fields) == table,
        forall|j: int|
            0 <= j < old(queue).entries@.len() ==> #[trigger] old(queue).entries@[j].created_at <= now,
    ensures
        wf_record_store(*final(store)),
        wf_queue(*final(queue)),
        forall|j: int|
            0 <= j < final(queue).entries@.len() ==> #[trigger] final(queue).entries@[j].created_at <= now,
        match r {
            Err(_) => {
                &&& final(store).rows@ == old(store).rows@
                &&& final(queue).entries@ == old(queue).entries@
                &&& (if op is Create {
                    has_row(old(store).rows@, table, id)
                } else {
                    !has_row(old(store).rows@, table, id)
                })
            },
            Ok(_) => {
                &&& (if op is Create {
                    &&& !has_row(old(store).rows@, table, id)
                    &&& ({
                        let st = spec_create_state(fields, user, now);
                        &&& final(store).rows@ == old(store).rows@.push(
                            LocalRow { table, id, state: st, synced_at: None },
                        )
                        &&& final(queue).entries@ == spec_capture(
                            old(queue).entries@,
                            table,
                            id,
                            Operation::Create,
                            st,
                            now,
                        )
                    })
                } else {
                    exists|i: int|
                        0 <= i < old(store).rows@.len() && #[trigger] row_has_key(
                            old(store).rows@[i],
                            table,
                            id,
                        ) && {
                            let st = if op is Update {
                                spec_update_state(old(store).rows@[i].state, fields, now)
                            } else {
                                spec_delete_state(old(store).rows@[i].state, now)
                            };
                            &&& final(store).rows@ == old(store).rows@.update(
                                i,
                                LocalRow { state: st, ..old(store).rows@[i] },
                            )
                            &&& final(queue).entries@ == spec_capture(
                                old(queue).entries@,
                                table,
                                id,
                                op,
                                st,
                                now,
                            )
                        }
                })
            },
        },
{
    let found = store.find_row(table, id);
    match op {
        Operation::Create => {
            if found.is_some() {
                return Err(CaptureError::TransactionFailure);
            }
            let st = RecordState {
                user_id: user,
                created_at: now,
                updated_at: now,
                deleted_at: None,
                fields,
            };
            store.rows.push(LocalRow { table, id, state: st, synced_at: None });
            upsert_queue(queue, table, id, Operation::Create, st, now);
            proof {
                assert forall|i: int, j: int|
                    0 <= i < j < final(store).rows@.len() implies !(#[trigger] row_has_key(
                    final(store).rows@[i],
                    final(store).rows@[j].table,
                    final(store).rows@[j].id,
                )) by {
                    if j == final(store).rows@.len() - 1 {
                        if row_has_key(final(store).rows@[i], table, id) {
                            assert(row_has_key(old(store).rows@[i], table, id));
                        }
                    }
                }
            }
            Ok(())
        },
        _ => {
            match found {
                None => Err(CaptureError::TransactionFailure),
                Some(i) => {
                    let prev = store.rows[i];
                    let st = if matches!(op, Operation::Update) {
                        RecordState { updated_at: now, deleted_at: None, fields, ..prev.state }
                    } else {
                        RecordState { updated_at: now, deleted_at: Some(now), ..prev.state }
                    };
                    store.rows.set(i, LocalRow { state: st, ..prev });
                    upsert_queue(queue, table, id, op, st, now);
                    Ok(())
                },
            }
        },
    }
}

/// Coalesce one captured mutation into the queue.
fn upsert_queue(
    queue: &mut SyncQueue,
    table: TableKind,
    id: u64,
    op: Operation,
    snap: RecordState,
    now: u64,
) -> (r: ())
    requires
        wf_queue(*old(queue)),
        payload_table(snap.fields) == table,
        forall|j: int|
            0 <= j < old(queue).entries@.len() ==> #[trigger] old(queue).entries@[j].created_at <= now,
    ensures
        final(queue).entries@ == spec_capture(old(queue).entries@, table, id, op, snap, now),
        wf_queue(*final(queue)),
        forall|j: int|
            0 <= j < final(queue).entries@.len() ==> #[trigger] final(queue).entries@[j].created_at <= now,
{
    proof {
        lemma_capture_coalesces(old(queue).entries@, table, id, op, snap, now);
    }
    let found = queue.find_pending(table, id);
    match found {
        Some(i) => {
            proof {
                let c = choose|k: int|
                    0 <= k < old(queue).entries@.len() && #[trigger] entry_matches(
                        old(queue).entries@[k],
                        table,
                        id,
                    );
                lemma_pending_unique(old(queue).entries@, table, id, i as int, c);
            }
            let prev = queue.entries[i];
            if matches!(prev.operation, Operation::Create) && matches!(op, Operation::Delete) {
                queue.entries.remove(i);
            } else {
                let new_op = match (prev.operation, op) {
                    (Operation::Create, _) => Operation::Create,
                    (_, Operation::Delete) => Operation::Delete,
                    (_, _) => Operation::Update,
                };
                queue.entries.set(i, QueueEntry { operation: new_op, payload: snap, ..prev });
            }
        },
        None => {
            queue.entries.push(
                QueueEntry {
                    table,
                    record_id: id,
                    operation: op,
                    payload: snap,
                    attempts: 0,
                    last_attempt_at: None,
                    error: None,
                    created_at: now,
                    terminally_failed: false,
                },
            );
        },
    }
}

} // verus!
