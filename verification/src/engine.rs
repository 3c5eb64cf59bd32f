//! The sync engine: pushes pending queue entries to the remote authority in
//! creation order, applies last-writer-wins resolution to what comes back,
//! retries transient failures with capped exponential backoff, and pulls
//! newer remote records behind a watermark.
//!
//! The remote authority itself is modelled as a value (`RemoteStore`) with
//! the push/pull semantics the protocol assumes: record identity is the
//! client-generated id, so replaying a push is idempotent.

use vstd::prelude::*;

use crate::queue::QueueEntry;
use crate::queue::SyncFailure;
use crate::queue::SyncQueue;
use crate::queue::entry_matches;
use crate::queue::has_pending;
use crate::queue::wf_queue;
use crate::records::LocalRow;
use crate::records::RecordState;
use crate::records::RecordStore;
use crate::records::TableKind;
use crate::records::has_row;
use crate::records::payload_table;
use crate::records::row_has_key;
use crate::records::spec_merge;
use crate::records::wf_record_store;

verus! {

/// Seconds before a first retry; doubled on each failed attempt.
pub const BACKOFF_BASE_SECONDS: u64 = 30;

/// The backoff delay never grows past this many seconds.
pub const BACKOFF_CAP_SECONDS: u64 = 3840;

/// A pending entry with more failed attempts than this is surfaced as
/// stalled (it still retries; it no longer waits longer between tries).
pub const STALL_ATTEMPT_CEILING: u32 = 8;

/// One record as the remote authority holds it.
#[derive(Clone, Copy, PartialEq, Eq, Structural, Debug)]
pub struct RemoteRecord {
    pub table: TableKind,
    pub id: u64,
    pub state: RecordState,
}

/// The remote authority's store, keyed by (table, client-generated id).
pub struct RemoteStore {
    pub records: Vec<RemoteRecord>,
}

pub open spec fn remote_has(s: Seq<RemoteRecord>, table: TableKind, id: u64) -> bool {
    exists|i: int| 0 <= i < s.len() && #[trigger] remote_key_is(s[i], table, id)
}

pub open spec fn remote_key_is(r: RemoteRecord, table: TableKind, id: u64) -> bool {
    r.table == table && r.id == id
}

pub open spec fn wf_remote_store(s: Seq<RemoteRecord>) -> bool {
    &&& forall|i: int, j: int|
        0 <= i < j < s.len() ==> !(#[trigger] remote_key_is(s[i], s[j].table, s[j].id))
    &&& forall|i: int|
        0 <= i < s.len() ==> payload_table(#[trigger] s[i].state.fields) == s[i].table
}

/// What the remote authority answers to one pushed mutation.
#[derive(Clone, Copy, PartialEq, Eq, Structural, Debug)]
pub enum PushResponse {
    /// The mutation was applied; the authoritative state is echoed back.
    Applied { state: RecordState },
    /// The remote copy is strictly newer than the pushed payload; the local
    /// edit is superseded and the remote state is returned instead.
    Superseded { remote: RecordState },
    /// The mutation was rejected as permanently invalid.
    Rejected,
}

/// What one push attempt came to, as seen by the caller that performed the
/// network call. `TransientFailure` covers network errors, timeouts,
/// server-busy answers, and a drain pass cancelled with the entry in
/// flight.
#[derive(Clone, Copy, PartialEq, Eq, Structural, Debug)]
pub enum TransportOutcome {
    Response(PushResponse),
    TransientFailure,
}

/// The remote records after one push is applied: an existing record with the
/// same client id is overwritten (never duplicated) unless it is strictly
/// newer; a missing one is inserted.
pub open spec fn spec_remote_push_records(
    s: Seq<RemoteRecord>,
    table: TableKind,
    id: u64,
    payload: RecordState,
) -> Seq<RemoteRecord> {
    if remote_has(s, table, id) {
        let i = choose|i: int| 0 <= i < s.len() && #[trigger] remote_key_is(s[i], table, id);
        if s[i].state.updated_at > payload.updated_at {
            s
        } else {
            s.update(i, RemoteRecord { state: payload, ..s[i] })
        }
    } else {
        s.push(RemoteRecord { table, id, state: payload })
    }
}

pub open spec fn spec_remote_push_response(
    s: Seq<RemoteRecord>,
    table: TableKind,
    id: u64,
    payload: RecordState,
) -> PushResponse {
    if remote_has(s, table, id) {
        let i = choose|i: int| 0 <= i < s.len() && #[trigger] remote_key_is(s[i], table, id);
        if s[i].state.updated_at > payload.updated_at {
            PushResponse::Superseded { remote: s[i].state }
        } else {
            PushResponse::Applied { state: payload }
        }
    } else {
        PushResponse::Applied { state: payload }
    }
}

proof fn lemma_remote_unique(s: Seq<RemoteRecord>, table: TableKind, id: u64, i: int, j: int)
    requires
        wf_remote_store(s),
        0 <= i < s.len(),
        0 <= j < s.len(),
        remote_key_is(s[i], table, id),
        remote_key_is(s[j], table, id),
    ensures
        i == j,
{
    if i < j {
        assert(remote_key_is(s[i], s[j].table, s[j].id));
    } else if j < i {
        assert(remote_key_is(s[j], s[i].table, s[i].id));
    }
}

impl RemoteStore {
    pub fn new() -> (r: RemoteStore)
        ensures
            wf_remote_store(r.records@),
            r.records@.len() == 0,
    {
        RemoteStore { records: Vec::new() }
    }

    pub fn find_record(&self, table: TableKind, id: u64) -> (r: Option<usize>)
        ensures
            match r {
                Some(i) => i < self.records@.len() && remote_key_is(
                    self.records@[i as int],
                    table,
                    id,
                ),
                None => !remote_has(self.records@, table, id),
            },
    {
        let n = self.records.len();
        let mut i: usize = 0;
        while i < n
            invariant
                i <= n,
                n == self.records@.len(),
                forall|k: int|
                    0 <= k < i ==> !(#[trigger] remote_key_is(self.records@[k], table, id)),
            decreases n - i,
        {
            let rec = &self.records[i];
            if rec.id == id && rec.table == table {
                return Some(i);
            }
            i = i + 1;
        }
        None
    }

    /// The remote authority's handling of one pushed mutation.
    pub fn push(&mut self, table: TableKind, id: u64, payload: RecordState) -> (r: PushResponse)
        requires
            wf_remote_store(old(self).records@),
            payload_table(payload.fields) == table,
        ensures
            wf_remote_store(final(self).records@),
            final(self).records@ == spec_remote_push_records(old(self).records@, table, id, payload),
            r == spec_remote_push_response(old(self).records@, table, id, payload),
    {
        match self.find_record(table, id) {
            Some(i) => {
                proof {
                    let c = choose|k: int|
                        0 <= k < old(self).records@.len() && #[trigger] remote_key_is(
                            old(self).records@[k],
                            table,
                            id,
                        );
                    lemma_remote_unique(old(self).records@, table, id, i as int, c);
                }
                let existing = self.records[i];
                if existing.state.updated_at > payload.updated_at {
                    PushResponse::Superseded { remote: existing.state }
                } else {
                    self.records.set(i, RemoteRecord { state: payload, ..existing });
                    proof {
                        assert forall|a: int, b: int|
                            0 <= a < b < final(self).records@.len() implies !(
                        #[trigger] remote_key_is(
                            final(self).records@[a],
                            final(self).records@[b].table,
                            final(self).records@[b].id,
                        )) by {
                            if remote_key_is(final(self).records@[a], final(self).records@[b].table,
                                final(self).records@[b].id) {
                                assert(remote_key_is(old(self).records@[a],
                                    old(self).records@[b].table, old(self).records@[b].id));
                            }
                        }
                    }
                    PushResponse::Applied { state: payload }
                }
            },
            None => {
                self.records.push(RemoteRecord { table, id, state: payload });
                proof {
                    assert forall|a: int, b: int|
                        0 <= a < b < final(self).records@.len() implies !(#[trigger] remote_key_is(
                        final(self).records@[a],
                        final(self).records@[b].table,
                        final(self).records@[b].id,
                    )) by {
                        if b == final(self).records@.len() - 1 {
                            if remote_key_is(final(self).records@[a], table, id) {
                                assert(remote_key_is(old(self).records@[a], table, id));
                            }
                        } else {
                            if remote_key_is(final(self).records@[a], final(self).records@[b].table,
                                final(self).records@[b].id) {
                                assert(remote_key_is(old(self).records@[a],
                                    old(self).records@[b].table, old(self).records@[b].id));
                            }
                        }
                    }
                }
                PushResponse::Applied { state: payload }
            },
        }
    }
}

/// Replaying a successful push is a no-op: the remote store ends in the same
/// state, with no duplicate record, and answers `Applied` again.
pub proof fn lemma_push_idempotent(
    s: Seq<RemoteRecord>,
    table: TableKind,
    id: u64,
    payload: RecordState,
)
    requires
        wf_remote_store(s),
        payload_table(payload.fields) == table,
        spec_remote_push_response(s, table, id, payload) == (PushResponse::Applied {
            state: payload,
        }),
    ensures
        ({
            let s1 = spec_remote_push_records(s, table, id, payload);
            &&& spec_remote_push_records(s1, table, id, payload) == s1
            &&& spec_remote_push_response(s1, table, id, payload) == (PushResponse::Applied {
                state: payload,
            })
        }),
{
    let s1 = spec_remote_push_records(s, table, id, payload);
    if remote_has(s, table, id) {
        let i = choose|i: int| 0 <= i < s.len() && #[trigger] remote_key_is(s[i], table, id);
        assert(s1 == s.update(i, RemoteRecord { state: payload, ..s[i] }));
        assert(remote_key_is(s1[i], table, id));
        assert forall|a: int, b: int|
            0 <= a < b < s1.len() implies !(#[trigger] remote_key_is(s1[a], s1[b].table, s1[b].id))
            by {
            if remote_key_is(s1[a], s1[b].table, s1[b].id) {
                assert(remote_key_is(s[a], s[b].table, s[b].id));
            }
        }
        let j = choose|j: int| 0 <= j < s1.len() && #[trigger] remote_key_is(s1[j], table, id);
        lemma_remote_unique(s1, table, id, i, j);
        assert(s1[j].state == payload);
        assert(spec_remote_push_records(s1, table, id, payload) == s1.update(
            j,
            RemoteRecord { state: payload, ..s1[j] },
        ));
        assert(s1.update(j, RemoteRecord { state: payload, ..s1[j] }) =~= s1);
    } else {
        let n = s.len() as int;
        assert(s1 == s.push(RemoteRecord { table, id, state: payload }));
        assert(remote_key_is(s1[n], table, id));
        assert forall|a: int, b: int|
            0 <= a < b < s1.len() implies !(#[trigger] remote_key_is(s1[a], s1[b].table, s1[b].id))
            by {
            if b < n {
                if remote_key_is(s1[a], s1[b].table, s1[b].id) {
                    assert(remote_key_is(s[a], s[b].table, s[b].id));
                }
            } else {
                if remote_key_is(s1[a], table, id) {
                    assert(remote_key_is(s[a], table, id));
                }
            }
        }
        let j = choose|j: int| 0 <= j < s1.len() && #[trigger] remote_key_is(s1[j], table, id);
        lemma_remote_unique(s1, table, id, n, j);
        assert(s1[j].state == payload);
        assert(spec_remote_push_records(s1, table, id, payload) == s1.update(
            j,
            RemoteRecord { state: payload, ..s1[j] },
        ));
        assert(s1.update(j, RemoteRecord { state: payload, ..s1[j] }) =~= s1);
    }
}

pub open spec fn spec_pow2(n: nat) -> nat
    decreases n,
{
    if n == 0 {
        1
    } else {
        2 * spec_pow2((n - 1) as nat)
    }
}

/// Seconds an entry waits after its latest failed attempt: the base delay
/// doubled per attempt, capped.
pub open spec fn spec_backoff_delay(attempts: nat) -> nat {
    if attempts >= 7 {
        BACKOFF_CAP_SECONDS as nat
    } else {
        (BACKOFF_BASE_SECONDS as nat) * spec_pow2(attempts)
    }
}

pub fn backoff_delay(attempts: u32) -> (r: u64)
    ensures
        r as nat == spec_backoff_delay(attempts as nat),
{
    proof {
        reveal_with_fuel(spec_pow2, 8);
    }
    if attempts == 0 {
        30
    } else if attempts == 1 {
        60
    } else if attempts == 2 {
        120
    } else if attempts == 3 {
        240
    } else if attempts == 4 {
        480
    } else if attempts == 5 {
        960
    } else if attempts == 6 {
        1920
    } else {
        3840
    }
}

/// A pending entry may be retried once its backoff window has passed.
pub open spec fn entry_eligible(e: QueueEntry, now: u64) -> bool {
    &&& !e.terminally_failed
    &&& match e.last_attempt_at {
        Option::None => true,
        Option::Some(t) => t as nat + spec_backoff_delay(e.attempts as nat) <= now as nat,
    }
}

pub fn is_entry_eligible(e: &QueueEntry, now: u64) -> (r: bool)
    ensures
        r == entry_eligible(*e, now),
{
    if e.terminally_failed {
        return false;
    }
    match e.last_attempt_at {
        Option::None => true,
        Option::Some(t) => {
            let d = backoff_delay(e.attempts);
            t <= now && now - t >= d
        },
    }
}

/// An entry whose transient failures have passed the ceiling: surfaced to
/// the caller as stalled, while local edits keep flowing.
pub open spec fn entry_stalled(e: QueueEntry) -> bool {
    !e.terminally_failed && e.attempts > STALL_ATTEMPT_CEILING
}

/// The indices of all stalled entries, for surfacing to the user; they keep
/// retrying at the capped interval and never block local edits.
pub fn stalled_entries(queue: &SyncQueue) -> (r: Vec<usize>)
    ensures
        forall|k: int|
            0 <= k < r@.len() ==> r@[k] < queue.entries@.len() && entry_stalled(
                #[trigger] queue.entries@[r@[k] as int],
            ),
        forall|i: int|
            0 <= i < queue.entries@.len() && entry_stalled(#[trigger] queue.entries@[i])
                ==> exists|k: int| 0 <= k < r@.len() && r@[k] == i,
{
    let n = queue.entries.len();
    let mut out: Vec<usize> = Vec::new();
    let mut i: usize = 0;
    while i < n
        invariant
            i <= n,
            n == queue.entries@.len(),
            forall|k: int|
                0 <= k < out@.len() ==> (#[trigger] out@[k]) < i && entry_stalled(
                    queue.entries@[out@[k] as int],
                ),
            forall|j: int|
                0 <= j < i && entry_stalled(#[trigger] queue.entries@[j]) ==> exists|k: int|
                    0 <= k < out@.len() && out@[k] == j,
        decreases n - i,
    {
        let e = &queue.entries[i];
        if !e.terminally_failed && e.attempts > STALL_ATTEMPT_CEILING {
            let ghost prev = out@;
            out.push(i);
            proof {
                assert(entry_stalled(queue.entries@[i as int]));
                assert(out@[prev.len() as int] == i as usize);
                assert forall|k: int|
                    0 <= k < out@.len() implies (#[trigger] out@[k]) < i + 1 && entry_stalled(
                    queue.entries@[out@[k] as int],
                ) by {
                    if k < prev.len() {
                        assert(out@[k] == prev[k]);
                        assert(entry_stalled(queue.entries@[prev[k] as int]));
                    } else {
                        assert(out@[k] == i as usize);
                    }
                }
                assert forall|j: int|
                    0 <= j < i + 1 && entry_stalled(#[trigger] queue.entries@[j]) implies exists|
                    k: int,
                |
                    0 <= k < out@.len() && out@[k] == j by {
                    if j < i {
                        let k0 = choose|k: int| 0 <= k < prev.len() && prev[k] == j;
                        assert(out@[k0] == prev[k0]);
                    }
                }
            }
        }
        i = i + 1;
    }
    out
}

/// `i` is the first still-pending entry: the head of the drain order.
pub open spec fn is_first_pending(s: Seq<QueueEntry>, i: int) -> bool {
    &&& 0 <= i < s.len()
    &&& !s[i].terminally_failed
    &&& forall|k: int| 0 <= k < i ==> (#[trigger] s[k]).terminally_failed
}

pub proof fn lemma_first_pending_unique(s: Seq<QueueEntry>, i: int, j: int)
    requires
        is_first_pending(s, i),
        is_first_pending(s, j),
    ensures
        i == j,
{
}

/// What a drain pass should do next.
#[derive(Clone, Copy, PartialEq, Eq, Structural, Debug)]
pub enum DrainDecision {
    /// Push the entry at this index now.
    Push(usize),
    /// The head of the queue is still backing off: the pass stops here, so
    /// no later entry overtakes it.
    Backoff(usize),
    /// Nothing is pending.
    Idle,
}

/// Entries are drained strictly in order: an entry is pushed only if it is
/// the first pending one, so a deferred entry is never overtaken by one
/// queued after it.
pub proof fn lemma_no_push_past_pending(s: Seq<QueueEntry>, i: int, j: int)
    requires
        0 <= i < j < s.len(),
        !s[i].terminally_failed,
    ensures
        !is_first_pending(s, j),
{
}

/// Decide the next drain action: the first pending entry is pushed if its
/// backoff window has passed, else the pass stops.
pub fn next_drain_decision(queue: &SyncQueue, now: u64) -> (r: DrainDecision)
    ensures
        match r {
            DrainDecision::Push(i) => is_first_pending(queue.entries@, i as int) && entry_eligible(
                queue.entries@[i as int],
                now,
            ),
            DrainDecision::Backoff(i) => is_first_pending(queue.entries@, i as int)
                && !entry_eligible(queue.entries@[i as int], now),
            DrainDecision::Idle => forall|k: int|
                0 <= k < queue.entries@.len() ==> (#[trigger] queue.entries@[k]).terminally_failed,
        },
{
    let n = queue.entries.len();
    let mut i: usize = 0;
    while i < n
        invariant
            i <= n,
            n == queue.entries@.len(),
            forall|k: int| 0 <= k < i ==> (#[trigger] queue.entries@[k]).terminally_failed,
        decreases n - i,
    {
        let e = &queue.entries[i];
        if !e.terminally_failed {
            if is_entry_eligible(e, now) {
                return DrainDecision::Push(i);
            } else {
                return DrainDecision::Backoff(i);
            }
        }
        i = i + 1;
    }
    DrainDecision::Idle
}

/// The entry after one more transient failure: attempt counted, failure
/// recorded, entry left pending in place.
pub open spec fn spec_bump_transient(e: QueueEntry, now: u64) -> QueueEntry {
    QueueEntry {
        attempts: if e.attempts < u32::MAX {
            (e.attempts + 1) as u32
        } else {
            e.attempts
        },
        last_attempt_at: Some(now),
        error: Some(SyncFailure::Transient),
        ..e
    }
}

/// The entry after a permanent rejection: kept for manual resolution,
/// excluded from automatic retries.
pub open spec fn spec_mark_permanent(e: QueueEntry, now: u64) -> QueueEntry {
    QueueEntry {
        last_attempt_at: Some(now),
        error: Some(SyncFailure::Permanent),
        terminally_failed: true,
        ..e
    }
}

/// The local rows after an authoritative state arrives for one record:
/// last-writer-wins against the existing row (remote wins ties), insert if
/// the record is unknown locally, and the sync marker set.
pub open spec fn spec_apply_authoritative(
    rows: Seq<LocalRow>,
    table: TableKind,
    id: u64,
    st: RecordState,
    stamp: u64,
) -> Seq<LocalRow> {
    if has_row(rows, table, id) {
        let i = choose|i: int| 0 <= i < rows.len() && #[trigger] row_has_key(rows[i], table, id);
        rows.update(
            i,
            LocalRow { state: spec_merge(rows[i].state, st), synced_at: Some(stamp), ..rows[i] },
        )
    } else {
        rows.push(LocalRow { table, id, state: st, synced_at: Some(stamp) })
    }
}

/// Apply one authoritative record state to the local store.
fn apply_authoritative(
    store: &mut RecordStore,
    table: TableKind,
    id: u64,
    st: RecordState,
    stamp: u64,
) -> (r: ())
    requires
        wf_record_store(*old(store)),
        payload_table(st.fields) == table,
    ensures
        wf_record_store(*final(store)),
        final(store).rows@ == spec_apply_authoritative(old(store).rows@, table, id, st, stamp),
{
    match store.find_row(table, id) {
        Some(i) => {
            proof {
                let c = choose|k: int|
                    0 <= k < old(store).rows@.len() && #[trigger] row_has_key(
                        old(store).rows@[k],
                        table,
                        id,
                    );
                crate::records::lemma_row_unique(old(store).rows@, table, id, i as int, c);
            }
            let prev = store.rows[i];
            let merged = crate::records::merge_states(&prev.state, &st);
            store.rows.set(i, LocalRow { state: merged, synced_at: Some(stamp), ..prev });
            proof {
                assert forall|a: int, b: int|
                    0 <= a < b < final(store).rows@.len() implies !(#[trigger] row_has_key(
                    final(store).rows@[a],
                    final(store).rows@[b].table,
                    final(store).rows@[b].id,
                )) by {
                    if row_has_key(final(store).rows@[a], final(store).rows@[b].table,
                        final(store).rows@[b].id) {
                        assert(row_has_key(old(store).rows@[a], old(store).rows@[b].table,
                            old(store).rows@[b].id));
                    }
                }
            }
        },
        None => {
            store.rows.push(LocalRow { table, id, state: st, synced_at: Some(stamp) });
            proof {
                assert forall|a: int, b: int|
                    0 <= a < b < final(store).rows@.len() implies !(#[trigger] row_has_key(
                    final(store).rows@[a],
                    final(store).rows@[b].table,
                    final(store).rows@[b].id,
                )) by {
                    if b == final(store).rows@.len() - 1 {
                        if row_has_key(final(store).rows@[a], table, id) {
                            assert(row_has_key(old(store).rows@[a], table, id));
                        }
                    } else {
                        if row_has_key(final(store).rows@[a], final(store).rows@[b].table,
                            final(store).rows@[b].id) {
                            assert(row_has_key(old(store).rows@[a], old(store).rows@[b].table,
                                old(store).rows@[b].id));
                        }
                    }
                }
            }
        },
    }
}

/// What one applied push outcome came to.
#[derive(Clone, Copy, PartialEq, Eq, Structural, Debug)]
pub enum StepStatus {
    /// The remote authority applied the mutation; the entry is done.
    Acknowledged,
    /// The remote copy was strictly newer; the local edit was superseded and
    /// the remote state now stands locally.
    RemoteSuperseded,
    /// Permanently rejected: the entry is kept but no longer retried.
    PermanentlyRejected,
    /// Transient failure (or a cancelled pass): the entry stays pending and
    /// the drain pass must stop here.
    TransientlyDeferred,
}

/// Fold one push outcome for the entry at `i` into the queue and the local
/// store, as the sync protocol prescribes for each outcome kind.
pub fn apply_push_outcome(
    store: &mut RecordStore,
    queue: &mut SyncQueue,
    i: usize,
    outcome: TransportOutcome,
    now: u64,
) -> (r: StepStatus)
    requires
        wf_record_store(*old(store)),
        wf_queue(*old(queue)),
        i < old(queue).entries@.len(),
        !old(queue).entries@[i as int].terminally_failed,
        match outcome {
            TransportOutcome::Response(PushResponse::Applied { state }) => payload_table(
                state.fields,
            ) == old(queue).entries@[i as int].table,
            TransportOutcome::Response(PushResponse::Superseded { remote }) => payload_table(
                remote.fields,
            ) == old(queue).entries@[i as int].table,
            _ => true,
        },
    ensures
        wf_record_store(*final(store)),
        wf_queue(*final(queue)),
        ({
            let e = old(queue).entries@[i as int];
            match outcome {
                TransportOutcome::TransientFailure => {
                    &&& r == StepStatus::TransientlyDeferred
                    &&& final(store).rows@ == old(store).rows@
                    &&& final(queue).entries@ == old(queue).entries@.update(
                        i as int,
                        spec_bump_transient(e, now),
                    )
                },
                TransportOutcome::Response(PushResponse::Rejected) => {
                    &&& r == StepStatus::PermanentlyRejected
                    &&& final(store).rows@ == old(store).rows@
                    &&& final(queue).entries@ == old(queue).entries@.update(
                        i as int,
                        spec_mark_permanent(e, now),
                    )
                },
                TransportOutcome::Response(PushResponse::Applied { state }) => {
                    &&& r == StepStatus::Acknowledged
                    &&& final(queue).entries@ == old(queue).entries@.remove(i as int)
                    &&& final(store).rows@ == spec_apply_authoritative(
                        old(store).rows@,
                        e.table,
                        e.record_id,
                        state,
                        now,
                    )
                },
                TransportOutcome::Response(PushResponse::Superseded { remote }) => {
                    &&& r == StepStatus::RemoteSuperseded
                    &&& final(queue).entries@ == old(queue).entries@.remove(i as int)
                    &&& final(store).rows@ == spec_apply_authoritative(
                        old(store).rows@,
                        e.table,
                        e.record_id,
                        remote,
                        now,
                    )
                },
            }
        }),
{
    let e = queue.entries[i];
    match outcome {
        TransportOutcome::TransientFailure => {
            let attempts = if e.attempts < u32::MAX {
                e.attempts + 1
            } else {
                e.attempts
            };
            let e2 = QueueEntry {
                attempts,
                last_attempt_at: Some(now),
                error: Some(SyncFailure::Transient),
                ..e
            };
            proof {
                crate::queue::lemma_wf_entries_update(old(queue).entries@, i as int, e2);
            }
            queue.entries.set(i, e2);
            StepStatus::TransientlyDeferred
        },
        TransportOutcome::Response(PushResponse::Rejected) => {
            let e2 = QueueEntry {
                last_attempt_at: Some(now),
                error: Some(SyncFailure::Permanent),
                terminally_failed: true,
                ..e
            };
            proof {
                crate::queue::lemma_wf_entries_update(old(queue).entries@, i as int, e2);
            }
            queue.entries.set(i, e2);
            StepStatus::PermanentlyRejected
        },
        TransportOutcome::Response(PushResponse::Applied { state }) => {
            proof {
                crate::queue::lemma_wf_entries_remove(old(queue).entries@, i as int);
            }
            queue.entries.remove(i);
            apply_authoritative(store, e.table, e.record_id, state, now);
            StepStatus::Acknowledged
        },
        TransportOutcome::Response(PushResponse::Superseded { remote }) => {
            proof {
                crate::queue::lemma_wf_entries_remove(old(queue).entries@, i as int);
            }
            queue.entries.remove(i);
            apply_authoritative(store, e.table, e.record_id, remote, now);
            StepStatus::RemoteSuperseded
        },
    }
}

/// A transiently failed entry keeps its place at the head of the line: the
/// next drain pass retries it before anything queued after it.
pub proof fn lemma_transient_keeps_first(s: Seq<QueueEntry>, i: int, now: u64)
    requires
        is_first_pending(s, i),
    ensures
        is_first_pending(s.update(i, spec_bump_transient(s[i], now)), i),
{
}

/// A record pushed and pulled back compares equal on every field: pushing
/// stores the payload verbatim, and applying the pulled copy on top of the
/// unchanged local row resolves the tie to the identical remote state.
pub proof fn lemma_round_trip(
    rows: Seq<LocalRow>,
    recs: Seq<RemoteRecord>,
    table: TableKind,
    id: u64,
    st: RecordState,
    i: int,
    stamp: u64,
)
    requires
        forall|a: int, b: int|
            0 <= a < b < rows.len() ==> !(#[trigger] row_has_key(rows[a], rows[b].table, rows[b].id)),
        wf_remote_store(recs),
        payload_table(st.fields) == table,
        0 <= i < rows.len(),
        row_has_key(rows[i], table, id),
        rows[i].state == st,
        spec_remote_push_response(recs, table, id, st) == (PushResponse::Applied { state: st }),
    ensures
        ({
            let recs1 = spec_remote_push_records(recs, table, id, st);
            exists|k: int|
                0 <= k < recs1.len() && #[trigger] remote_key_is(recs1[k], table, id)
                    && recs1[k].state == st
        }),
        ({
            let rows2 = spec_apply_authoritative(rows, table, id, st, stamp);
            &&& rows2[i].state == st
            &&& crate::records::user_visible_eq(rows2[i].state, st)
        }),
{
    let recs1 = spec_remote_push_records(recs, table, id, st);
    if remote_has(recs, table, id) {
        let k = choose|k: int| 0 <= k < recs.len() && #[trigger] remote_key_is(recs[k], table, id);
        assert(recs1 == recs.update(k, RemoteRecord { state: st, ..recs[k] }));
        assert(remote_key_is(recs1[k], table, id) && recs1[k].state == st);
    } else {
        let n = recs.len() as int;
        assert(recs1 == recs.push(RemoteRecord { table, id, state: st }));
        assert(remote_key_is(recs1[n], table, id) && recs1[n].state == st);
    }
    assert(has_row(rows, table, id));
    let j = choose|j: int| 0 <= j < rows.len() && #[trigger] row_has_key(rows[j], table, id);
    crate::records::lemma_row_unique(rows, table, id, i, j);
    assert(spec_merge(rows[i].state, st) == st);
}

/// Drain up to `budget` entries of the queue against the remote authority,
/// in creation order, stopping at the first entry still backing off.
pub open spec fn spec_drain(
    rows: Seq<LocalRow>,
    entries: Seq<QueueEntry>,
    recs: Seq<RemoteRecord>,
    now: u64,
    budget: nat,
) -> (Seq<LocalRow>, Seq<QueueEntry>, Seq<RemoteRecord>)
    decreases budget,
{
    if budget == 0 {
        (rows, entries, recs)
    } else if exists|i: int| is_first_pending(entries, i) {
        let i = choose|i: int| is_first_pending(entries, i);
        if entry_eligible(entries[i], now) {
            let e = entries[i];
            let resp = spec_remote_push_response(recs, e.table, e.record_id, e.payload);
            let recs2 = spec_remote_push_records(recs, e.table, e.record_id, e.payload);
            let st = match resp {
                PushResponse::Applied { state } => state,
                PushResponse::Superseded { remote } => remote,
                PushResponse::Rejected => e.payload,
            };
            let rows2 = spec_apply_authoritative(rows, e.table, e.record_id, st, now);
            spec_drain(rows2, entries.remove(i), recs2, now, (budget - 1) as nat)
        } else {
            (rows, entries, recs)
        }
    } else {
        (rows, entries, recs)
    }
}

/// One drain pass: pending entries are pushed in creation order, each
/// response applied locally, until the queue head is backing off, nothing is
/// pending, or the batch budget is spent.
pub fn drain(
    store: &mut RecordStore,
    queue: &mut SyncQueue,
    remote: &mut RemoteStore,
    now: u64,
    budget: u64,
) -> (r: ())
    requires
        wf_record_store(*old(store)),
        wf_queue(*old(queue)),
        wf_remote_store(old(remote).records@),
    ensures
        wf_record_store(*final(store)),
        wf_queue(*final(queue)),
        wf_remote_store(final(remote).records@),
        ({
            let (rows2, entries2, recs2) = spec_drain(
                old(store).rows@,
                old(queue).entries@,
                old(remote).records@,
                now,
                budget as nat,
            );
            &&& final(store).rows@ == rows2
            &&& final(queue).entries@ == entries2
            &&& final(remote).records@ == recs2
        }),
    decreases budget,
{
    if budget == 0 {
        return ;
    }
    match next_drain_decision(queue, now) {
        DrainDecision::Idle => {
            proof {
                if exists|i: int| is_first_pending(old(queue).entries@, i) {
                    let i = choose|i: int| is_first_pending(old(queue).entries@, i);
                    assert(old(queue).entries@[i].terminally_failed);
                }
            }
        },
        DrainDecision::Backoff(i) => {
            proof {
                let c = choose|k: int| is_first_pending(old(queue).entries@, k);
                lemma_first_pending_unique(old(queue).entries@, c, i as int);
            }
        },
        DrainDecision::Push(i) => {
            proof {
                let c = choose|k: int| is_first_pending(old(queue).entries@, k);
                lemma_first_pending_unique(old(queue).entries@, c, i as int);
            }
            let e = queue.entries[i];
            let resp = remote.push(e.table, e.record_id, e.payload);
            apply_push_outcome(store, queue, i, TransportOutcome::Response(resp), now);
            drain(store, queue, remote, now, budget - 1);
        },
    }
}

/// The queue entries a pull discards: a pending local edit whose record the
/// remote authority has since overwritten with a strictly newer state is
/// superseded and dropped.
pub open spec fn spec_pull_discard(
    entries: Seq<QueueEntry>,
    table: TableKind,
    id: u64,
    remote_updated: u64,
) -> Seq<QueueEntry> {
    if has_pending(entries, table, id) {
        let i = choose|i: int|
            0 <= i < entries.len() && #[trigger] entry_matches(entries[i], table, id);
        if remote_updated > entries[i].payload.updated_at {
            entries.remove(i)
        } else {
            entries
        }
    } else {
        entries
    }
}

/// The pull fold, from record index `k` on: every remote record newer than
/// the watermark is applied last-writer-wins to the local store, superseded
/// pending entries are discarded, and the new watermark is the largest
/// applied `updated_at`.
pub open spec fn spec_pull_from(
    rows: Seq<LocalRow>,
    entries: Seq<QueueEntry>,
    recs: Seq<RemoteRecord>,
    since: u64,
    k: int,
    wm: u64,
) -> (Seq<LocalRow>, Seq<QueueEntry>, u64)
    decreases recs.len() - k,
{
    if k < 0 || k >= recs.len() {
        (rows, entries, wm)
    } else {
        let rec = recs[k];
        if rec.state.updated_at > since {
            let rows2 = spec_apply_authoritative(
                rows,
                rec.table,
                rec.id,
                rec.state,
                rec.state.updated_at,
            );
            let entries2 = spec_pull_discard(entries, rec.table, rec.id, rec.state.updated_at);
            let wm2 = if rec.state.updated_at > wm {
                rec.state.updated_at
            } else {
                wm
            };
            spec_pull_from(rows2, entries2, recs, since, k + 1, wm2)
        } else {
            spec_pull_from(rows, entries, recs, since, k + 1, wm)
        }
    }
}

fn pull_from(
    store: &mut RecordStore,
    queue: &mut SyncQueue,
    remote: &RemoteStore,
    since: u64,
    k: usize,
    wm: u64,
) -> (r: u64)
    requires
        wf_record_store(*old(store)),
        wf_queue(*old(queue)),
        wf_remote_store(remote.records@),
        k <= remote.records@.len(),
    ensures
        wf_record_store(*final(store)),
        wf_queue(*final(queue)),
        ({
            let (rows2, entries2, wm2) = spec_pull_from(
                old(store).rows@,
                old(queue).entries@,
                remote.records@,
                since,
                k as int,
                wm,
            );
            &&& final(store).rows@ == rows2
            &&& final(queue).entries@ == entries2
            &&& r == wm2
        }),
    decreases remote.records@.len() - k,
{
    if k >= remote.records.len() {
        return wm;
    }
    let rec = remote.records[k];
    if rec.state.updated_at > since {
        apply_authoritative(store, rec.table, rec.id, rec.state, rec.state.updated_at);
        match queue.find_pending(rec.table, rec.id) {
            Some(i) => {
                proof {
                    let c = choose|c: int|
                        0 <= c < old(queue).entries@.len() && #[trigger] entry_matches(
                            old(queue).entries@[c],
                            rec.table,
                            rec.id,
                        );
                    crate::queue::lemma_pending_unique(
                        old(queue).entries@,
                        rec.table,
                        rec.id,
                        i as int,
                        c,
                    );
                }
                if rec.state.updated_at > queue.entries[i].payload.updated_at {
                    proof {
                        crate::queue::lemma_wf_entries_remove(old(queue).entries@, i as int);
                    }
                    queue.entries.remove(i);
                }
            },
            None => {},
        }
        let wm2 = if rec.state.updated_at > wm {
            rec.state.updated_at
        } else {
            wm
        };
        pull_from(store, queue, remote, since, k + 1, wm2)
    } else {
        pull_from(store, queue, remote, since, k + 1, wm)
    }
}

/// Pull every remote record newer than `last_sync_at` and apply it with
/// last-writer-wins, discarding superseded pending entries; the returned
/// watermark is to be persisted by the caller once the whole window is
/// applied.
pub fn pull_apply(
    store: &mut RecordStore,
    queue: &mut SyncQueue,
    remote: &RemoteStore,
    last_sync_at: u64,
) -> (r: u64)
    requires
        wf_record_store(*old(store)),
        wf_queue(*old(queue)),
        wf_remote_store(remote.records@),
    ensures
        wf_record_store(*final(store)),
        wf_queue(*final(queue)),
        ({
            let (rows2, entries2, wm2) = spec_pull_from(
                old(store).rows@,
                old(queue).entries@,
                remote.records@,
                last_sync_at,
                0,
                last_sync_at,
            );
            &&& final(store).rows@ == rows2
            &&& final(queue).entries@ == entries2
            &&& r == wm2
        }),
{
    pull_from(store, queue, remote, last_sync_at, 0, last_sync_at)
}

} // verus!
