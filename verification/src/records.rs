//! The syncable record model: per-table typed payloads, the common sync
//! fields (ownership, timestamps, soft-delete tombstone), the local record
//! store, and last-writer-wins merging.

use vstd::prelude::*;

verus! {

/// The syncable entity tables.
#[derive(Clone, Copy, PartialEq, Eq, Structural, Debug)]
pub enum TableKind {
    Expenses,
    Budgets,
    SavingsGoals,
    SavingsContributions,
    HabitGoals,
    HabitTracking,
}

/// The per-table field values of one record. Money is held in cents and
/// calendar dates as day numbers, so every field is a plain value.
#[derive(Clone, Copy, PartialEq, Eq, Structural, Debug)]
pub enum Payload {
    Expense { amount_cents: u64, category_id: Option<u64>, date: u32 },
    Budget { month: u32, total_amount_cents: u64, spending_limit_cents: Option<u64> },
    SavingsGoal { target_amount_cents: u64, target_date: u32, monthly_contribution_cents: u64 },
    SavingsContribution { goal_id: u64, month: u32, amount_cents: u64, is_full_amount: bool },
    HabitGoal {
        category_id: Option<u64>,
        rule_value_cents: u64,
        duration_months: Option<u32>,
        start_date: u32,
    },
    HabitTracking {
        habit_goal_id: u64,
        month: u32,
        spent_cents: u64,
        target_cents: u64,
        is_compliant: bool,
    },
}

/// The table a payload belongs to.
pub open spec fn payload_table(p: Payload) -> TableKind {
    match p {
        Payload::Expense { .. } => TableKind::Expenses,
        Payload::Budget { .. } => TableKind::Budgets,
        Payload::SavingsGoal { .. } => TableKind::SavingsGoals,
        Payload::SavingsContribution { .. } => TableKind::SavingsContributions,
        Payload::HabitGoal { .. } => TableKind::HabitGoals,
        Payload::HabitTracking { .. } => TableKind::HabitTracking,
    }
}

/// The full sync-relevant state of one record: owner, timestamps, the
/// soft-delete tombstone, and the typed field values.
#[derive(Clone, Copy, PartialEq, Eq, Structural, Debug)]
pub struct RecordState {
    pub user_id: Option<u64>,
    pub created_at: u64,
    pub updated_at: u64,
    pub deleted_at: Option<u64>,
    pub fields: Payload,
}

/// One row of the local record store.
#[derive(Clone, Copy, PartialEq, Eq, Structural, Debug)]
pub struct LocalRow {
    pub table: TableKind,
    pub id: u64,
    pub state: RecordState,
    /// Set when the remote authority last acknowledged this record.
    pub synced_at: Option<u64>,
}

/// The user-visible content of a record: everything except sync bookkeeping.
pub open spec fn user_visible_eq(a: RecordState, b: RecordState) -> bool {
    &&& a.user_id == b.user_id
    &&& a.deleted_at == b.deleted_at
    &&& a.fields == b.fields
}

/// Last-writer-wins conflict resolution: the state with the larger
/// `updated_at` wins; a tie resolves to the remote state.
pub open spec fn spec_merge(local: RecordState, remote: RecordState) -> RecordState {
    if local.updated_at > remote.updated_at {
        local
    } else {
        remote
    }
}

/// Last-writer-wins merge of a local and a remote state.
pub fn merge_states(local: &RecordState, remote: &RecordState) -> (r: RecordState)
    ensures
        r == spec_merge(*local, *remote),
        local.updated_at > remote.updated_at ==> r == *local,
        local.updated_at <= remote.updated_at ==> r == *remote,
{
    if local.updated_at > remote.updated_at {
        *local
    } else {
        *remote
    }
}

/// The local record store: one row per (table, record id).
pub struct RecordStore {
    pub rows: Vec<LocalRow>,
}

pub open spec fn row_has_key(r: LocalRow, table: TableKind, id: u64) -> bool {
    r.table == table && r.id == id
}

pub open spec fn has_row(rows: Seq<LocalRow>, table: TableKind, id: u64) -> bool {
    exists|i: int| 0 <= i < rows.len() && #[trigger] row_has_key(rows[i], table, id)
}

/// Row keys are unique and each row's table agrees with its payload.
pub open spec fn wf_record_store(s: RecordStore) -> bool {
    &&& forall|i: int, j: int|
        0 <= i < j < s.rows@.len() ==> !(#[trigger] row_has_key(
            s.rows@[i],
            s.rows@[j].table,
            s.rows@[j].id,
        ))
    &&& forall|i: int|
        0 <= i < s.rows@.len() ==> payload_table(#[trigger] s.rows@[i].state.fields)
            == s.rows@[i].table
}

/// In a well-formed store the row for a record is unique.
pub proof fn lemma_row_unique(s: Seq<LocalRow>, table: TableKind, id: u64, i: int, j: int)
    requires
        forall|a: int, b: int|
            0 <= a < b < s.len() ==> !(#[trigger] row_has_key(s[a], s[b].table, s[b].id)),
        0 <= i < s.len(),
        0 <= j < s.len(),
        row_has_key(s[i], table, id),
        row_has_key(s[j], table, id),
    ensures
        i == j,
{
    if i < j {
        assert(row_has_key(s[i], s[j].table, s[j].id));
    } else if j < i {
        assert(row_has_key(s[j], s[i].table, s[i].id));
    }
}

impl RecordStore {
    pub fn new() -> (r: RecordStore)
        ensures
            wf_record_store(r),
            r.rows@.len() == 0,
    {
        RecordStore { rows: Vec::new() }
    }

    /// The index of the row for (table, id), if one exists.
    pub fn find_row(&self, table: TableKind, id: u64) -> (r: Option<usize>)
        ensures
            match r {
                Some(i) => i < self.rows@.len() && row_has_key(self.rows@[i as int], table, id),
                None => !has_row(self.rows@, table, id),
            },
    {
        let n = self.rows.len();
        let mut i: usize = 0;
        while i < n
            invariant
                i <= n,
                n == self.rows@.len(),
                forall|k: int| 0 <= k < i ==> !(#[trigger] row_has_key(self.rows@[k], table, id)),
            decreases n - i,
        {
            let row = &self.rows[i];
            if row.id == id && row.table == table {
                return Some(i);
            }
            i = i + 1;
        }
        None
    }

    /// Read one record, as user-facing queries do: a soft-deleted record is
    /// invisible even though its row is still stored.
    pub fn read_record(&self, table: TableKind, id: u64) -> (r: Option<RecordState>)
        requires
            wf_record_store(*self),
        ensures
            match r {
                Some(st) => exists|i: int|
                    0 <= i < self.rows@.len() && #[trigger] row_has_key(self.rows@[i], table, id)
                        && self.rows@[i].state == st && st.deleted_at is None,
                None => forall|i: int|
                    0 <= i < self.rows@.len() && #[trigger] row_has_key(self.rows@[i], table, id)
                        ==> self.rows@[i].state.deleted_at is Some,
            },
    {
        match self.find_row(table, id) {
            Some(i) => {
                let st = self.rows[i].state;
                if st.deleted_at.is_none() {
                    Some(st)
                } else {
                    proof {
                        assert forall|k: int|
                            0 <= k < self.rows@.len() && #[trigger] row_has_key(
                                self.rows@[k],
                                table,
                                id,
                            ) implies self.rows@[k].state.deleted_at is Some by {
                            if k < i as int {
                                assert(row_has_key(self.rows@[k], self.rows@[i as int].table,
                                    self.rows@[i as int].id));
                            } else if k > i as int {
                                assert(row_has_key(self.rows@[i as int], self.rows@[k].table,
                                    self.rows@[k].id));
                            }
                        }
                    }
                    None
                }
            },
            None => None,
        }
    }
}

} // verus!
