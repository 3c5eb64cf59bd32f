//! The notification scheduler: quiet hours with midnight wrap, deferral of
//! fire times out of the quiet window, idempotent persistence of planned
//! notifications, and the due-check that feeds the delivery collaborator.

use vstd::prelude::*;

use crate::cron::CronExpr;
use crate::cron::compute_next_fire;
use crate::cron::cron_matches;
use crate::cron::cron_matches_at;
use crate::cron::spec_next_fire;
use crate::time::DateTime;
use crate::time::dt_le;
use crate::time::dt_lt;
use crate::time::next_day;
use crate::time::spec_next_day;
use crate::time::valid_date_time;

verus! {

/// A daily window, possibly wrapping past midnight, in which nothing fires.
/// Both bounds are minutes of the day; the end minute itself is outside the
/// window.
#[derive(Clone, Copy, PartialEq, Eq, Structural, Debug)]
pub struct QuietHours {
    pub enabled: bool,
    pub start_minute: u16,
    pub end_minute: u16,
}

pub open spec fn wf_quiet_hours(q: QuietHours) -> bool {
    q.start_minute < 1440 && q.end_minute < 1440
}

pub open spec fn minute_of_day(t: DateTime) -> int {
    t.hour * 60 + t.minute
}

/// Whether `t` falls inside the quiet window. A window whose start equals
/// its end is empty; one whose start is after its end wraps past midnight
/// and spans two calendar days.
pub open spec fn in_quiet_hours(q: QuietHours, t: DateTime) -> bool {
    &&& q.enabled
    &&& ({
        let m = minute_of_day(t);
        if q.start_minute == q.end_minute {
            false
        } else if q.start_minute < q.end_minute {
            q.start_minute <= m < q.end_minute
        } else {
            m >= q.start_minute || m < q.end_minute
        }
    })
}

pub fn is_quiet_hour(q: &QuietHours, t: &DateTime) -> (r: bool)
    ensures
        r == in_quiet_hours(*q, *t),
{
    if !q.enabled {
        return false;
    }
    let m: u16 = (t.hour as u16) * 60 + (t.minute as u16);
    if q.start_minute == q.end_minute {
        false
    } else if q.start_minute < q.end_minute {
        q.start_minute <= m && m < q.end_minute
    } else {
        m >= q.start_minute || m < q.end_minute
    }
}

/// Where a quiet-hour fire time is deferred to: the quiet window's end time,
/// on the same day if that is still ahead, else on the next day.
pub open spec fn spec_defer_to_quiet_end(q: QuietHours, t: DateTime) -> DateTime {
    let h = (q.end_minute / 60) as u8;
    let mi = (q.end_minute % 60) as u8;
    if minute_of_day(t) < q.end_minute {
        DateTime { hour: h, minute: mi, ..t }
    } else {
        DateTime { hour: h, minute: mi, ..spec_next_day(t) }
    }
}

pub fn defer_to_quiet_end(q: &QuietHours, t: &DateTime) -> (r: DateTime)
    requires
        valid_date_time(*t),
        wf_quiet_hours(*q),
        t.year < u32::MAX,
    ensures
        r == spec_defer_to_quiet_end(*q, *t),
        valid_date_time(r),
        r.year <= t.year + 1,
        in_quiet_hours(*q, *t) ==> dt_lt(*t, r),
        !in_quiet_hours(*q, r),
{
    proof {
        crate::time::lemma_day_number_next_day(*t);
    }
    let h = (q.end_minute / 60) as u8;
    let mi = (q.end_minute % 60) as u8;
    let m: u16 = (t.hour as u16) * 60 + (t.minute as u16);
    if m < q.end_minute {
        DateTime { hour: h, minute: mi, ..*t }
    } else {
        DateTime { hour: h, minute: mi, ..next_day(t) }
    }
}

/// How often a quiet-hour deferral may be re-adjusted before the rule is
/// declared unschedulable.
pub const MAX_QUIET_ADJUSTMENTS: u64 = 8;

/// The fire time that scheduling settles on, starting from candidate `f`: a
/// candidate outside quiet hours stands; one inside is deferred to the quiet
/// end, which stands if it still matches the rule; otherwise the search
/// restarts after the deferred time, a bounded number of times.
pub open spec fn spec_resolve_fire(e: CronExpr, q: QuietHours, f: DateTime, fuel: nat) -> Option<
    DateTime,
>
    decreases fuel,
{
    if !in_quiet_hours(q, f) {
        Some(f)
    } else {
        let d = spec_defer_to_quiet_end(q, f);
        if cron_matches(e, d) {
            Some(d)
        } else if fuel == 0 {
            None
        } else {
            match spec_next_fire(e, d) {
                Some(f2) => spec_resolve_fire(e, q, f2, (fuel - 1) as nat),
                None => None,
            }
        }
    }
}

/// The fire time `schedule` persists for a rule evaluated at `now`, if the
/// rule and the quiet hours admit one.
pub open spec fn spec_schedule_time(e: CronExpr, q: QuietHours, now: DateTime) -> Option<DateTime> {
    match spec_next_fire(e, now) {
        Some(f) => spec_resolve_fire(e, q, f, MAX_QUIET_ADJUSTMENTS as nat),
        None => None,
    }
}

/// Compute the fire time for one rule: the next cron occurrence after
/// `now`, pushed out of quiet hours as `spec_resolve_fire` prescribes.
pub fn resolve_fire_time(e: &CronExpr, q: &QuietHours, now: &DateTime) -> (r: Option<DateTime>)
    requires
        valid_date_time(*now),
        wf_quiet_hours(*q),
        now.year <= 400_000,
    ensures
        r == spec_schedule_time(*e, *q, *now),
        match r {
            Some(t) => valid_date_time(t) && dt_lt(*now, t) && cron_matches(*e, t)
                && !in_quiet_hours(*q, t),
            None => true,
        },
{
    let first = compute_next_fire(e, now);
    let mut f = match first {
        None => {
            return None;
        },
        Some(f0) => f0,
    };
    let mut fuel: u64 = MAX_QUIET_ADJUSTMENTS;
    loop
        invariant
            valid_date_time(f),
            wf_quiet_hours(*q),
            valid_date_time(*now),
            now.year <= 400_000,
            dt_lt(*now, f),
            cron_matches(*e, f),
            fuel <= MAX_QUIET_ADJUSTMENTS,
            f.year <= now.year + 10 + 11 * (MAX_QUIET_ADJUSTMENTS - fuel),
            spec_schedule_time(*e, *q, *now) == spec_resolve_fire(*e, *q, f, fuel as nat),
        decreases fuel,
    {
        if !is_quiet_hour(q, &f) {
            return Some(f);
        }
        let d = defer_to_quiet_end(q, &f);
        if cron_matches_at(e, &d) {
            return Some(d);
        }
        if fuel == 0 {
            return None;
        }
        match compute_next_fire(e, &d) {
            None => {
                return None;
            },
            Some(f2) => {
                f = f2;
                fuel = fuel - 1;
            },
        }
    }
}

/// The notification categories a rule can belong to.
#[derive(Clone, Copy, PartialEq, Eq, Structural, Debug)]
pub enum NotificationKind {
    MonthlyCheckin,
    ProgressUpdate,
    WhyReminder,
}

/// A concrete planned notification instance, kept as history after
/// delivery.
#[derive(Clone, Debug)]
pub struct ScheduledNotification {
    pub id: u64,
    pub kind: NotificationKind,
    /// The savings goal this notification is about, if any.
    pub goal_id: Option<u64>,
    pub title: String,
    pub body: String,
    pub scheduled_at: DateTime,
    /// The cron expression the fire time was computed from.
    pub cron: CronExpr,
    /// Set once the delivery collaborator reports success.
    pub sent_at: Option<DateTime>,
}

/// `n` is an undelivered notification occupying the duplicate-suppression
/// slot (kind, goal, fire time).
pub open spec fn is_unsent_slot(
    n: ScheduledNotification,
    kind: NotificationKind,
    goal_id: Option<u64>,
    at: DateTime,
) -> bool {
    n.kind == kind && n.goal_id == goal_id && n.scheduled_at == at && n.sent_at is None
}

pub open spec fn has_unsent_slot(
    s: Seq<ScheduledNotification>,
    kind: NotificationKind,
    goal_id: Option<u64>,
    at: DateTime,
) -> bool {
    exists|i: int| 0 <= i < s.len() && #[trigger] is_unsent_slot(s[i], kind, goal_id, at)
}

/// At most one undelivered notification per slot, and ids pairwise
/// distinct.
pub open spec fn wf_sn_entries(s: Seq<ScheduledNotification>) -> bool {
    &&& forall|i: int, j: int|
        0 <= i < j < s.len() && s[j].sent_at is None ==> !(#[trigger] is_unsent_slot(
            s[i],
            s[j].kind,
            s[j].goal_id,
            s[j].scheduled_at,
        ))
    &&& forall|i: int, j: int| 0 <= i < j < s.len() ==> (#[trigger] s[i]).id != (#[trigger] s[j]).id
}

/// The persisted scheduled notifications, with the next fresh id.
pub struct NotificationStore {
    pub entries: Vec<ScheduledNotification>,
    pub next_id: u64,
}

pub open spec fn wf_notification_store(st: NotificationStore) -> bool {
    &&& wf_sn_entries(st.entries@)
    &&& forall|i: int| 0 <= i < st.entries@.len() ==> (#[trigger] st.entries@[i]).id < st.next_id
}

/// How many undelivered notifications occupy one slot.
pub open spec fn count_unsent_slot(
    s: Seq<ScheduledNotification>,
    kind: NotificationKind,
    goal_id: Option<u64>,
    at: DateTime,
) -> nat
    decreases s.len(),
{
    if s.len() == 0 {
        0
    } else {
        count_unsent_slot(s.drop_last(), kind, goal_id, at) + if is_unsent_slot(
            s.last(),
            kind,
            goal_id,
            at,
        ) {
            1nat
        } else {
            0nat
        }
    }
}

pub proof fn lemma_count_unsent_slot_push(
    s: Seq<ScheduledNotification>,
    n: ScheduledNotification,
    kind: NotificationKind,
    goal_id: Option<u64>,
    at: DateTime,
)
    ensures
        count_unsent_slot(s.push(n), kind, goal_id, at) == count_unsent_slot(s, kind, goal_id, at)
            + if is_unsent_slot(n, kind, goal_id, at) {
            1nat
        } else {
            0nat
        },
{
    assert(s.push(n).drop_last() =~= s);
    assert(s.push(n).last() == n);
}

/// No undelivered notification in the slot means a count of zero.
pub proof fn lemma_count_unsent_slot_zero(
    s: Seq<ScheduledNotification>,
    kind: NotificationKind,
    goal_id: Option<u64>,
    at: DateTime,
)
    requires
        !has_unsent_slot(s, kind, goal_id, at),
    ensures
        count_unsent_slot(s, kind, goal_id, at) == 0,
    decreases s.len(),
{
    if s.len() > 0 {
        assert(!is_unsent_slot(s.last(), kind, goal_id, at));
        assert forall|i: int|
            0 <= i < s.drop_last().len() implies !(#[trigger] is_unsent_slot(
            s.drop_last()[i],
            kind,
            goal_id,
            at,
        )) by {
            assert(s.drop_last()[i] == s[i]);
            assert(!is_unsent_slot(s[i], kind, goal_id, at));
        }
        lemma_count_unsent_slot_zero(s.drop_last(), kind, goal_id, at);
    }
}

/// The scheduler's outcome when a fire time was found.
#[derive(Clone, Copy, PartialEq, Eq, Structural, Debug)]
pub enum ScheduleOutcome {
    /// A new notification was persisted.
    Created,
    /// An undelivered notification for the same slot already existed, so
    /// nothing was added.
    AlreadyScheduled,
}

/// The rule and quiet-hours configuration admit no fire time within the
/// bounded search and adjustment limits.
#[derive(Clone, Copy, PartialEq, Eq, Structural, Debug)]
pub enum ScheduleError {
    UnschedulableRule,
}

/// The entries after one `schedule` call: unchanged if no fire time exists
/// or the slot is already occupied by an undelivered notification, else
/// extended by the new instance.
pub open spec fn spec_schedule_entries(
    s: Seq<ScheduledNotification>,
    next_id: u64,
    e: CronExpr,
    q: QuietHours,
    kind: NotificationKind,
    goal_id: Option<u64>,
    title: String,
    body: String,
    now: DateTime,
) -> Seq<ScheduledNotification> {
    match spec_schedule_time(e, q, now) {
        None => s,
        Some(t) => {
            if has_unsent_slot(s, kind, goal_id, t) {
                s
            } else {
                s.push(
                    ScheduledNotification {
                        id: next_id,
                        kind,
                        goal_id,
                        title,
                        body,
                        scheduled_at: t,
                        cron: e,
                        sent_at: None,
                    },
                )
            }
        },
    }
}

impl NotificationStore {
    pub fn new() -> (r: NotificationStore)
        ensures
            wf_notification_store(r),
            r.entries@.len() == 0,
    {
        NotificationStore { entries: Vec::new(), next_id: 0 }
    }

    /// The index of the undelivered notification in the given slot, if any.
    pub fn find_unsent_slot(
        &self,
        kind: NotificationKind,
        goal_id: Option<u64>,
        at: &DateTime,
    ) -> (r: Option<usize>)
        ensures
            match r {
                Some(i) => i < self.entries@.len() && is_unsent_slot(
                    self.entries@[i as int],
                    kind,
                    goal_id,
                    *at,
                ),
                None => !has_unsent_slot(self.entries@, kind, goal_id, *at),
            },
    {
        let n = self.entries.len();
        let mut i: usize = 0;
        while i < n
            invariant
                i <= n,
                n == self.entries@.len(),
                forall|k: int|
                    0 <= k < i ==> !(#[trigger] is_unsent_slot(
                        self.entries@[k],
                        kind,
                        goal_id,
                        *at,
                    )),
            decreases n - i,
        {
            let entry = &self.entries[i];
            let goal_same = match (entry.goal_id, goal_id) {
                (Option::None, Option::None) => true,
                (Option::Some(a), Option::Some(b)) => a == b,
                _ => false,
            };
            if entry.kind == kind && goal_same && entry.scheduled_at == *at
                && entry.sent_at.is_none() {
                return Some(i);
            }
            i = i + 1;
        }
        None
    }
}

/// Compute the fire time for a rule and persist at most one undelivered
/// notification per slot: calling this again for the same rule and `now`
/// finds the slot occupied and adds nothing.
pub fn schedule(
    store: &mut NotificationStore,
    e: &CronExpr,
    q: &QuietHours,
    kind: NotificationKind,
    goal_id: Option<u64>,
    title: String,
    body: String,
    now: &DateTime,
) -> (r: Result<ScheduleOutcome, ScheduleError>)
    requires
        wf_notification_store(*old(store)),
        valid_date_time(*now),
        wf_quiet_hours(*q),
        now.year <= 400_000,
        old(store).next_id < u64::MAX,
    ensures
        wf_notification_store(*final(store)),
        final(store).entries@ == spec_schedule_entries(
            old(store).entries@,
            old(store).next_id,
            *e,
            *q,
            kind,
            goal_id,
            title,
            body,
            *now,
        ),
        match spec_schedule_time(*e, *q, *now) {
            None => r == Result::<ScheduleOutcome, ScheduleError>::Err(
                ScheduleError::UnschedulableRule,
            ) && final(store).next_id == old(store).next_id,
            Some(t) => {
                if has_unsent_slot(old(store).entries@, kind, goal_id, t) {
                    r == Result::<ScheduleOutcome, ScheduleError>::Ok(
                        ScheduleOutcome::AlreadyScheduled,
                    ) && final(store).next_id == old(store).next_id
                } else {
                    r == Result::<ScheduleOutcome, ScheduleError>::Ok(ScheduleOutcome::Created)
                        && final(store).next_id == old(store).next_id + 1
                }
            },
        },
{
    let t = match resolve_fire_time(e, q, now) {
        None => {
            return Err(ScheduleError::UnschedulableRule);
        },
        Some(t) => t,
    };
    match store.find_unsent_slot(kind, goal_id, &t) {
        Some(_) => Ok(ScheduleOutcome::AlreadyScheduled),
        None => {
            let id = store.next_id;
            store.entries.push(
                ScheduledNotification {
                    id,
                    kind,
                    goal_id,
                    title,
                    body,
                    scheduled_at: t,
                    cron: *e,
                    sent_at: None,
                },
            );
            store.next_id = id + 1;
            proof {
                let s2 = final(store).entries@;
                let n = s2.len() - 1;
                assert forall|i: int, j: int|
                    0 <= i < j < s2.len() && s2[j].sent_at is None implies !(
                #[trigger] is_unsent_slot(s2[i], s2[j].kind, s2[j].goal_id, s2[j].scheduled_at)) by {
                    if j < n {
                        if is_unsent_slot(s2[i], s2[j].kind, s2[j].goal_id, s2[j].scheduled_at) {
                            assert(is_unsent_slot(old(store).entries@[i], old(store).entries@[j].kind,
                                old(store).entries@[j].goal_id,
                                old(store).entries@[j].scheduled_at));
                        }
                    } else {
                        if is_unsent_slot(s2[i], s2[j].kind, s2[j].goal_id, s2[j].scheduled_at) {
                            assert(is_unsent_slot(old(store).entries@[i], kind, goal_id, t));
                        }
                    }
                }
            }
            Ok(ScheduleOutcome::Created)
        },
    }
}

/// Scheduling is idempotent: a second `schedule` call for the same rule,
/// quiet hours, slot and `now` leaves the store unchanged, and an empty slot
/// ends with exactly one undelivered notification, never two.
pub proof fn lemma_schedule_idempotent(
    s: Seq<ScheduledNotification>,
    next_id: u64,
    next_id2: u64,
    e: CronExpr,
    q: QuietHours,
    kind: NotificationKind,
    goal_id: Option<u64>,
    title: String,
    body: String,
    title2: String,
    body2: String,
    now: DateTime,
)
    ensures
        ({
            let s1 = spec_schedule_entries(s, next_id, e, q, kind, goal_id, title, body, now);
            spec_schedule_entries(s1, next_id2, e, q, kind, goal_id, title2, body2, now) == s1
        }),
        ({
            let s1 = spec_schedule_entries(s, next_id, e, q, kind, goal_id, title, body, now);
            match spec_schedule_time(e, q, now) {
                Some(t) => !has_unsent_slot(s, kind, goal_id, t) ==> count_unsent_slot(
                    s1,
                    kind,
                    goal_id,
                    t,
                ) == 1,
                None => true,
            }
        }),
{
    let s1 = spec_schedule_entries(s, next_id, e, q, kind, goal_id, title, body, now);
    match spec_schedule_time(e, q, now) {
        None => {},
        Some(t) => {
            if has_unsent_slot(s, kind, goal_id, t) {
                assert(s1 == s);
            } else {
                let n = ScheduledNotification {
                    id: next_id,
                    kind,
                    goal_id,
                    title,
                    body,
                    scheduled_at: t,
                    cron: e,
                    sent_at: None,
                };
                assert(s1 == s.push(n));
                assert(is_unsent_slot(s1[s.len() as int], kind, goal_id, t));
                assert(has_unsent_slot(s1, kind, goal_id, t));
                lemma_count_unsent_slot_zero(s, kind, goal_id, t);
                lemma_count_unsent_slot_push(s, n, kind, goal_id, t);
            }
        },
    }
}

/// An undelivered notification is due once its fire time has arrived.
pub open spec fn is_due(n: ScheduledNotification, now: DateTime) -> bool {
    n.sent_at is None && dt_le(n.scheduled_at, now)
}

impl NotificationStore {
    /// The indices of all due notifications, in ascending fire-time order.
    pub fn due_notifications(&self, now: &DateTime) -> (r: Vec<usize>)
        ensures
            forall|k: int|
                0 <= k < r@.len() ==> r@[k] < self.entries@.len() && is_due(
                    #[trigger] self.entries@[r@[k] as int],
                    *now,
                ),
            forall|i: int|
                0 <= i < self.entries@.len() && is_due(#[trigger] self.entries@[i], *now)
                    ==> exists|k: int| 0 <= k < r@.len() && r@[k] == i,
            forall|k1: int, k2: int|
                0 <= k1 < k2 < r@.len() ==> #[trigger] r@[k1] != #[trigger] r@[k2],
            forall|k1: int, k2: int|
                0 <= k1 < k2 < r@.len() ==> dt_le(
                    self.entries@[#[trigger] r@[k1] as int].scheduled_at,
                    self.entries@[#[trigger] r@[k2] as int].scheduled_at,
                ),
    {
        let n = self.entries.len();
        let mut out: Vec<usize> = Vec::new();
        let mut i: usize = 0;
        while i < n
            invariant
                i <= n,
                n == self.entries@.len(),
                forall|k: int|
                    0 <= k < out@.len() ==> out@[k] < i && is_due(
                        #[trigger] self.entries@[out@[k] as int],
                        *now,
                    ),
                forall|j: int|
                    0 <= j < i && is_due(#[trigger] self.entries@[j], *now) ==> exists|k: int|
                        0 <= k < out@.len() && out@[k] == j,
                forall|k1: int, k2: int|
                    0 <= k1 < k2 < out@.len() ==> #[trigger] out@[k1] != #[trigger] out@[k2],
                forall|k1: int, k2: int|
                    0 <= k1 < k2 < out@.len() ==> dt_le(
                        self.entries@[#[trigger] out@[k1] as int].scheduled_at,
                        self.entries@[#[trigger] out@[k2] as int].scheduled_at,
                    ),
            decreases n - i,
        {
            let entry = &self.entries[i];
            let due = entry.sent_at.is_none() && crate::time::dt_not_after(&entry.scheduled_at, now);
            if due {
                // find the insertion point that keeps the fire times ascending
                let m = out.len();
                let mut pos: usize = 0;
                while pos < m
                    invariant
                        pos <= m,
                        m == out@.len(),
                        n == self.entries@.len(),
                        i < n,
                        forall|k: int|
                            0 <= k < out@.len() ==> out@[k] < n,
                        forall|k: int|
                            0 <= k < pos ==> dt_le(
                                self.entries@[#[trigger] out@[k] as int].scheduled_at,
                                self.entries@[i as int].scheduled_at,
                            ),
                    ensures
                        pos <= m,
                        forall|k: int|
                            0 <= k < pos ==> dt_le(
                                self.entries@[#[trigger] out@[k] as int].scheduled_at,
                                self.entries@[i as int].scheduled_at,
                            ),
                        pos < m ==> dt_lt(
                            self.entries@[i as int].scheduled_at,
                            self.entries@[out@[pos as int] as int].scheduled_at,
                        ),
                    decreases m - pos,
                {
                    let cand = out[pos];
                    if crate::time::dt_before(
                        &self.entries[i].scheduled_at,
                        &self.entries[cand].scheduled_at,
                    ) {
                        break ;
                    }
                    pos = pos + 1;
                }
                proof {
                    out@.insert_ensures(pos as int, i);
                }
                let ghost old_out = out@;
                out.insert(pos, i);
                proof {
                    assert forall|j: int|
                        0 <= j < i + 1 && is_due(#[trigger] self.entries@[j], *now) implies exists|
                        k: int,
                    |
                        0 <= k < out@.len() && out@[k] == j by {
                        if j == i {
                            assert(out@[pos as int] == i as usize);
                        } else {
                            let k0 = choose|k: int| 0 <= k < old_out.len() && old_out[k] == j;
                            if k0 < pos {
                                assert(out@[k0] == old_out[k0]);
                            } else {
                                assert(out@[k0 + 1] == old_out[k0]);
                            }
                        }
                    }
                    assert forall|k1: int, k2: int|
                        0 <= k1 < k2 < out@.len() implies #[trigger] out@[k1]
                        != #[trigger] out@[k2] by {
                        if k1 == pos {
                            assert(out@[k2] == old_out[k2 - 1]);
                            assert(old_out[k2 - 1] < i as usize);
                        } else if k2 == pos {
                            assert(out@[k1] == old_out[k1]);
                            assert(old_out[k1] < i as usize);
                        } else {
                            let a1 = if k1 < pos { k1 } else { k1 - 1 };
                            let a2 = if k2 < pos { k2 } else { k2 - 1 };
                            assert(out@[k1] == old_out[a1]);
                            assert(out@[k2] == old_out[a2]);
                        }
                    }
                    assert forall|k1: int, k2: int|
                        0 <= k1 < k2 < out@.len() implies dt_le(
                        self.entries@[#[trigger] out@[k1] as int].scheduled_at,
                        self.entries@[#[trigger] out@[k2] as int].scheduled_at,
                    ) by {
                        if k1 == pos {
                            assert(out@[k2] == old_out[k2 - 1]);
                            assert(dt_lt(self.entries@[i as int].scheduled_at,
                                self.entries@[old_out[pos as int] as int].scheduled_at));
                            if k2 - 1 > pos {
                                assert(dt_le(
                                    self.entries@[old_out[pos as int] as int].scheduled_at,
                                    self.entries@[old_out[k2 - 1] as int].scheduled_at,
                                ));
                            }
                        } else if k2 == pos {
                            assert(out@[k1] == old_out[k1]);
                        } else {
                            let a1 = if k1 < pos { k1 } else { k1 - 1 };
                            let a2 = if k2 < pos { k2 } else { k2 - 1 };
                            assert(out@[k1] == old_out[a1]);
                            assert(out@[k2] == old_out[a2]);
                            if k1 < pos && k2 > pos {
                                assert(dt_le(
                                    self.entries@[old_out[a1] as int].scheduled_at,
                                    self.entries@[old_out[a2] as int].scheduled_at,
                                ));
                            }
                        }
                    }
                }
            }
            i = i + 1;
        }
        out
    }

    /// Mark one notification delivered, by id. Answers whether an
    /// undelivered notification with that id existed.
    pub fn mark_sent(&mut self, id: u64, at: &DateTime) -> (r: bool)
        requires
            wf_notification_store(*old(self)),
        ensures
            wf_notification_store(*final(self)),
            final(self).next_id == old(self).next_id,
            ({
                if exists|i: int|
                    0 <= i < old(self).entries@.len() && (#[trigger] old(self).entries@[i]).id == id
                        && old(self).entries@[i].sent_at is None {
                    let i = choose|i: int|
                        0 <= i < old(self).entries@.len() && (#[trigger] old(
                            self,
                        ).entries@[i]).id == id && old(self).entries@[i].sent_at is None;
                    r && final(self).entries@ == old(self).entries@.update(
                        i,
                        ScheduledNotification { sent_at: Some(*at), ..old(self).entries@[i] },
                    )
                } else {
                    !r && final(self).entries@ == old(self).entries@
                }
            }),
    {
        let n = self.entries.len();
        let mut i: usize = 0;
        while i < n
            invariant
                i <= n,
                n == self.entries@.len(),
                *self == *old(self),
                wf_notification_store(*old(self)),
                forall|k: int|
                    0 <= k < i ==> !((#[trigger] self.entries@[k]).id == id
                        && self.entries@[k].sent_at is None),
            decreases n - i,
        {
            let hit = self.entries[i].id == id && self.entries[i].sent_at.is_none();
            if hit {
                proof {
                    let c = choose|c: int|
                        0 <= c < old(self).entries@.len() && (#[trigger] old(
                            self,
                        ).entries@[c]).id == id && old(self).entries@[c].sent_at is None;
                    if c < i as int {
                        assert(old(self).entries@[c].id == old(self).entries@[i as int].id);
                    } else if c > i as int {
                        assert(old(self).entries@[i as int].id == old(self).entries@[c].id);
                    }
                }
                let mut entry = self.entries.remove(i);
                entry.sent_at = Some(*at);
                self.entries.insert(i, entry);
                proof {
                    let prev = old(self).entries@[i as int];
                    let upd = ScheduledNotification { sent_at: Some(*at), ..prev };
                    assert(self.entries@ =~= old(self).entries@.update(i as int, upd));
                    let s2 = self.entries@;
                    assert forall|a: int, b: int|
                        0 <= a < b < s2.len() && s2[b].sent_at is None implies !(
                    #[trigger] is_unsent_slot(s2[a], s2[b].kind, s2[b].goal_id, s2[b].scheduled_at))
                        by {
                        if is_unsent_slot(s2[a], s2[b].kind, s2[b].goal_id, s2[b].scheduled_at) {
                            assert(is_unsent_slot(old(self).entries@[a], old(self).entries@[b].kind,
                                old(self).entries@[b].goal_id,
                                old(self).entries@[b].scheduled_at));
                        }
                    }
                    assert forall|a: int, b: int|
                        0 <= a < b < s2.len() implies (#[trigger] s2[a]).id
                        != (#[trigger] s2[b]).id by {
                        assert(s2[a].id == old(self).entries@[a].id);
                        assert(s2[b].id == old(self).entries@[b].id);
                    }
                }
                return true;
            }
            i = i + 1;
        }
        false
    }
}

} // verus!
