use goaldy::cron::CronExpr;
use goaldy::parse::parse_cron;
use goaldy::schedule::{
    defer_to_quiet_end, is_quiet_hour, schedule, NotificationKind, NotificationStore, QuietHours,
    ScheduleError, ScheduleOutcome, ScheduledNotification,
};
use goaldy::time::DateTime;

fn dt(year: u32, month: u8, day: u8, hour: u8, minute: u8) -> DateTime {
    DateTime { year, month, day, hour, minute }
}

fn quiet(start_minute: u16, end_minute: u16) -> QuietHours {
    QuietHours { enabled: true, start_minute, end_minute }
}

fn no_quiet() -> QuietHours {
    QuietHours { enabled: false, start_minute: 0, end_minute: 0 }
}

fn rule(s: &[u8]) -> CronExpr {
    parse_cron(s).unwrap()
}

#[test]
fn wrapping_quiet_hours_cover_both_sides_of_midnight() {
    let q = quiet(22 * 60, 8 * 60);
    assert!(is_quiet_hour(&q, &dt(2024, 3, 1, 23, 30)));
    assert!(is_quiet_hour(&q, &dt(2024, 3, 2, 7, 59)));
    assert!(is_quiet_hour(&q, &dt(2024, 3, 1, 22, 0)));
    assert!(!is_quiet_hour(&q, &dt(2024, 3, 2, 8, 0)));
    assert!(!is_quiet_hour(&q, &dt(2024, 3, 1, 21, 59)));
    assert!(!is_quiet_hour(&q, &dt(2024, 3, 1, 12, 0)));
}

#[test]
fn disabled_quiet_hours_cover_nothing() {
    let q = no_quiet();
    assert!(!is_quiet_hour(&q, &dt(2024, 3, 1, 23, 30)));
}

#[test]
fn quiet_fire_defers_to_end_next_day() {
    // quiet hours 22:00 to 08:00: a 23:30 fire waits for 08:00 the next day
    let q = quiet(22 * 60, 8 * 60);
    let deferred = defer_to_quiet_end(&q, &dt(2024, 3, 1, 23, 30));
    assert_eq!(deferred, dt(2024, 3, 2, 8, 0));
}

#[test]
fn quiet_fire_defers_to_end_same_day() {
    // the wrapped window's early side defers within the same day
    let q = quiet(22 * 60, 8 * 60);
    let deferred = defer_to_quiet_end(&q, &dt(2024, 3, 2, 6, 15));
    assert_eq!(deferred, dt(2024, 3, 2, 8, 0));
    // and so does a window that does not wrap
    let q2 = quiet(12 * 60, 14 * 60);
    let deferred2 = defer_to_quiet_end(&q2, &dt(2024, 3, 2, 13, 0));
    assert_eq!(deferred2, dt(2024, 3, 2, 14, 0));
}

#[test]
fn schedule_is_idempotent() {
    let mut store = NotificationStore::new();
    let e = rule(b"0 9 2 * *");
    let q = no_quiet();
    let now = dt(2024, 3, 1, 0, 0);
    let first = schedule(
        &mut store,
        &e,
        &q,
        NotificationKind::MonthlyCheckin,
        None,
        String::from("Monthly check-in"),
        String::from("Time to log your contributions"),
        &now,
    );
    assert_eq!(first, Ok(ScheduleOutcome::Created));
    assert_eq!(store.entries.len(), 1);
    assert_eq!(store.entries[0].scheduled_at, dt(2024, 3, 2, 9, 0));
    assert!(store.entries[0].sent_at.is_none());
    let second = schedule(
        &mut store,
        &e,
        &q,
        NotificationKind::MonthlyCheckin,
        None,
        String::from("Monthly check-in"),
        String::from("Time to log your contributions"),
        &now,
    );
    assert_eq!(second, Ok(ScheduleOutcome::AlreadyScheduled));
    assert_eq!(store.entries.len(), 1);
}

#[test]
fn schedule_defers_out_of_quiet_hours() {
    // an any-minute rule computed at 23:29 would fire at 23:30; quiet hours
    // push it to 08:00 the next day
    let mut store = NotificationStore::new();
    let e = rule(b"* * * * *");
    let q = quiet(22 * 60, 8 * 60);
    let now = dt(2024, 3, 1, 23, 29);
    let r = schedule(
        &mut store,
        &e,
        &q,
        NotificationKind::ProgressUpdate,
        Some(7),
        String::from("Progress"),
        String::from("You are getting there"),
        &now,
    );
    assert_eq!(r, Ok(ScheduleOutcome::Created));
    assert_eq!(store.entries[0].scheduled_at, dt(2024, 3, 2, 8, 0));
}

#[test]
fn rule_always_inside_quiet_hours_is_unschedulable() {
    // a daily 23:30 rule can never escape 22:00-08:00 quiet hours
    let mut store = NotificationStore::new();
    let e = rule(b"30 23 * * *");
    let q = quiet(22 * 60, 8 * 60);
    let now = dt(2024, 3, 1, 12, 0);
    let r = schedule(
        &mut store,
        &e,
        &q,
        NotificationKind::WhyReminder,
        None,
        String::from("Why"),
        String::from("Remember your why"),
        &now,
    );
    assert_eq!(r, Err(ScheduleError::UnschedulableRule));
    assert_eq!(store.entries.len(), 0);
}

#[test]
fn different_slots_schedule_independently() {
    let mut store = NotificationStore::new();
    let e = rule(b"0 9 2 * *");
    let q = no_quiet();
    let now = dt(2024, 3, 1, 0, 0);
    let a = schedule(
        &mut store,
        &e,
        &q,
        NotificationKind::MonthlyCheckin,
        None,
        String::from("a"),
        String::from("a"),
        &now,
    );
    let b = schedule(
        &mut store,
        &e,
        &q,
        NotificationKind::ProgressUpdate,
        None,
        String::from("b"),
        String::from("b"),
        &now,
    );
    let c = schedule(
        &mut store,
        &e,
        &q,
        NotificationKind::ProgressUpdate,
        Some(3),
        String::from("c"),
        String::from("c"),
        &now,
    );
    assert_eq!(a, Ok(ScheduleOutcome::Created));
    assert_eq!(b, Ok(ScheduleOutcome::Created));
    assert_eq!(c, Ok(ScheduleOutcome::Created));
    assert_eq!(store.entries.len(), 3);
    assert_ne!(store.entries[0].id, store.entries[1].id);
    assert_ne!(store.entries[1].id, store.entries[2].id);
}

fn plain_notification(id: u64, scheduled_at: DateTime, sent_at: Option<DateTime>) -> ScheduledNotification {
    ScheduledNotification {
        id,
        kind: NotificationKind::MonthlyCheckin,
        goal_id: None,
        title: String::from("t"),
        body: String::from("b"),
        scheduled_at,
        cron: parse_cron(b"* * * * *").unwrap(),
        sent_at,
    }
}

#[test]
fn due_notifications_come_sorted_and_unsent() {
    let mut store = NotificationStore::new();
    store.entries.push(plain_notification(0, dt(2024, 3, 5, 9, 0), None));
    store.entries.push(plain_notification(1, dt(2024, 3, 1, 9, 0), None));
    store.entries.push(plain_notification(2, dt(2024, 3, 3, 9, 0), Some(dt(2024, 3, 3, 9, 1))));
    store.entries.push(plain_notification(3, dt(2024, 3, 2, 9, 0), None));
    store.entries.push(plain_notification(4, dt(2024, 4, 1, 9, 0), None));
    store.next_id = 5;
    let due = store.due_notifications(&dt(2024, 3, 10, 0, 0));
    // the sent one and the future one stay out; the rest come time-ordered
    assert_eq!(due.len(), 3);
    assert_eq!(store.entries[due[0]].id, 1);
    assert_eq!(store.entries[due[1]].id, 3);
    assert_eq!(store.entries[due[2]].id, 0);
}

#[test]
fn mark_sent_removes_from_due() {
    let mut store = NotificationStore::new();
    store.entries.push(plain_notification(0, dt(2024, 3, 1, 9, 0), None));
    store.next_id = 1;
    assert!(store.mark_sent(0, &dt(2024, 3, 1, 9, 5)));
    assert_eq!(store.entries[0].sent_at, Some(dt(2024, 3, 1, 9, 5)));
    let due = store.due_notifications(&dt(2024, 3, 10, 0, 0));
    assert_eq!(due.len(), 0);
    // a second report for the same id finds nothing undelivered
    assert!(!store.mark_sent(0, &dt(2024, 3, 1, 9, 6)));
    assert!(!store.mark_sent(99, &dt(2024, 3, 1, 9, 6)));
}

#[test]
fn delivered_slot_can_be_scheduled_again() {
    // history is kept, but only undelivered entries suppress duplicates
    let mut store = NotificationStore::new();
    let e = rule(b"0 9 2 * *");
    let q = no_quiet();
    let now = dt(2024, 3, 1, 0, 0);
    let first = schedule(
        &mut store,
        &e,
        &q,
        NotificationKind::MonthlyCheckin,
        None,
        String::from("t"),
        String::from("b"),
        &now,
    );
    assert_eq!(first, Ok(ScheduleOutcome::Created));
    let id = store.entries[0].id;
    assert!(store.mark_sent(id, &dt(2024, 3, 2, 9, 1)));
    let again = schedule(
        &mut store,
        &e,
        &q,
        NotificationKind::MonthlyCheckin,
        None,
        String::from("t"),
        String::from("b"),
        &now,
    );
    assert_eq!(again, Ok(ScheduleOutcome::Created));
    assert_eq!(store.entries.len(), 2);
}
