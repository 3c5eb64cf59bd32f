use goaldy::cron::{compute_next_fire, cron_matches_at, CronExpr, CronField};
use goaldy::parse::{parse_cron, parse_hhmm, CronParseError};
use goaldy::time::{days_in_month, next_minute, weekday, DateTime};

fn dt(year: u32, month: u8, day: u8, hour: u8, minute: u8) -> DateTime {
    DateTime { year, month, day, hour, minute }
}

fn expr(
    minute: CronField,
    hour: CronField,
    day_of_month: CronField,
    month: CronField,
    day_of_week: CronField,
) -> CronExpr {
    CronExpr { minute, hour, day_of_month, month, day_of_week }
}

#[test]
fn monthly_rule_after_miss_fires_next_month() {
    // 9:00 on the 2nd of each month, evaluated just after this month's slot
    let e = parse_cron(b"0 9 2 * *").unwrap();
    let r = compute_next_fire(&e, &dt(2024, 3, 2, 10, 0));
    assert_eq!(r, Some(dt(2024, 4, 2, 9, 0)));
}

#[test]
fn monthly_rule_before_slot_fires_this_month() {
    let e = parse_cron(b"0 9 2 * *").unwrap();
    let r = compute_next_fire(&e, &dt(2024, 3, 1, 0, 0));
    assert_eq!(r, Some(dt(2024, 3, 2, 9, 0)));
}

#[test]
fn next_fire_is_strictly_after() {
    let e = parse_cron(b"0 9 2 * *").unwrap();
    let r = compute_next_fire(&e, &dt(2024, 3, 2, 9, 0));
    assert_eq!(r, Some(dt(2024, 4, 2, 9, 0)));
}

#[test]
fn weekly_rule_fires_on_weekday() {
    // 10:00 on Mondays; 2024-01-07 is a Sunday
    let e = parse_cron(b"0 10 * * 1").unwrap();
    let r = compute_next_fire(&e, &dt(2024, 1, 7, 10, 30));
    assert_eq!(r, Some(dt(2024, 1, 8, 10, 0)));
}

#[test]
fn day_fields_are_or_combined() {
    // the 17th, or a Monday; from a Monday afternoon the 17th (a Wednesday)
    // comes first
    let e = parse_cron(b"0 9 17 * 1").unwrap();
    let r = compute_next_fire(&e, &dt(2024, 1, 15, 10, 0));
    assert_eq!(r, Some(dt(2024, 1, 17, 9, 0)));
    // and from the 13th, the Monday on the 15th comes first
    let r2 = compute_next_fire(&e, &dt(2024, 1, 13, 10, 0));
    assert_eq!(r2, Some(dt(2024, 1, 15, 9, 0)));
}

#[test]
fn leap_day_rule_waits_for_leap_year() {
    let e = parse_cron(b"0 9 29 2 *").unwrap();
    let r = compute_next_fire(&e, &dt(2023, 3, 1, 0, 0));
    assert_eq!(r, Some(dt(2024, 2, 29, 9, 0)));
}

#[test]
fn impossible_rule_finds_no_fire() {
    // the 30th of February never exists
    let e = parse_cron(b"0 9 30 2 *").unwrap();
    let r = compute_next_fire(&e, &dt(2024, 1, 1, 0, 0));
    assert_eq!(r, None);
}

#[test]
fn wildcard_minute_fires_next_minute() {
    let e = parse_cron(b"* * * * *").unwrap();
    let r = compute_next_fire(&e, &dt(2024, 6, 15, 12, 30));
    assert_eq!(r, Some(dt(2024, 6, 15, 12, 31)));
}

#[test]
fn matching_checks_every_field() {
    let e = expr(
        CronField::Only(0),
        CronField::Only(9),
        CronField::Only(2),
        CronField::Any,
        CronField::Any,
    );
    assert!(cron_matches_at(&e, &dt(2024, 3, 2, 9, 0)));
    assert!(!cron_matches_at(&e, &dt(2024, 3, 2, 9, 1)));
    assert!(!cron_matches_at(&e, &dt(2024, 3, 3, 9, 0)));
}

#[test]
fn parse_accepts_the_default_rules() {
    assert_eq!(
        parse_cron(b"0 9 2 * *").unwrap(),
        expr(
            CronField::Only(0),
            CronField::Only(9),
            CronField::Only(2),
            CronField::Any,
            CronField::Any,
        )
    );
    assert_eq!(
        parse_cron(b"0 10 * * 1").unwrap(),
        expr(
            CronField::Only(0),
            CronField::Only(10),
            CronField::Any,
            CronField::Any,
            CronField::Only(1),
        )
    );
    assert_eq!(
        parse_cron(b"0 19 * * 1").unwrap(),
        expr(
            CronField::Only(0),
            CronField::Only(19),
            CronField::Any,
            CronField::Any,
            CronField::Only(1),
        )
    );
}

#[test]
fn parse_rejects_wrong_field_count() {
    assert_eq!(parse_cron(b"0 9 2 *"), Err(CronParseError::WrongFieldCount));
    assert_eq!(parse_cron(b"0 9 2 * * *"), Err(CronParseError::WrongFieldCount));
    // a double space makes an empty sixth token
    assert_eq!(parse_cron(b"0  9 2 * *"), Err(CronParseError::WrongFieldCount));
}

#[test]
fn parse_rejects_out_of_range_fields() {
    assert_eq!(parse_cron(b"61 9 2 * *"), Err(CronParseError::InvalidField));
    assert_eq!(parse_cron(b"0 24 2 * *"), Err(CronParseError::InvalidField));
    assert_eq!(parse_cron(b"0 9 0 * *"), Err(CronParseError::InvalidField));
    assert_eq!(parse_cron(b"0 9 2 13 *"), Err(CronParseError::InvalidField));
    assert_eq!(parse_cron(b"0 9 2 * 7"), Err(CronParseError::InvalidField));
    assert_eq!(parse_cron(b"x 9 2 * *"), Err(CronParseError::InvalidField));
}

#[test]
fn parse_hhmm_reads_wall_clock_times() {
    assert_eq!(parse_hhmm(b"22:00"), Some(22 * 60));
    assert_eq!(parse_hhmm(b"08:00"), Some(8 * 60));
    assert_eq!(parse_hhmm(b"23:59"), Some(23 * 60 + 59));
    assert_eq!(parse_hhmm(b"24:00"), None);
    assert_eq!(parse_hhmm(b"12:60"), None);
    assert_eq!(parse_hhmm(b"2:00"), None);
    assert_eq!(parse_hhmm(b"ab:cd"), None);
}

#[test]
fn weekday_matches_known_dates() {
    // 2024-01-01 was a Monday, 2024-03-02 a Saturday
    assert_eq!(weekday(&dt(2024, 1, 1, 0, 0)), 1);
    assert_eq!(weekday(&dt(2024, 3, 2, 0, 0)), 6);
    assert_eq!(weekday(&dt(2024, 1, 7, 0, 0)), 0);
}

#[test]
fn minute_stepping_rolls_over_calendar_boundaries() {
    assert_eq!(next_minute(&dt(2023, 12, 31, 23, 59)), dt(2024, 1, 1, 0, 0));
    assert_eq!(next_minute(&dt(2023, 2, 28, 23, 59)), dt(2023, 3, 1, 0, 0));
    assert_eq!(next_minute(&dt(2024, 2, 28, 23, 59)), dt(2024, 2, 29, 0, 0));
    assert_eq!(next_minute(&dt(2024, 6, 15, 12, 59)), dt(2024, 6, 15, 13, 0));
}

#[test]
fn month_lengths_follow_leap_years() {
    assert_eq!(days_in_month(2024, 2), 29);
    assert_eq!(days_in_month(2023, 2), 28);
    assert_eq!(days_in_month(2100, 2), 28);
    assert_eq!(days_in_month(2000, 2), 29);
    assert_eq!(days_in_month(2024, 4), 30);
    assert_eq!(days_in_month(2024, 12), 31);
}
