//! Cron-style recurrence rules: a five-field expression (minute, hour,
//! day-of-month, month, day-of-week) in which every field is either a
//! wildcard or a single value, and the computation of the earliest matching
//! instant strictly after a given one. Day-of-month and day-of-week are
//! OR-combined when both are restricted, as in standard cron.

use vstd::prelude::*;

use crate::time::DateTime;
use crate::time::dt_lt;
use crate::time::lemma_day_number_next_minute;
use crate::time::lemma_next_minute_tight;
use crate::time::lemma_next_minute_valid;
use crate::time::next_minute;
use crate::time::spec_day_number;
use crate::time::spec_weekday;
use crate::time::valid_date_time;
use crate::time::weekday;

verus! {

/// One field of a cron expression: a wildcard, or a single required value.
#[derive(Clone, Copy, PartialEq, Eq, Structural, Debug)]
pub enum CronField {
    Any,
    Only(u8),
}

/// A five-field cron expression.
#[derive(Clone, Copy, PartialEq, Eq, Structural, Debug)]
pub struct CronExpr {
    pub minute: CronField,
    pub hour: CronField,
    pub day_of_month: CronField,
    pub month: CronField,
    pub day_of_week: CronField,
}

pub open spec fn field_in_range(f: CronField, lo: int, hi: int) -> bool {
    match f {
        CronField::Any => true,
        CronField::Only(v) => lo <= v <= hi,
    }
}

/// Every restricted field carries a value its position allows.
/// Day-of-week runs 0 (Sunday) through 6 (Saturday).
pub open spec fn wf_cron(e: CronExpr) -> bool {
    &&& field_in_range(e.minute, 0, 59)
    &&& field_in_range(e.hour, 0, 23)
    &&& field_in_range(e.day_of_month, 1, 31)
    &&& field_in_range(e.month, 1, 12)
    &&& field_in_range(e.day_of_week, 0, 6)
}

pub open spec fn field_matches(f: CronField, v: int) -> bool {
    match f {
        CronField::Any => true,
        CronField::Only(x) => x as int == v,
    }
}

/// Standard cron day selection: when both day-of-month and day-of-week are
/// restricted, a day on which either holds is selected (OR, not AND).
pub open spec fn day_fields_match(e: CronExpr, t: DateTime) -> bool {
    match (e.day_of_month, e.day_of_week) {
        (CronField::Any, CronField::Any) => true,
        (CronField::Only(d), CronField::Any) => d as int == t.day as int,
        (CronField::Any, CronField::Only(w)) => w as int == spec_weekday(t),
        (CronField::Only(d), CronField::Only(w)) => d as int == t.day as int || w as int
            == spec_weekday(t),
    }
}

/// The instant `t` satisfies every field of the expression.
pub open spec fn cron_matches(e: CronExpr, t: DateTime) -> bool {
    &&& field_matches(e.minute, t.minute as int)
    &&& field_matches(e.hour, t.hour as int)
    &&& field_matches(e.month, t.month as int)
    &&& day_fields_match(e, t)
}

fn field_matches_exec(f: &CronField, v: u8) -> (r: bool)
    ensures
        r == field_matches(*f, v as int),
{
    match f {
        CronField::Any => true,
        CronField::Only(x) => *x == v,
    }
}

/// Match test when the caller already knows the weekday of `t`.
fn matches_with_weekday(e: &CronExpr, t: &DateTime, wd: u8) -> (r: bool)
    requires
        wd as int == spec_weekday(*t),
    ensures
        r == cron_matches(*e, *t),
{
    let dom_ok = match (&e.day_of_month, &e.day_of_week) {
        (CronField::Any, CronField::Any) => true,
        (CronField::Only(d), CronField::Any) => *d == t.day,
        (CronField::Any, CronField::Only(w)) => *w == wd,
        (CronField::Only(d), CronField::Only(w)) => *d == t.day || *w == wd,
    };
    field_matches_exec(&e.minute, t.minute) && field_matches_exec(&e.hour, t.hour)
        && field_matches_exec(&e.month, t.month) && dom_ok
}

/// Match test on an arbitrary instant.
pub fn cron_matches_at(e: &CronExpr, t: &DateTime) -> (r: bool)
    requires
        valid_date_time(*t),
        t.year <= 1_000_000,
    ensures
        r == cron_matches(*e, *t),
{
    let wd = weekday(t);
    matches_with_weekday(e, t, wd)
}

/// How far past `after` the search for the next occurrence looks: any
/// satisfiable rule (including one for the 29th of February) recurs within
/// this many years.
pub open spec fn within_search_horizon(after: DateTime, t: DateTime) -> bool {
    t.year <= after.year + 10
}

/// `t` is the earliest valid instant strictly after `after`, within the
/// search horizon, that matches the expression.
pub open spec fn is_next_fire(e: CronExpr, after: DateTime, t: DateTime) -> bool {
    &&& valid_date_time(t)
    &&& cron_matches(e, t)
    &&& dt_lt(after, t)
    &&& within_search_horizon(after, t)
    &&& forall|u: DateTime|
        valid_date_time(u) && dt_lt(after, u) && dt_lt(u, t) ==> !#[trigger] cron_matches(e, u)
}

/// The earliest matching instant after `after`, if the expression matches
/// anywhere within the search horizon.
pub open spec fn spec_next_fire(e: CronExpr, after: DateTime) -> Option<DateTime> {
    if exists|t: DateTime| is_next_fire(e, after, t) {
        Some(choose|t: DateTime| is_next_fire(e, after, t))
    } else {
        None
    }
}

/// At most one instant is the next fire.
pub proof fn lemma_next_fire_unique(e: CronExpr, after: DateTime, t1: DateTime, t2: DateTime)
    requires
        is_next_fire(e, after, t1),
        is_next_fire(e, after, t2),
    ensures
        t1 == t2,
{
    if t1 != t2 {
        if dt_lt(t1, t2) {
            assert(!cron_matches(e, t1));
        } else {
            assert(dt_lt(t2, t1));
            assert(!cron_matches(e, t2));
        }
    }
}

proof fn lemma_mod7_succ(a: int)
    requires
        a >= 0,
    ensures
        (a + 1) % 7 == (a % 7 + 1) % 7,
{
    assert((a + 1) % 7 == (a % 7 + 1) % 7) by (nonlinear_arith)
        requires
            a >= 0,
    ;
}

/// The earliest valid instant strictly after `after` that matches `e`, or
/// `None` when no instant within the search horizon does.
pub fn compute_next_fire(e: &CronExpr, after: &DateTime) -> (r: Option<DateTime>)
    requires
        valid_date_time(*after),
        after.year <= 500_000,
    ensures
        r == spec_next_fire(*e, *after),
        match r {
            Some(t) => is_next_fire(*e, *after, t),
            None => forall|t: DateTime|
                valid_date_time(t) && dt_lt(*after, t) && within_search_horizon(*after, t)
                    ==> !#[trigger] cron_matches(*e, t),
        },
{
    let horizon: u32 = after.year + 10;
    proof {
        lemma_next_minute_valid(*after);
    }
    let mut cur = next_minute(after);
    let mut wd = weekday(&cur);
    while cur.year <= horizon
        invariant
            valid_date_time(cur),
            dt_lt(*after, cur),
            wd as int == spec_weekday(cur),
            wd < 7,
            after.year <= 500_000,
            horizon == after.year + 10,
            cur.year <= horizon + 1,
            valid_date_time(*after),
            forall|u: DateTime|
                valid_date_time(u) && dt_lt(*after, u) && dt_lt(u, cur) ==> !#[trigger] cron_matches(
                    *e,
                    u,
                ),
        decreases
                horizon + 1 - cur.year,
                12 - cur.month,
                32 - cur.day,
                24 - cur.hour,
                60 - cur.minute,
    {
        if matches_with_weekday(e, &cur, wd) {
            proof {
                assert(is_next_fire(*e, *after, cur));
                let w = choose|t: DateTime| is_next_fire(*e, *after, t);
                lemma_next_fire_unique(*e, *after, w, cur);
            }
            return Some(cur);
        }
        let nx = next_minute(&cur);
        proof {
            lemma_next_minute_valid(cur);
            assert forall|u: DateTime|
                valid_date_time(u) && dt_lt(*after, u) && dt_lt(u, nx) implies !#[trigger] cron_matches(
                *e,
                u,
            ) by {
                if u != cur && !dt_lt(u, cur) {
                    lemma_next_minute_tight(cur, u);
                }
            }
            lemma_day_number_next_minute(cur);
        }
        let new_wd: u8 = if nx.day == cur.day && nx.month == cur.month && nx.year == cur.year {
            wd
        } else {
            proof {
                crate::time::lemma_day_number_nonneg(cur);
                lemma_mod7_succ(spec_day_number(cur) + 1);
            }
            (wd + 1) % 7
        };
        cur = nx;
        wd = new_wd;
    }
    proof {
        assert forall|t: DateTime|
            valid_date_time(t) && dt_lt(*after, t) && within_search_horizon(*after, t)
                implies !#[trigger] cron_matches(*e, t) by {
            assert(dt_lt(t, cur));
        }
        if exists|t: DateTime| is_next_fire(*e, *after, t) {
            let w = choose|t: DateTime| is_next_fire(*e, *after, t);
            assert(!cron_matches(*e, w));
        }
    }
    None
}

} // verus!
