//! Calendar days as day numbers (0001-01-01 is day 1), moved by chrono.
use chrono::{Datelike, Days, Months, NaiveDate};

use vstd::prelude::*;

verus! {

/// Seconds in a UTC day.
pub const SECONDS_PER_DAY: i64 = 86_400;

/// Day number of 1970-01-01.
pub const UNIX_EPOCH_DAY: i64 = 719_163;

/// The UTC day containing the timestamp `t` (seconds since the UNIX epoch).
pub open spec fn utc_day(t: int) -> int {
    t / (SECONDS_PER_DAY as int) + UNIX_EPOCH_DAY
}

/// What chrono's `NaiveDate::checked_sub_months` gives for day `day`, as a day
/// number: `None` when `day` or the result is outside chrono's date range.
pub uninterp spec fn months_before(day: i32, months: u32) -> Option<i32>;

/// Day number of chrono's earliest date, `NaiveDate::MIN` (-262143-01-01).
pub const MIN_DAY: i32 = -95_746_129;

/// Day number of chrono's latest date, `NaiveDate::MAX` (262142-12-31).
pub const MAX_DAY: i32 = 95_745_399;

/// Whether `day` is the day number of a date chrono can hold.
pub open spec fn in_date_range(day: int) -> bool {
    MIN_DAY <= day <= MAX_DAY
}

/// What chrono's `NaiveDate::checked_sub_days` gives for day `day`, as a day
/// number: the day `days` earlier, when at most `i32::MAX` days are taken and
/// both days are within chrono's date range.
pub open spec fn days_before(day: i32, days: u64) -> Option<i32> {
    if in_date_range(day as int) && days <= i32::MAX as u64 && in_date_range(day - days) {
        Some((day - days) as i32)
    } else {
        None
    }
}

/// What chrono's `NaiveDate::checked_add_days` gives for day `day`, as a day
/// number: the day `days` later, when at most `i32::MAX` days are added and
/// both days are within chrono's date range.
pub open spec fn days_after(day: i32, days: u64) -> Option<i32> {
    if in_date_range(day as int) && days <= i32::MAX as u64 && in_date_range(day + days) {
        Some((day + days) as i32)
    } else {
        None
    }
}

/// Calls `chrono::NaiveDate::checked_sub_months` on the date with day number
/// `day`; trusted to return exactly [`months_before`] of its arguments.
#[verifier::external_body]
pub(crate) fn sub_months(day: i32, months: u32) -> (r: Option<i32>)
    ensures
        r == months_before(day, months),
{
    match NaiveDate::from_num_days_from_ce_opt(day) {
        Some(date) => match date.checked_sub_months(Months::new(months)) {
            Some(moved) => Some(moved.num_days_from_ce()),
            None => None,
        },
        None => None,
    }
}

/// Calls `chrono::NaiveDate::checked_sub_days` on the date with day number
/// `day`; trusted to move the date by exactly `days`, within chrono's range, as
/// [`days_before`] states.
#[verifier::external_body]
pub(crate) fn sub_days(day: i32, days: u64) -> (r: Option<i32>)
    ensures
        r == days_before(day, days),
{
    match NaiveDate::from_num_days_from_ce_opt(day) {
        Some(date) => match date.checked_sub_days(Days::new(days)) {
            Some(moved) => Some(moved.num_days_from_ce()),
            None => None,
        },
        None => None,
    }
}

/// Calls `chrono::NaiveDate::checked_add_days` on the date with day number
/// `day`; trusted to move the date by exactly `days`, within chrono's range, as
/// [`days_after`] states.
#[verifier::external_body]
pub(crate) fn add_days(day: i32, days: u64) -> (r: Option<i32>)
    ensures
        r == days_after(day, days),
{
    match NaiveDate::from_num_days_from_ce_opt(day) {
        Some(date) => match date.checked_add_days(Days::new(days)) {
            Some(moved) => Some(moved.num_days_from_ce()),
            None => None,
        },
        None => None,
    }
}

/// The UTC day number of timestamp `t`.
pub fn utc_day_of(t: i64) -> (d: i64)
    requires
        -8_210_298_412_799 <= t <= 8_210_298_412_799,
    ensures
        d == utc_day(t as int),
{
    let lifted = (t + 8_640_000_000_000) as u64;
    let q = (lifted / 86_400) as i64;
    proof {
        let ti = t as int;
        let f = 86_400int;
        let q0 = ti / f;
        let r0 = ti % f;
        vstd::arithmetic::div_mod::lemma_fundamental_div_mod(ti, f);
        vstd::arithmetic::div_mod::lemma_mod_bound(ti, f);
        assert(ti + 8_640_000_000_000 == (q0 + 100_000_000) * f + r0) by (nonlinear_arith)
            requires
                ti == f * q0 + r0,
                f == 86_400,
        ;
        vstd::arithmetic::div_mod::lemma_fundamental_div_mod_converse_div(
            ti + 8_640_000_000_000,
            f,
            q0 + 100_000_000,
            r0,
        );
    }
    q - 100_000_000 + UNIX_EPOCH_DAY
}

} // verus!
