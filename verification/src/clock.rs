//! The wall clock, behind trusted wrappers.
//!
//! Everything the store proves is stated over timestamps handed in as plain
//! values; these two functions are the only places the clock is read.

use chrono::Datelike;
use vstd::prelude::*;

verus! {

/// Relies on `chrono::Utc::now` and `DateTime::timestamp_millis`: the current
/// moment as epoch milliseconds. Nothing is promised of the value; callers
/// state what holds whatever the clock returns.
#[verifier::external_body]
pub fn now_millis() -> i64 {
    chrono::Utc::now().timestamp_millis()
}

/// Relies on `chrono::Local::now` and `NaiveDate`'s `year`, `month` and `day`
/// accessors: today's local calendar date as plain numbers. `chrono`
/// documents that the month ranges over 1..=12 and the day over 1..=31.
#[verifier::external_body]
pub fn today_ymd() -> (r: (i32, u32, u32))
    ensures
        1 <= r.1 <= 12,
        1 <= r.2 <= 31,
{
    let d = chrono::Local::now().date_naive();
    (d.year(), d.month(), d.day())
}

} // verus!
