//! The calendar: date text, the clock and day arithmetic, computed by `chrono`.
//!
//! Everything here is a thin call into `chrono` whose contract is stated, not
//! proved.
use crate::date::RFC_1123;
use crate::expires::{can_name, days_added, days_taken};
use chrono::{DateTime, Days, NaiveDateTime, Utc};
use vstd::prelude::*;

verus! {

/// What `chrono` reads from `text` under the `strftime` pattern `format`: the
/// seconds and nanoseconds of the date and time, taken as UTC, or `None`
/// where the text does not match the pattern.
pub uninterp spec fn parsed_datetime(text: Seq<char>, format: Seq<char>) -> Option<(i64, u32)>;

/// What `chrono` writes for the instant of `secs` and `nanos` under the
/// `strftime` pattern `format`.
pub uninterp spec fn formatted_datetime(secs: i64, nanos: u32, format: Seq<char>) -> Seq<char>;

/// Calls `NaiveDateTime::parse_from_str` and reads the result as UTC.
///
/// The contract claims only that the outcome is determined by the text and
/// the pattern.
#[verifier::external_body]
pub(crate) fn parse_naive(text: &str, format: &str) -> (r: Option<(i64, u32)>)
    ensures
        r == parsed_datetime(text@, format@),
{
    match NaiveDateTime::parse_from_str(text, format) {
        Ok(naive) => {
            let utc = DateTime::<Utc>::from_naive_utc_and_offset(naive, Utc);
            Some((utc.timestamp(), utc.timestamp_subsec_nanos()))
        },
        Err(_) => None,
    }
}

/// Calls `DateTime::from_timestamp` and `DateTime::format`, and writes the
/// result to a string.
///
/// The contract claims that the outcome is determined by the instant and the
/// pattern, and that the call returns for an instant that `chrono` can
/// represent and the pattern [`RFC_1123`]. `DateTime::format` hands the
/// formatter a date and a time, and each item of that pattern (weekday
/// name, day, month name, year, hour, minute, second, the literals between
/// them) is written from a date or a time without a failing case.
#[verifier::external_body]
pub(crate) fn format_utc(secs: i64, nanos: u32, format: &str) -> (r: String)
    requires
        can_name(secs, nanos),
        format@ == RFC_1123@,
    ensures
        r@ == formatted_datetime(secs, nanos, format@),
{
    let instant = DateTime::from_timestamp(secs, nanos).unwrap();
    instant.format(format).to_string()
}

/// Calls `Utc::now`.
///
/// The contract claims that the clock's reading is representable and not
/// before 1970: `chrono` builds it with `DateTime::from_timestamp` from the
/// time since the Unix epoch, and panics where the system clock is set before
/// that.
#[verifier::external_body]
pub(crate) fn now() -> (r: (i64, u32))
    ensures
        can_name(r.0, r.1),
        r.0 >= 0,
{
    let now = Utc::now();
    (now.timestamp(), now.timestamp_subsec_nanos())
}

/// Calls `DateTime::from_timestamp` and `DateTime::checked_add_days`.
///
/// The contract claims that `chrono` moves the date by `days` and keeps the
/// time of day, that zero days give the instant back, and that it answers
/// `None` for an instant it cannot represent and for a result past
/// `DateTime::<Utc>::MAX_UTC`.
#[verifier::external_body]
pub(crate) fn add_days(secs: i64, nanos: u32, days: u64) -> (r: Option<(i64, u32)>)
    ensures
        r == days_added(secs, nanos, days),
{
    match DateTime::from_timestamp(secs, nanos)?.checked_add_days(Days::new(days)) {
        Some(later) => Some((later.timestamp(), later.timestamp_subsec_nanos())),
        None => None,
    }
}

/// Calls `DateTime::from_timestamp` and `DateTime::checked_sub_days`.
///
/// The contract claims that `chrono` moves the date back by `days` and keeps
/// the time of day, and that it answers `None` for an instant it cannot
/// represent and for a result before `DateTime::<Utc>::MIN_UTC`.
#[verifier::external_body]
pub(crate) fn sub_days(secs: i64, nanos: u32, days: u64) -> (r: Option<(i64, u32)>)
    ensures
        r == days_taken(secs, nanos, days),
{
    match DateTime::from_timestamp(secs, nanos)?.checked_sub_days(Days::new(days)) {
        Some(earlier) => Some((earlier.timestamp(), earlier.timestamp_subsec_nanos())),
        None => None,
    }
}

} // verus!
