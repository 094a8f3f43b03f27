use chrono::{DateTime, Days, Utc};
use set_cookie::date::{date_part, find_gmt, found, parse_date, parse_date_with_all_formats};
use set_cookie::expires::{MAX_SECONDS, MIN_SECONDS};
use set_cookie::{ParseError, Timestamp};
use std::str::FromStr;

fn ts(secs: i64, nanos: u32) -> Timestamp {
    Timestamp::new(secs, nanos).unwrap()
}

fn utc(at: Timestamp) -> DateTime<Utc> {
    DateTime::from_timestamp(at.secs(), at.nanos()).unwrap()
}

fn instant(text: &str) -> Timestamp {
    let at = DateTime::<Utc>::from_str(text).unwrap();
    ts(at.timestamp(), at.timestamp_subsec_nanos())
}

#[test]
fn lib_parse_valid() {
    let date1 = "Tue, 21 Oct 2025 07:28:00 GMT";
    let date2 = "Mon, 14 Jun 2027 12:00:00 GMT";
    let date3 = "Thu, 01 Jan 2026 23:59:59 GMT";

    let res1 = parse_date(date1).unwrap();
    let res2 = parse_date(date2).unwrap();
    let res3 = parse_date(date3).unwrap();

    assert_eq!(utc(res1), DateTime::<Utc>::from_str("2025-10-21T07:28:00Z").unwrap());
    assert_eq!(utc(res2), DateTime::<Utc>::from_str("2027-06-14T12:00:00Z").unwrap());
    assert_eq!(utc(res3), DateTime::<Utc>::from_str("2026-01-01T23:59:59Z").unwrap());
}

#[test]
fn lib_parse_invalid() {
    let invalid_day_of_week = "Wed, 21 Oct 2025 07:28:00 GMT";
    let invalid_format = "21 Oct 2025 07:28:00";
    let invalid_tz = "Thu, 01 Jan 2026 23:59:59 UTC";
    let invalid_time = "Thu, 01 Jan 2026 24:59:59 GMT";

    assert!(parse_date(invalid_day_of_week).is_err());
    assert!(parse_date(invalid_format).is_err());
    assert!(parse_date(invalid_tz).is_err());
    assert!(parse_date(invalid_time).is_err());
}

#[test]
fn parse_parse_valid() {
    let date1 = "Tue, 21 Oct 2025 07:28:00 GMT";
    let date2 = "Mon, 14 Jun 2027 12:00:00 GMT";
    let date3 = "Thu, 01 Jan 2026 23:59:59 GMT";

    let res1 = parse_date(date1).unwrap();
    let res2 = parse_date(date2).unwrap();
    let res3 = parse_date(date3).unwrap();

    assert_eq!(utc(res1), DateTime::<Utc>::from_str("2025-10-21T07:28:00Z").unwrap());
    assert_eq!(utc(res2), DateTime::<Utc>::from_str("2027-06-14T12:00:00Z").unwrap());
    assert_eq!(utc(res3), DateTime::<Utc>::from_str("2026-01-01T23:59:59Z").unwrap());
}

#[test]
fn parse_parse_invalid() {
    let invalid_day_of_week = "Wed, 21 Oct 2025 07:28:00 GMT";
    let invalid_format = "21 Oct 2025 07:28:00";
    let invalid_tz = "Thu, 01 Jan 2026 23:59:59 UTC";
    let invalid_time = "Thu, 01 Jan 2026 24:59:59 GMT";

    assert!(parse_date(invalid_day_of_week).is_err());
    assert!(parse_date(invalid_format).is_err());
    assert!(parse_date(invalid_tz).is_err());
    assert!(parse_date(invalid_time).is_err());
}

#[test]
fn invalid_dates_give_invalid_date() {
    assert_eq!(parse_date("Wed, 21 Oct 2025 07:28:00 GMT"), Err(ParseError::InvalidDate));
    assert_eq!(parse_date_with_all_formats("21 Oct 2025 07:28:00"), Err(ParseError::InvalidDate));
    assert_eq!(parse_date_with_all_formats(""), Err(ParseError::InvalidDate));
    assert_eq!(parse_date_with_all_formats("GMT"), Err(ParseError::InvalidDate));
}

#[test]
fn parsed_instant_has_exact_seconds() {
    let at = parse_date("Tue, 21 Oct 2025 07:28:00 GMT").unwrap();
    assert_eq!(at, ts(1_761_031_680, 0));
    assert_eq!(parse_date("Thu, 01 Jan 1970 00:00:00 GMT").unwrap(), ts(0, 0));
}

#[test]
fn rfc_850_dates_are_read() {
    let at = parse_date_with_all_formats("Tuesday, 21-Oct-25 07:28:00 GMT").unwrap();
    assert_eq!(at, instant("2025-10-21T07:28:00Z"));
    assert!(parse_date("Tuesday, 21-Oct-25 07:28:00 GMT").is_err());
}

#[test]
fn asctime_dates_are_read() {
    let at = parse_date_with_all_formats("Tue Oct 21 07:28:00 2025").unwrap();
    assert_eq!(at, instant("2025-10-21T07:28:00Z"));
    let single = parse_date_with_all_formats("Sat Nov 1 08:49:37 2025").unwrap();
    assert_eq!(single, instant("2025-11-01T08:49:37Z"));
    let padded = parse_date_with_all_formats("Sat Nov 01 08:49:37 2025").unwrap();
    assert_eq!(padded, instant("2025-11-01T08:49:37Z"));
    let spaced = parse_date_with_all_formats("Sat Nov  1 08:49:37 2025").unwrap();
    assert_eq!(spaced, instant("2025-11-01T08:49:37Z"));
    assert!(parse_date_with_all_formats("Tue, Oct 21 07:28:00 2025").is_err());
    assert!(parse_date("Tue Oct 21 07:28:00 2025").is_err());
}

#[test]
fn dashed_dates_are_read() {
    let at = parse_date_with_all_formats("Tue, 21-Oct-2025 07:28:00 GMT").unwrap();
    assert_eq!(at, instant("2025-10-21T07:28:00Z"));
    assert!(parse_date("Tue, 21-Oct-2025 07:28:00 GMT").is_err());
}

#[test]
fn date_without_gmt_is_read() {
    let at = parse_date_with_all_formats("  Tue, 21 Oct 2025 07:28:00  ").unwrap();
    assert_eq!(at, instant("2025-10-21T07:28:00Z"));
}

#[test]
fn text_after_gmt_is_dropped() {
    assert_eq!(date_part("Tue, 21 Oct 2025 07:28:00 GMT and more"), "Tue, 21 Oct 2025 07:28:00");
    assert_eq!(date_part("  \u{2003}a GMT b GMT"), "a");
    assert_eq!(date_part("GMT"), "");
    assert_eq!(date_part("no marker "), "no marker");
    assert_eq!(date_part(""), "");
    assert_eq!(date_part("GM"), "GM");
}

#[test]
fn find_gmt_finds_the_first() {
    assert_eq!(find_gmt(b"xxGMTyyGMT"), 2);
    assert_eq!(find_gmt(b"GMT"), 0);
    assert_eq!(find_gmt(b"GM"), 2);
    assert_eq!(find_gmt(b""), 0);
    assert_eq!(find_gmt(b"GGMMTT"), 6);
    assert_eq!(find_gmt(b"GGMT"), 1);
}

#[test]
fn found_maps_a_reading() {
    assert_eq!(found(Some((5, 7))), Ok(ts(5, 7)));
    assert_eq!(found(None), Err(ParseError::InvalidDate));
}

#[test]
fn leap_second_is_read() {
    let at = parse_date_with_all_formats("Fri, 30 Jun 2017 23:59:60 GMT").unwrap();
    assert_eq!(at.secs() % 60, 59);
    assert_eq!(at.nanos(), 1_000_000_000);
}

#[test]
fn range_is_that_of_the_calendar() {
    assert_eq!(MAX_SECONDS, DateTime::<Utc>::MAX_UTC.timestamp());
    assert_eq!(MIN_SECONDS, DateTime::<Utc>::MIN_UTC.timestamp());
    let last = Timestamp::max();
    assert_eq!(utc(last), DateTime::<Utc>::MAX_UTC);
    assert_eq!(Timestamp::new(last.secs(), last.nanos()), Some(last));
    assert_eq!(Timestamp::new(MAX_SECONDS, 1_000_000_000).map(utc), DateTime::from_timestamp(MAX_SECONDS, 1_000_000_000));
}

#[test]
fn instants_are_what_the_calendar_accepts() {
    let cases: [(i64, u32); 14] = [
        (0, 0),
        (0, 999_999_999),
        (0, 1_000_000_000),
        (59, 1_000_000_000),
        (59, 1_999_999_999),
        (59, 2_000_000_000),
        (-1, 1_500_000_000),
        (-2, 1_500_000_000),
        (MAX_SECONDS, 0),
        (MAX_SECONDS, 1_999_999_999),
        (MAX_SECONDS + 1, 0),
        (MIN_SECONDS, 0),
        (MIN_SECONDS - 1, 0),
        (MIN_SECONDS + 59, 1_000_000_000),
    ];
    for (secs, nanos) in cases {
        let made = Timestamp::new(secs, nanos);
        assert_eq!(made.map(utc), DateTime::from_timestamp(secs, nanos), "{secs} {nanos}");
        if let Some(at) = made {
            assert_eq!((at.secs(), at.nanos()), (secs, nanos));
        }
    }
    assert_eq!(Timestamp::new(i64::MAX, 0), None);
    assert_eq!(Timestamp::new(i64::MIN, 0), None);
}

#[test]
fn twenty_years_are_7300_days() {
    let now = instant("2025-10-21T07:28:00.5Z");
    let later = utc(now).checked_add_days(Days::new(7300)).unwrap();
    assert_eq!(later.timestamp(), now.secs() + 7300 * 86_400);
}
