//! The date of an `Expires` attribute, read in one of four formats.
use crate::calendar::{parse_naive, parsed_datetime};
use crate::expires::Timestamp;
use crate::parse::ParseError;
use crate::text::{lemma_ascii_boundary, lemma_trimmed_boundary, slice, trim, trimmed};
use vstd::prelude::*;
use vstd::string::*;
use vstd::utf8::*;

verus! {

/// Weekday, day, month, year and time as in `Tue, 21 Oct 2025 07:28:00`.
pub const RFC_1123: &'static str = "%a, %d %b %Y %H:%M:%S";

/// Full weekday and a dashed date with a two-digit year, as in
/// `Tuesday, 21-Oct-25 07:28:00`.
pub const RFC_850: &'static str = "%A, %d-%b-%y %H:%M:%S";

/// The order of `asctime`, as in `Tue Oct 21 07:28:00 2025`.
pub const ASCTIME: &'static str = "%a %b %-d %H:%M:%S %-Y";

/// A dashed date with a full year, as in `Tue, 21-Oct-2025 07:28:00`.
pub const DASHED: &'static str = "%a, %d-%b-%-Y %H:%M:%S";

/// The first position at or after `from` where `GMT` starts, or the length
/// of `v` if it occurs nowhere.
pub open spec fn gmt_at(v: Seq<u8>, from: int) -> int
    decreases v.len() - from,
{
    if from + 3 > v.len() {
        v.len() as int
    } else if v[from] == 0x47 && v[from + 1] == 0x4D && v[from + 2] == 0x54 {
        from
    } else {
        gmt_at(v, from + 1)
    }
}

/// The part of an `Expires` value that holds the date: what stands before the
/// first `GMT`, trimmed.
pub open spec fn date_range(v: Seq<u8>) -> (int, int) {
    trimmed(v, 0, gmt_at(v, 0))
}

/// The reading of `text` in the first of the four formats that matches it.
pub open spec fn first_match(text: Seq<char>) -> Option<(i64, u32)> {
    if parsed_datetime(text, RFC_1123@) is Some {
        parsed_datetime(text, RFC_1123@)
    } else if parsed_datetime(text, RFC_850@) is Some {
        parsed_datetime(text, RFC_850@)
    } else if parsed_datetime(text, ASCTIME@) is Some {
        parsed_datetime(text, ASCTIME@)
    } else {
        parsed_datetime(text, DASHED@)
    }
}

/// The instant that a reading names, if it names one.
pub open spec fn instant_of(parsed: Option<(i64, u32)>) -> Option<Timestamp> {
    Timestamp::named(parsed)
}

/// The date text of an `Expires` value, as characters.
pub open spec fn date_text(v: Seq<u8>) -> Seq<char> {
    decode_utf8(v.subrange(date_range(v).0, date_range(v).1))
}

/// The instant that an `Expires` value names, if one of the four formats
/// matches its date text.
pub open spec fn date_of(v: Seq<u8>) -> Option<Timestamp> {
    instant_of(first_match(date_text(v)))
}

/// The instant that an `Expires` value names in the first format alone.
pub open spec fn rfc_1123_date_of(v: Seq<u8>) -> Option<Timestamp> {
    instant_of(parsed_datetime(date_text(v), RFC_1123@))
}

/// `gmt_at` returns a position in range, which holds `G` if it is not the end.
pub proof fn lemma_gmt_at(v: Seq<u8>, from: int)
    requires
        0 <= from <= v.len(),
    ensures
        from <= gmt_at(v, from) <= v.len(),
        gmt_at(v, from) < v.len() ==> v[gmt_at(v, from)] == 0x47,
    decreases v.len() - from,
{
    if from + 3 <= v.len() && !(v[from] == 0x47 && v[from + 1] == 0x4D && v[from + 2] == 0x54) {
        lemma_gmt_at(v, from + 1);
    }
}

/// The first position where `GMT` starts, or the length of `bytes`.
pub fn find_gmt(bytes: &[u8]) -> (at: usize)
    ensures
        at == gmt_at(bytes@, 0),
        at <= bytes@.len(),
{
    let n: usize = bytes.len();
    let mut i: usize = 0;
    while n - i >= 3 && !(bytes[i] == 0x47 && bytes[i + 1] == 0x4D && bytes[i + 2] == 0x54)
        invariant
            n == bytes@.len(),
            i <= n,
            gmt_at(bytes@, 0) == gmt_at(bytes@, i as int),
        decreases n - i,
    {
        i = i + 1;
    }
    if n - i >= 3 {
        i
    } else {
        n
    }
}

/// The date text of an `Expires` value: what stands before the first `GMT`, trimmed.
pub fn date_part<'a>(text: &'a str) -> (r: &'a str)
    ensures
        r@ == date_text(text.spec_bytes()),
{
    let bytes = text.as_bytes();
    let cut = find_gmt(bytes);
    let (a, b) = trim(bytes, 0, cut);
    proof {
        let v = text.spec_bytes();
        encode_utf8_valid_utf8(text@);
        is_char_boundary_start_end_of_seq(v);
        lemma_gmt_at(v, 0);
        if cut < v.len() {
            lemma_ascii_boundary(v, cut as int);
        }
        lemma_trimmed_boundary(v, 0, cut as int);
    }
    let r = slice(text, a, b);
    proof {
        encode_utf8_decode_utf8(r@);
    }
    r
}

/// The result of reading a date: the instant, or `InvalidDate` where no
/// format matched or the calendar cannot name what was read.
pub fn found(parsed: Option<(i64, u32)>) -> (r: Result<Timestamp, ParseError>)
    ensures
        r == match instant_of(parsed) {
            Some(t) => Ok::<Timestamp, ParseError>(t),
            None => Err(ParseError::InvalidDate),
        },
{
    match parsed {
        Some((secs, nanos)) => match Timestamp::new(secs, nanos) {
            Some(at) => Ok(at),
            None => Err(ParseError::InvalidDate),
        },
        None => Err(ParseError::InvalidDate),
    }
}

/// Reads the date of an `Expires` value in the first format alone.
pub fn parse_date(text: &str) -> (r: Result<Timestamp, ParseError>)
    ensures
        r == match rfc_1123_date_of(text.spec_bytes()) {
            Some(t) => Ok::<Timestamp, ParseError>(t),
            None => Err(ParseError::InvalidDate),
        },
{
    let date = date_part(text);
    found(parse_naive(date, RFC_1123))
}

/// Reads the date of an `Expires` value, trying the four formats in order.
pub fn parse_date_with_all_formats(text: &str) -> (r: Result<Timestamp, ParseError>)
    ensures
        r == match date_of(text.spec_bytes()) {
            Some(t) => Ok::<Timestamp, ParseError>(t),
            None => Err(ParseError::InvalidDate),
        },
{
    let date = date_part(text);
    let first = parse_naive(date, RFC_1123);
    if first.is_some() {
        return found(first);
    }
    let second = parse_naive(date, RFC_850);
    if second.is_some() {
        return found(second);
    }
    let third = parse_naive(date, ASCTIME);
    if third.is_some() {
        return found(third);
    }
    found(parse_naive(date, DASHED))
}

} // verus!
