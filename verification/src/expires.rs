//! When a cookie expires: instants and expiration policies.
use crate::calendar::{add_days, now, sub_days};
use vstd::prelude::*;

verus! {

/// The earliest second that an instant can name: 1 January of year -262143, 00:00:00 UTC.
pub const MIN_SECONDS: i64 = -8_334_601_228_800;

/// The latest second that an instant can name: 31 December of year 262142, 23:59:59 UTC.
pub const MAX_SECONDS: i64 = 8_210_266_876_799;

/// The seconds of one day.
pub const DAY_SECONDS: i64 = 86_400;

/// Whether the calendar can name the instant of `secs` whole seconds since
/// 1970-01-01T00:00:00Z, without leap seconds, and `nanos` nanoseconds past
/// that second. A leap second is written as second 59 of its minute with
/// `nanos` of 1,000,000,000 or more.
pub open spec fn can_name(secs: i64, nanos: u32) -> bool {
    &&& MIN_SECONDS <= secs <= MAX_SECONDS
    &&& nanos < 2_000_000_000
    &&& (nanos >= 1_000_000_000 ==> secs % 60 == 59)
}

/// The seconds and nanoseconds of the instant `days` days after that of
/// `secs` and `nanos`: `None` if the calendar cannot name that instant, or
/// the later one lies past the last instant.
pub open spec fn days_added(secs: i64, nanos: u32, days: u64) -> Option<(i64, u32)> {
    let later = secs + DAY_SECONDS * days;
    if !can_name(secs, nanos) {
        None
    } else if days == 0 {
        Some((secs, nanos))
    } else if later < MAX_SECONDS || (later == MAX_SECONDS && nanos < 1_000_000_000) {
        Some((later as i64, nanos))
    } else {
        None
    }
}

/// The seconds and nanoseconds of the instant `days` days before that of
/// `secs` and `nanos`: `None` if the calendar cannot name that instant, or
/// the earlier one lies before the first instant.
pub open spec fn days_taken(secs: i64, nanos: u32, days: u64) -> Option<(i64, u32)> {
    let earlier = secs - DAY_SECONDS * days;
    if can_name(secs, nanos) && earlier >= MIN_SECONDS {
        Some((earlier as i64, nanos))
    } else {
        None
    }
}

/// An instant on the UTC time line that the calendar can name.
#[derive(Debug, Clone, Copy, PartialEq, Eq, Structural)]
pub struct Timestamp {
    secs: i64,
    nanos: u32,
}

impl Timestamp {
    /// The invariant of every instant: the calendar can name it.
    #[verifier::type_invariant]
    pub closed spec fn inv(self) -> bool {
        can_name(self.secs, self.nanos)
    }

    /// The whole seconds since 1970-01-01T00:00:00Z, without leap seconds.
    pub closed spec fn seconds(self) -> i64 {
        self.secs
    }

    /// The nanoseconds past the second.
    pub closed spec fn subsec_nanos(self) -> u32 {
        self.nanos
    }

    /// The instant of `secs` and `nanos`.
    pub closed spec fn at(secs: i64, nanos: u32) -> Timestamp {
        Timestamp { secs, nanos }
    }

    /// An instant is that of its seconds and nanoseconds, and nothing more.
    pub proof fn lemma_at(secs: i64, nanos: u32, other: Timestamp)
        ensures
            Timestamp::at(secs, nanos).seconds() == secs,
            Timestamp::at(secs, nanos).subsec_nanos() == nanos,
            other == Timestamp::at(other.seconds(), other.subsec_nanos()),
    {
    }

    /// Whether the calendar can name this instant. It can name every instant
    /// that a program holds.
    pub open spec fn representable(self) -> bool {
        can_name(self.seconds(), self.subsec_nanos())
    }

    /// The instant that seconds and nanoseconds name, if they name one.
    pub open spec fn named(parts: Option<(i64, u32)>) -> Option<Timestamp> {
        match parts {
            Some((secs, nanos)) => if can_name(secs, nanos) {
                Some(Timestamp::at(secs, nanos))
            } else {
                None
            },
            None => None,
        }
    }

    /// The instant `days` days later: `None` if the later one lies past the
    /// last instant.
    pub open spec fn plus_days(self, days: u64) -> Option<Timestamp> {
        Timestamp::named(days_added(self.seconds(), self.subsec_nanos(), days))
    }

    /// The instant `days` days earlier: `None` if the earlier one lies
    /// before the first instant.
    pub open spec fn minus_days(self, days: u64) -> Option<Timestamp> {
        Timestamp::named(days_taken(self.seconds(), self.subsec_nanos(), days))
    }

    /// The last instant that the calendar can name.
    pub open spec fn last() -> Timestamp {
        Timestamp::at(MAX_SECONDS, 999_999_999)
    }

    /// The instant of `secs` and `nanos`, if the calendar can name it.
    pub fn new(secs: i64, nanos: u32) -> (r: Option<Timestamp>)
        ensures
            r == Timestamp::named(Some((secs, nanos))),
            r matches Some(at) ==> at.seconds() == secs && at.subsec_nanos() == nanos,
    {
        if secs < MIN_SECONDS || secs > MAX_SECONDS || nanos >= 2_000_000_000 {
            return None;
        }
        let since: u64 = (secs - MIN_SECONDS) as u64;
        assert(since % 60 == secs % 60);
        if nanos < 1_000_000_000 || since % 60 == 59 {
            Some(Timestamp { secs, nanos })
        } else {
            None
        }
    }

    /// The whole seconds since 1970-01-01T00:00:00Z, without leap seconds.
    pub fn secs(&self) -> (r: i64)
        ensures
            r == self.seconds(),
            self.representable(),
    {
        proof {
            use_type_invariant(self);
        }
        self.secs
    }

    /// The nanoseconds past the second.
    pub fn nanos(&self) -> (r: u32)
        ensures
            r == self.subsec_nanos(),
            self.representable(),
    {
        proof {
            use_type_invariant(self);
        }
        self.nanos
    }

    /// The last instant that the calendar can name.
    pub fn max() -> (r: Timestamp)
        ensures
            r == Timestamp::last(),
            r.seconds() == MAX_SECONDS,
            r.subsec_nanos() == 999_999_999,
    {
        Timestamp { secs: MAX_SECONDS, nanos: 999_999_999 }
    }

    /// The clock's reading: an instant that is not before 1970.
    pub fn now() -> (r: Timestamp)
        ensures
            r.representable(),
            r.seconds() >= 0,
    {
        let (secs, nanos) = now();
        Timestamp { secs, nanos }
    }

    /// The instant `days` days later, if the calendar can name it.
    pub fn checked_add_days(self, days: u64) -> (r: Option<Timestamp>)
        ensures
            r == self.plus_days(days),
    {
        proof {
            use_type_invariant(self);
        }
        match add_days(self.secs, self.nanos, days) {
            Some((secs, nanos)) => Some(Timestamp { secs, nanos }),
            None => None,
        }
    }

    /// The instant `days` days earlier, if the calendar can name it.
    pub fn checked_sub_days(self, days: u64) -> (r: Option<Timestamp>)
        ensures
            r == self.minus_days(days),
    {
        proof {
            use_type_invariant(self);
        }
        match sub_days(self.secs, self.nanos, days) {
            Some((secs, nanos)) => Some(Timestamp { secs, nanos }),
            None => None,
        }
    }
}

/// When a cookie expires.
#[derive(Debug, Clone, Copy, PartialEq, Eq, Structural)]
pub enum Expiration {
    /// With the session that received it.
    Session,
    /// At an instant.
    DateTime(Timestamp),
}

/// Another name for [`Expiration`].
pub type Expires = Expiration;

} // verus!
