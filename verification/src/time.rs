//! Instants and calendar days as plain integers: an instant is counted in
//! seconds and nanoseconds since 1970-01-01T00:00:00Z, a day in days since
//! 1970-01-01.

use vstd::prelude::*;
use chrono::{DateTime, SecondsFormat};

verus! {

/// The text that `chrono` writes for the instant `secs` seconds and
/// `nanos` nanoseconds after 1970 in UTC, by RFC 3339 with whole seconds
/// and `Z` for the zone; `None` where `chrono` cannot hold the instant.
pub uninterp spec fn rfc3339_text(secs: i64, nanos: u32) -> Option<Seq<char>>;

/// `chrono::DateTime::to_rfc3339_opts` with `SecondsFormat::Secs` and `Z`,
/// on the instant that `chrono::DateTime::from_timestamp` makes of `t`:
/// the instant written as `YYYY-MM-DDTHH:MM:SSZ`, the year with a sign and
/// more digits where it lies outside 0 to 9999. The text depends on the
/// instant alone. `None` where `from_timestamp` refuses the instant.
#[verifier::external_body]
fn rfc3339_secs(t: Timestamp) -> (r: Option<String>)
    ensures
        r.deep_view() == rfc3339_text(t.secs, t.nanos),
{
    match DateTime::from_timestamp(t.secs, t.nanos) {
        Some(d) => Some(d.to_rfc3339_opts(SecondsFormat::Secs, true)),
        None => None,
    }
}

/// The seconds of a day.
pub const SECS_PER_DAY: i64 = 86_400;

/// An instant in UTC: whole seconds since 1970-01-01T00:00:00Z and the
/// nanoseconds past that second.
#[derive(Clone, Copy, Debug, PartialEq, Eq, Structural)]
pub struct Timestamp {
    pub secs: i64,
    pub nanos: u32,
}

/// A calendar day in UTC, counted in days since 1970-01-01.
#[derive(Clone, Copy, Debug, PartialEq, Eq, Structural)]
pub struct Date {
    pub days: i64,
}

/// The day that second `secs` falls on.
pub open spec fn day_of_secs(secs: int) -> int {
    secs / 86_400
}

impl Timestamp {
    /// Nanoseconds since the epoch.
    pub open spec fn total_nanos(self) -> int {
        self.secs * 1_000_000_000 + self.nanos
    }

    /// The calendar day this instant falls on.
    pub open spec fn day(self) -> Date {
        Date { days: day_of_secs(self.secs as int) as i64 }
    }

    /// The instant `secs` seconds before this one.
    pub open spec fn earlier(self, secs: int) -> Timestamp {
        Timestamp { secs: (self.secs - secs) as i64, nanos: self.nanos }
    }

    /// 1970-01-01T00:00:00Z.
    pub fn epoch() -> (r: Timestamp)
        ensures
            r == (Timestamp { secs: 0, nanos: 0 }),
    {
        Timestamp { secs: 0, nanos: 0 }
    }

    /// Whether this instant comes strictly before `other`.
    pub fn is_before(&self, other: &Timestamp) -> (r: bool)
        ensures
            r == (self.total_nanos() < other.total_nanos()),
    {
        let a: i128 = (self.secs as i128) * 1_000_000_000i128 + (self.nanos as i128);
        let b: i128 = (other.secs as i128) * 1_000_000_000i128 + (other.nanos as i128);
        a < b
    }

    /// Whether less than `secs` seconds lie between `earlier` and this instant.
    pub fn within(&self, earlier: &Timestamp, secs: i64) -> (r: bool)
        ensures
            r == (self.total_nanos() - earlier.total_nanos() < secs * 1_000_000_000),
    {
        let a: i128 = (self.secs as i128) * 1_000_000_000i128 + (self.nanos as i128);
        let b: i128 = (earlier.secs as i128) * 1_000_000_000i128 + (earlier.nanos as i128);
        a - b < (secs as i128) * 1_000_000_000i128
    }

    /// The instant `secs` seconds before this one.
    pub fn minus_secs(&self, secs: i64) -> (r: Timestamp)
        requires
            i64::MIN <= self.secs - secs <= i64::MAX,
        ensures
            r == self.earlier(secs as int),
    {
        Timestamp { secs: self.secs - secs, nanos: self.nanos }
    }

    /// This instant written by RFC 3339, with whole seconds, where it can
    /// be written.
    pub fn to_rfc3339(&self) -> (r: Option<String>)
        ensures
            r.deep_view() == rfc3339_text(self.secs, self.nanos),
    {
        rfc3339_secs(*self)
    }

    /// The calendar day this instant falls on.
    pub fn date(&self) -> (r: Date)
        ensures
            r == self.day(),
    {
        let days: i64 = if self.secs >= 0 {
            self.secs / SECS_PER_DAY
        } else {
            let back: i64 = -(self.secs + 1);
            -(back / SECS_PER_DAY) - 1
        };
        Date { days }
    }
}

} // verus!
