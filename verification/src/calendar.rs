//! Points in time: an instant counted from the epoch together with the calendar
//! fields it falls on in UTC.

use chrono::{Datelike, Timelike};
use vstd::prelude::*;

verus! {

/// Year, month, day, hour, minute and second, compared field by field from the
/// year down. A value read from a path holds whatever the path's components
/// hold; nothing here asks it to be a date of the calendar.
#[derive(Clone, Copy, Debug, PartialEq, Eq, Structural, Hash)]
pub struct CivilTime {
    pub year: u32,
    pub month: u32,
    pub day: u32,
    pub hour: u32,
    pub minute: u32,
    pub second: u32,
}

impl CivilTime {
    /// The six fields as one number in which an earlier field outweighs all
    /// later ones.
    pub open spec fn rank(self) -> nat {
        let b = 0x1_0000_0000nat;
        ((((self.year as nat * b + self.month as nat) * b + self.day as nat) * b
            + self.hour as nat) * b + self.minute as nat) * b + self.second as nat
    }

    /// `self` is not later than `other`: at the first field in which they
    /// differ, `self` has the smaller value.
    pub open spec fn spec_le(self, other: CivilTime) -> bool {
        if self.year != other.year {
            self.year < other.year
        } else if self.month != other.month {
            self.month < other.month
        } else if self.day != other.day {
            self.day < other.day
        } else if self.hour != other.hour {
            self.hour < other.hour
        } else if self.minute != other.minute {
            self.minute < other.minute
        } else {
            self.second <= other.second
        }
    }

    /// The fields lie in the ranges of a calendar date and a time of day.
    pub open spec fn in_calendar_ranges(self) -> bool {
        &&& 1 <= self.month <= 12
        &&& 1 <= self.day <= 31
        &&& self.hour < 24
        &&& self.minute < 60
        &&& self.second < 60
    }

    pub fn le(&self, other: &CivilTime) -> (b: bool)
        ensures
            b == self.spec_le(*other),
    {
        if self.year != other.year {
            self.year < other.year
        } else if self.month != other.month {
            self.month < other.month
        } else if self.day != other.day {
            self.day < other.day
        } else if self.hour != other.hour {
            self.hour < other.hour
        } else if self.minute != other.minute {
            self.minute < other.minute
        } else {
            self.second <= other.second
        }
    }

    /// The value of the level `t`.
    pub open spec fn field(self, t: crate::entries::IndexType) -> u32 {
        match t {
            crate::entries::IndexType::Year => self.year,
            crate::entries::IndexType::Month => self.month,
            crate::entries::IndexType::Day => self.day,
            crate::entries::IndexType::Hour => self.hour,
            crate::entries::IndexType::Minute => self.minute,
            crate::entries::IndexType::Second => self.second,
        }
    }

    pub fn get(&self, t: crate::entries::IndexType) -> (v: u32)
        ensures
            v == self.field(t),
    {
        match t {
            crate::entries::IndexType::Year => self.year,
            crate::entries::IndexType::Month => self.month,
            crate::entries::IndexType::Day => self.day,
            crate::entries::IndexType::Hour => self.hour,
            crate::entries::IndexType::Minute => self.minute,
            crate::entries::IndexType::Second => self.second,
        }
    }
}

/// The order of calendar values is total: it is the order of their ranks.
pub proof fn lemma_civil_order_is_rank_order(a: CivilTime, b: CivilTime)
    ensures
        a.spec_le(b) <==> a.rank() <= b.rank(),
        a.rank() == b.rank() <==> a == b,
        a.spec_le(b) || b.spec_le(a),
{
    let w = 0x1_0000_0000nat;
    let a1 = a.year as nat * w + a.month as nat;
    let b1 = b.year as nat * w + b.month as nat;
    lemma_rank_step(a.year as nat, a.month, b.year as nat, b.month);
    let a2 = a1 * w + a.day as nat;
    let b2 = b1 * w + b.day as nat;
    lemma_rank_step(a1, a.day, b1, b.day);
    let a3 = a2 * w + a.hour as nat;
    let b3 = b2 * w + b.hour as nat;
    lemma_rank_step(a2, a.hour, b2, b.hour);
    let a4 = a3 * w + a.minute as nat;
    let b4 = b3 * w + b.minute as nat;
    lemma_rank_step(a3, a.minute, b3, b.minute);
    lemma_rank_step(a4, a.second, b4, b.second);
}

proof fn lemma_rank_step(hi_a: nat, lo_a: u32, hi_b: nat, lo_b: u32)
    ensures
        hi_a < hi_b ==> hi_a * 0x1_0000_0000 + lo_a < hi_b * 0x1_0000_0000 + lo_b,
        hi_a == hi_b ==> (hi_a * 0x1_0000_0000 + lo_a <= hi_b * 0x1_0000_0000 + lo_b <==> lo_a
            <= lo_b),
        hi_a > hi_b ==> hi_a * 0x1_0000_0000 + lo_a > hi_b * 0x1_0000_0000 + lo_b,
{
}

/// The calendar fields in UTC of the instant `secs` seconds and `nanos`
/// nanoseconds after the epoch, as year, month, day, hour, minute and second;
/// `None` where the calendar in use cannot represent the instant.
pub uninterp spec fn civil_of_timestamp(secs: int, nanos: int) -> Option<
    (int, int, int, int, int, int),
>;

/// The largest count of seconds for which the calendar is known to answer.
pub const MAX_CALENDAR_SECS: i64 = 0xff_ffff_ffff;

/// Calls `chrono::DateTime::from_timestamp` and reads the result's year, month,
/// day, hour, minute and second.
///
/// Believed of it: the outcome is a function of the two arguments alone; the
/// fields that come back lie in the ranges that chrono documents for them
/// (month 1 to 12, day 1 to 31, hour below 24, minute and second below 60); an
/// instant at or after the epoch falls in 1970 or later; no instant has two
/// seconds of nanoseconds or more; and an instant of at most `MAX_CALENDAR_SECS` seconds after the epoch with less
/// than a second of nanoseconds is within the dates chrono represents.
#[verifier::external_body]
fn civil_from_timestamp(secs: i64, nanos: u32) -> (r: Option<(i32, u32, u32, u32, u32, u32)>)
    ensures
        match r {
            Some(c) => civil_of_timestamp(secs as int, nanos as int) == Some(
                (c.0 as int, c.1 as int, c.2 as int, c.3 as int, c.4 as int, c.5 as int),
            ),
            None => civil_of_timestamp(secs as int, nanos as int) is None,
        },
        r is Some ==> 1 <= r.unwrap().1 <= 12 && 1 <= r.unwrap().2 <= 31 && r.unwrap().3 < 24
            && r.unwrap().4 < 60 && r.unwrap().5 < 60,
        r is Some && secs >= 0 ==> r.unwrap().0 >= 1970,
        r is Some ==> nanos < 2_000_000_000,
        0 <= secs <= MAX_CALENDAR_SECS && nanos < 1_000_000_000 ==> r is Some,
{
    match chrono::DateTime::from_timestamp(secs, nanos) {
        Some(t) => Some((t.year(), t.month(), t.day(), t.hour(), t.minute(), t.second())),
        None => None,
    }
}

/// An instant at or after the epoch and the calendar fields it falls on.
#[derive(Clone, Copy, Debug, PartialEq, Eq, Structural, Hash)]
pub struct TimePoint {
    /// Whole seconds since the epoch.
    pub secs: u64,
    /// The part of a second, in nanoseconds.
    pub nanos: u32,
    /// The calendar fields of the instant.
    pub civil: CivilTime,
}

impl TimePoint {
    /// The fields lie in their calendar ranges, the count of seconds fits a
    /// signed 64-bit number and the nanoseconds stay below two seconds (the
    /// second second stands for a leap second).
    pub open spec fn wf(self) -> bool {
        &&& self.civil.in_calendar_ranges()
        &&& self.secs <= i64::MAX
        &&& self.nanos < 2_000_000_000
    }

    /// Nanoseconds since the epoch.
    pub open spec fn nanos_total(self) -> nat {
        self.secs as nat * 1_000_000_000 + self.nanos as nat
    }

    /// The calendar fields that `from_timestamp` gives the instant
    /// (`secs`, `nanos`), where it gives any.
    pub open spec fn civil_at(secs: u64, nanos: u32) -> Option<CivilTime> {
        match civil_of_timestamp(secs as int, nanos as int) {
            Some(c) => if secs <= i64::MAX && 0 <= c.0 <= u32::MAX {
                Some(
                    CivilTime {
                        year: c.0 as u32,
                        month: c.1 as u32,
                        day: c.2 as u32,
                        hour: c.3 as u32,
                        minute: c.4 as u32,
                        second: c.5 as u32,
                    },
                )
            } else {
                None
            },
            None => None,
        }
    }

    /// `self` is strictly earlier than `other` as an instant.
    pub open spec fn spec_lt(self, other: TimePoint) -> bool {
        self.secs < other.secs || (self.secs == other.secs && self.nanos < other.nanos)
    }

    /// `self` is not later than `other` as an instant.
    pub open spec fn spec_le(self, other: TimePoint) -> bool {
        self.secs < other.secs || (self.secs == other.secs && self.nanos <= other.nanos)
    }

    /// Milliseconds since the epoch, rounded down.
    pub open spec fn millis(self) -> nat {
        self.secs as nat * 1_000 + (self.nanos / 1_000_000) as nat
    }

    /// The point of time `secs` seconds and `nanos` nanoseconds after the epoch,
    /// with the calendar fields it falls on; `None` where the calendar cannot
    /// represent it.
    pub fn from_timestamp(secs: u64, nanos: u32) -> (r: Option<TimePoint>)
        ensures
            r == match TimePoint::civil_at(secs, nanos) {
                Some(civil) => Some(TimePoint { secs, nanos, civil }),
                None => None,
            },
            r is Some ==> r.unwrap().wf(),
            secs <= MAX_CALENDAR_SECS && nanos < 1_000_000_000 ==> r is Some,
    {
        if secs > i64::MAX as u64 {
            return None;
        }
        match civil_from_timestamp(secs as i64, nanos) {
            Some(c) => {
                if c.0 < 0 {
                    None
                } else {
                    Some(
                        TimePoint {
                            secs,
                            nanos,
                            civil: CivilTime {
                                year: c.0 as u32,
                                month: c.1,
                                day: c.2,
                                hour: c.3,
                                minute: c.4,
                                second: c.5,
                            },
                        },
                    )
                }
            },
            None => None,
        }
    }

    /// Whether this point of time is well formed.
    pub fn is_wf(&self) -> (b: bool)
        ensures
            b == self.wf(),
    {
        let c = &self.civil;
        1 <= c.month && c.month <= 12 && 1 <= c.day && c.day <= 31 && c.hour < 24 && c.minute < 60
            && c.second < 60 && self.secs <= i64::MAX as u64 && self.nanos < 2_000_000_000
    }

    pub fn lt(&self, other: &TimePoint) -> (b: bool)
        ensures
            b == self.spec_lt(*other),
    {
        self.secs < other.secs || (self.secs == other.secs && self.nanos < other.nanos)
    }

    pub fn le(&self, other: &TimePoint) -> (b: bool)
        ensures
            b == self.spec_le(*other),
    {
        self.secs < other.secs || (self.secs == other.secs && self.nanos <= other.nanos)
    }

    pub fn timestamp_millis(&self) -> (m: u128)
        ensures
            m == self.millis(),
    {
        let secs: u128 = self.secs as u128;
        assert(secs * 1_000 <= 0xffff_ffff_ffff_ffff * 1_000);
        secs * 1_000 + (self.nanos / 1_000_000) as u128
    }
}

} // verus!
