//! Times of day and where the current one is read from.

use chrono::Timelike;
use vstd::prelude::*;

verus! {

/// A point within the 24-hour cycle: whole seconds since midnight and a
/// nanosecond fraction. A fraction of a thousand million or more stands for a
/// leap second. Times are ordered by seconds first, then by fraction.
#[derive(Clone, Copy, Debug, PartialEq, Eq, Structural, PartialOrd, Ord, Hash)]
pub struct TimeOfDay {
    pub secs: u32,
    pub frac: u32,
}

/// One more than the largest key a time can have.
pub open spec fn cycle() -> int {
    0x1_0000_0000_0000_0000
}

/// How far `to` lies after `from` when the order of the day is read as a
/// circle: zero for equal times, and the way round through midnight when `to`
/// is the earlier one.
pub open spec fn offset(from: TimeOfDay, to: TimeOfDay) -> int {
    if to.key() >= from.key() {
        to.key() - from.key()
    } else {
        to.key() - from.key() + cycle()
    }
}

impl TimeOfDay {
    /// The place of this time in the order of the day.
    pub open spec fn key(self) -> int {
        self.secs * 0x1_0000_0000 + self.frac
    }

    /// Whether the time lies within a day: under 86 400 seconds, with a
    /// fraction under two thousand million.
    pub open spec fn is_valid(self) -> bool {
        self.secs < 86_400 && self.frac < 2_000_000_000
    }

    /// The start of the day, which no time precedes.
    pub open spec fn spec_midnight() -> Self {
        TimeOfDay { secs: 0, frac: 0 }
    }

    /// The start of the day, which no time precedes.
    #[verifier::when_used_as_spec(spec_midnight)]
    pub fn midnight() -> (t: Self)
        ensures
            t == Self::spec_midnight(),
            t.key() == 0,
            t.is_valid(),
    {
        TimeOfDay { secs: 0, frac: 0 }
    }

    /// The time `secs` seconds after midnight plus `frac` nanoseconds, or
    /// `None` where that is no time of day.
    pub fn new(secs: u32, frac: u32) -> (t: Option<Self>)
        ensures
            t is Some <==> secs < 86_400 && frac < 2_000_000_000,
            t matches Some(time) ==> time.secs == secs && time.frac == frac,
    {
        if secs < 86_400 && frac < 2_000_000_000 {
            Some(TimeOfDay { secs, frac })
        } else {
            None
        }
    }

    /// Whether this time comes strictly before `other`.
    pub fn is_before(&self, other: &TimeOfDay) -> (b: bool)
        ensures
            b == (self.key() < other.key()),
    {
        self.secs < other.secs || (self.secs == other.secs && self.frac < other.frac)
    }

    /// Whether this time is `other` or comes after it.
    pub fn is_at_or_after(&self, other: &TimeOfDay) -> (b: bool)
        ensures
            b == (self.key() >= other.key()),
    {
        !self.is_before(other)
    }

    /// Whether `a` comes before `b` on the circle that starts at this time.
    pub fn sooner(&self, a: &TimeOfDay, b: &TimeOfDay) -> (r: bool)
        ensures
            r == (offset(*self, *a) < offset(*self, *b)),
    {
        let a_next_day = a.is_before(self);
        let b_next_day = b.is_before(self);
        if a_next_day == b_next_day {
            a.is_before(b)
        } else {
            b_next_day
        }
    }
}

/// Reads the local wall clock through `chrono::Local::now`, takes the time
/// part of the reading with `DateTime::time` and hands out its
/// `num_seconds_from_midnight` and `nanosecond`. Nothing is proved of this
/// function. Its contract claims of the reading only the ranges that chrono
/// documents for those two numbers: seconds from 0 to 86 399, nanoseconds
/// under two thousand million. chrono panics where the system clock stands
/// before 1970, and can panic where it cannot work out the offset of the
/// local time zone.
#[verifier::external_body]
fn local_time_of_day() -> (t: TimeOfDay)
    ensures
        t.is_valid(),
{
    let now = chrono::Local::now().time();
    TimeOfDay { secs: now.num_seconds_from_midnight(), frac: now.nanosecond() }
}

/// Where a schedule reads the current time of day from.
#[derive(Clone, Copy, Debug, PartialEq, Eq, Structural)]
pub enum TimeSource {
    /// The local wall clock.
    Wall,
    /// A clock that stands still at the given time.
    Fixed(TimeOfDay),
}

impl TimeSource {
    /// Whether a reading of this source can give `t`.
    pub open spec fn may_read(self, t: TimeOfDay) -> bool {
        match self {
            TimeSource::Wall => t.is_valid(),
            TimeSource::Fixed(at) => t == at,
        }
    }

    /// The current time of day according to this source. A reading of the
    /// wall clock goes through chrono and can panic: where the system clock
    /// stands before 1970, and where the offset of the local time zone cannot
    /// be worked out. A fixed source never panics.
    pub fn now(&self) -> (t: TimeOfDay)
        ensures
            self.may_read(t),
    {
        match self {
            TimeSource::Wall => local_time_of_day(),
            TimeSource::Fixed(at) => *at,
        }
    }
}

} // verus!
