//! The instant model: a calendar day number paired with a time of day.
//!
//! A day number counts calendar days from an epoch day (day 0), which is
//! a Thursday, so the weekday of any instant is fixed by its day number
//! alone. A time of day is a count of nanoseconds since midnight. The
//! pair orders instants lexicographically, which agrees with the total
//! nanosecond count whenever the time of day is in range.

use vstd::prelude::*;

verus! {

/// Nanoseconds in one second.
pub const NANOS_PER_SECOND: u64 = 1_000_000_000;
/// Nanoseconds in one minute.
pub const NANOS_PER_MINUTE: u64 = 60_000_000_000;
/// Nanoseconds in one hour.
pub const NANOS_PER_HOUR: u64 = 3_600_000_000_000;
/// Nanoseconds in one calendar day.
pub const NANOS_PER_DAY: u64 = 86_400_000_000_000;
/// Seconds in one calendar day.
pub const SECONDS_PER_DAY: u64 = 86_400;

/// A clock time within one calendar day, counted as nanoseconds since
/// midnight.
#[derive(Clone, Copy, PartialEq, Eq, Structural, Debug)]
pub struct TimeOfDay {
    pub nanos: u64,
}

impl TimeOfDay {
    /// A time of day never reaches the next midnight.
    pub open spec fn wf(self) -> bool {
        self.nanos < NANOS_PER_DAY
    }

    /// Builds a time of day from clock components.
    pub fn new(hour: u64, minute: u64, second: u64, nano: u64) -> (r: TimeOfDay)
        requires
            hour < 24,
            minute < 60,
            second < 60,
            nano < NANOS_PER_SECOND,
        ensures
            r.wf(),
            r.nanos == hour * NANOS_PER_HOUR + minute * NANOS_PER_MINUTE + second
                * NANOS_PER_SECOND + nano,
    {
        TimeOfDay {
            nanos: hour * NANOS_PER_HOUR + minute * NANOS_PER_MINUTE + second * NANOS_PER_SECOND
                + nano,
        }
    }

    /// The first instant of a day.
    pub fn midnight() -> (r: TimeOfDay)
        ensures
            r.wf(),
            r.nanos == 0,
    {
        TimeOfDay { nanos: 0 }
    }
}

/// A day of the week.
#[derive(Clone, Copy, PartialEq, Eq, Structural, Debug)]
pub enum Weekday {
    Monday,
    Tuesday,
    Wednesday,
    Thursday,
    Friday,
    Saturday,
    Sunday,
}

/// The weekday at a given position in the week, counting Monday as 0.
pub open spec fn weekday_from_index(i: int) -> Weekday {
    if i == 0 {
        Weekday::Monday
    } else if i == 1 {
        Weekday::Tuesday
    } else if i == 2 {
        Weekday::Wednesday
    } else if i == 3 {
        Weekday::Thursday
    } else if i == 4 {
        Weekday::Friday
    } else if i == 5 {
        Weekday::Saturday
    } else {
        Weekday::Sunday
    }
}

/// The position of a weekday in the week, counting Monday as 0.
pub open spec fn weekday_index(w: Weekday) -> int {
    match w {
        Weekday::Monday => 0,
        Weekday::Tuesday => 1,
        Weekday::Wednesday => 2,
        Weekday::Thursday => 3,
        Weekday::Friday => 4,
        Weekday::Saturday => 5,
        Weekday::Sunday => 6,
    }
}

/// The weekday of a calendar day number: day 0 is a Thursday, and the
/// weekday advances cyclically with the day number.
pub open spec fn weekday_of_day(day: int) -> Weekday {
    weekday_from_index((day + 3) % 7)
}

/// An instant: a calendar day number and a time of day within it.
#[derive(Clone, Copy, PartialEq, Eq, Structural, Debug)]
pub struct Instant {
    /// Calendar days since the epoch day (negative for days before it).
    pub day: i64,
    /// Nanoseconds since midnight of that day.
    pub nanos: u64,
}

impl Instant {
    /// The time-of-day component is in range.
    pub open spec fn wf(self) -> bool {
        self.nanos < NANOS_PER_DAY
    }

    /// The instant as a total count of nanoseconds from the epoch.
    pub open spec fn to_nanos(self) -> int {
        self.day * (NANOS_PER_DAY as int) + self.nanos
    }

    pub open spec fn spec_le(self, other: Instant) -> bool {
        self.to_nanos() <= other.to_nanos()
    }

    pub open spec fn spec_lt(self, other: Instant) -> bool {
        self.to_nanos() < other.to_nanos()
    }

    /// Builds an instant from a day number and a time of day.
    pub fn new(day: i64, time: TimeOfDay) -> (r: Instant)
        requires
            time.wf(),
        ensures
            r == (Instant { day, nanos: time.nanos }),
            r.wf(),
    {
        Instant { day, nanos: time.nanos }
    }

    /// Lexicographic order on (day, time of day), which is the order of
    /// the underlying nanosecond counts for in-range times of day.
    pub fn le(&self, other: &Instant) -> (r: bool)
        requires
            self.wf(),
            other.wf(),
        ensures
            r == self.spec_le(*other),
    {
        self.day < other.day || (self.day == other.day && self.nanos <= other.nanos)
    }

    /// Strict version of `le`.
    pub fn lt(&self, other: &Instant) -> (r: bool)
        requires
            self.wf(),
            other.wf(),
        ensures
            r == self.spec_lt(*other),
    {
        self.day < other.day || (self.day == other.day && self.nanos < other.nanos)
    }

    /// The time-of-day component.
    pub fn time(&self) -> (r: TimeOfDay)
        ensures
            r.nanos == self.nanos,
    {
        TimeOfDay { nanos: self.nanos }
    }

    /// The same calendar day with the time of day replaced.
    pub fn replace_time(&self, time: TimeOfDay) -> (r: Instant)
        ensures
            r == (Instant { day: self.day, nanos: time.nanos }),
    {
        Instant { day: self.day, nanos: time.nanos }
    }

    /// The same time of day, a whole number of calendar days away.
    pub fn add_days(&self, n: i64) -> (r: Instant)
        requires
            i64::MIN <= self.day + n <= i64::MAX,
        ensures
            r == (Instant { day: (self.day + n) as i64, nanos: self.nanos }),
    {
        Instant { day: self.day + n, nanos: self.nanos }
    }

    /// The weekday of the instant's calendar day.
    pub fn weekday(&self) -> (r: Weekday)
        ensures
            r == weekday_of_day(self.day as int),
    {
        let rem = self.day.checked_rem_euclid(7).unwrap();
        let idx = (rem + 3).checked_rem_euclid(7).unwrap();
        proof {
            vstd::arithmetic::div_mod::lemma_add_mod_noop(self.day as int, 3, 7);
        }
        if idx == 0 {
            Weekday::Monday
        } else if idx == 1 {
            Weekday::Tuesday
        } else if idx == 2 {
            Weekday::Wednesday
        } else if idx == 3 {
            Weekday::Thursday
        } else if idx == 4 {
            Weekday::Friday
        } else if idx == 5 {
            Weekday::Saturday
        } else {
            Weekday::Sunday
        }
    }

    /// Builds the instant a count of seconds from the epoch instant.
    pub fn from_unix_seconds(seconds: i64) -> (r: Instant)
        ensures
            r.wf(),
            r.to_nanos() == seconds * NANOS_PER_SECOND,
    {
        let day = seconds.checked_div_euclid(SECONDS_PER_DAY as i64).unwrap();
        let sec_of_day = seconds.checked_rem_euclid(SECONDS_PER_DAY as i64).unwrap();
        proof {
            vstd::arithmetic::div_mod::lemma_fundamental_div_mod(seconds as int, SECONDS_PER_DAY as int);
        }
        Instant { day, nanos: (sec_of_day as u64) * NANOS_PER_SECOND }
    }

    /// Builds the instant a count of nanoseconds from the epoch instant.
    pub fn from_unix_nanos(nanos: i128) -> (r: Instant)
        requires
            i64::MIN * (NANOS_PER_DAY as int) <= nanos,
            nanos <= i64::MAX * (NANOS_PER_DAY as int) + (NANOS_PER_DAY - 1),
        ensures
            r.wf(),
            r.to_nanos() == nanos,
    {
        let day = nanos.checked_div_euclid(NANOS_PER_DAY as i128).unwrap();
        let nanos_of_day = nanos.checked_rem_euclid(NANOS_PER_DAY as i128).unwrap();
        proof {
            vstd::arithmetic::div_mod::lemma_fundamental_div_mod(
                nanos as int,
                NANOS_PER_DAY as int,
            );
        }
        Instant { day: day as i64, nanos: nanos_of_day as u64 }
    }

    /// The total count of nanoseconds from the epoch instant.
    pub fn to_unix_nanos(&self) -> (r: i128)
        ensures
            r == self.to_nanos(),
    {
        (self.day as i128) * 86_400_000_000_000i128 + (self.nanos as i128)
    }
}

} // verus!
