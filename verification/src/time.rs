//! Times of day and the distance between them in whole seconds.

use vstd::prelude::*;

verus! {

/// Nanoseconds in one second.
pub const NANOS_PER_SECOND: u64 = 1_000_000_000;

/// Whether a count of seconds since midnight and a count of nanoseconds within
/// that second name a time of day. A nanosecond count of a thousand million
/// or more stands for a leap second, and may only follow second 59 of a minute.
pub open spec fn valid_parts(secs: nat, frac: nat) -> bool {
    &&& secs < 86_400
    &&& frac < 2_000_000_000
    &&& (frac >= 1_000_000_000 ==> secs % 60 == 59)
}

/// A wall-clock time of day: whole seconds since midnight and the nanoseconds
/// since that whole second. A time within a leap second has the seconds of
/// second 59 and a thousand million nanoseconds or more.
#[derive(Clone, Copy, Debug, PartialEq, Eq, Hash)]
pub struct TimeOfDay {
    pub secs: u32,
    pub frac: u32,
}

impl TimeOfDay {
    /// Whether the two fields name a time of day.
    pub open spec fn is_valid(self) -> bool {
        valid_parts(self.secs as nat, self.frac as nat)
    }

    /// Whether this time is `other` or comes before it. Times are ordered by
    /// their seconds and, within one second, by their nanoseconds: so a leap
    /// second comes after second 59 and before the minute that follows.
    pub open spec fn at_or_before(self, other: TimeOfDay) -> bool {
        self.secs < other.secs || (self.secs == other.secs && self.frac <= other.frac)
    }

    /// Whether this time lies within a leap second.
    pub open spec fn in_leap_second(self) -> bool {
        self.frac >= 1_000_000_000
    }

    /// The time `secs` seconds and `nanos` nanoseconds after midnight, where
    /// the two name a time of day.
    pub fn from_seconds(secs: u32, nanos: u32) -> (r: Option<TimeOfDay>)
        ensures
            r == (if valid_parts(secs as nat, nanos as nat) {
                Some(TimeOfDay { secs, frac: nanos })
            } else {
                None
            }),
    {
        if secs >= 86_400 || nanos >= 2_000_000_000 || (nanos >= 1_000_000_000 && secs % 60 != 59) {
            None
        } else {
            Some(TimeOfDay { secs, frac: nanos })
        }
    }

    /// The time at the given hour, minute and second, where those are in range.
    pub fn from_hms(hour: u32, min: u32, sec: u32) -> (r: Option<TimeOfDay>)
        ensures
            r == (if hour < 24 && min < 60 && sec < 60 {
                Some(TimeOfDay { secs: (hour * 3600 + min * 60 + sec) as u32, frac: 0 })
            } else {
                None
            }),
            r matches Some(t) ==> t.is_valid(),
    {
        TimeOfDay::from_hms_nano(hour, min, sec, 0)
    }

    /// The time at the given hour, minute, second and nanosecond. A nanosecond
    /// count of a thousand million or more is a leap second and needs `sec` to be 59.
    pub fn from_hms_nano(hour: u32, min: u32, sec: u32, nano: u32) -> (r: Option<TimeOfDay>)
        ensures
            r == (if hour < 24 && min < 60 && sec < 60 && nano < 2_000_000_000 && (nano
                >= 1_000_000_000 ==> sec == 59) {
                Some(TimeOfDay { secs: (hour * 3600 + min * 60 + sec) as u32, frac: nano })
            } else {
                None
            }),
            r matches Some(t) ==> t.is_valid(),
    {
        if hour >= 24 || min >= 60 || sec >= 60 || nano >= 2_000_000_000 || (nano >= 1_000_000_000
            && sec != 59) {
            None
        } else {
            let secs: u32 = hour * 3600 + min * 60 + sec;
            Some(TimeOfDay { secs, frac: nano })
        }
    }

    /// Whether the two fields name a time of day.
    pub fn check_valid(&self) -> (r: bool)
        ensures
            r == self.is_valid(),
    {
        self.secs < 86_400 && self.frac < 2_000_000_000 && (self.frac < 1_000_000_000 || self.secs
            % 60 == 59)
    }

    /// Whether this time is at or after `other`.
    pub fn is_at_or_after(&self, other: &TimeOfDay) -> (r: bool)
        ensures
            r == other.at_or_before(*self),
    {
        self.secs > other.secs || (self.secs == other.secs && self.frac >= other.frac)
    }

    /// Whole seconds from this time to `later`; none where `later` is not later.
    pub fn seconds_until(&self, later: &TimeOfDay) -> (r: u64)
        ensures
            r == whole_seconds(*self, *later),
    {
        if later.secs < self.secs {
            0
        } else if later.secs == self.secs {
            if later.frac > self.frac {
                let nanos: u64 = (later.frac - self.frac) as u64;
                nanos / NANOS_PER_SECOND
            } else {
                0
            }
        } else {
            let seconds: u64 = (later.secs - self.secs) as u64;
            let leap: u64 = if self.frac >= 1_000_000_000 {
                NANOS_PER_SECOND
            } else {
                0
            };
            let gained: u64 = seconds * NANOS_PER_SECOND + later.frac as u64 + leap;
            let lost: u64 = self.frac as u64;
            if gained > lost {
                (gained - lost) / NANOS_PER_SECOND
            } else {
                0
            }
        }
    }
}

/// The nanoseconds from `from` to `to`: the difference of the seconds and of
/// the nanoseconds within them, and one second more where `from` lies within
/// a leap second that ends before `to`. A leap second is counted where one of
/// the two times lies in it, and not otherwise.
pub open spec fn span_nanos(from: TimeOfDay, to: TimeOfDay) -> int {
    (to.secs - from.secs) * 1_000_000_000 + (to.frac - from.frac) + if to.secs > from.secs
        && from.in_leap_second() {
        1_000_000_000int
    } else {
        0int
    }
}

/// Whole seconds that pass from `from` to `to`. A part of a second is dropped,
/// and a span that runs backwards counts as empty.
pub open spec fn whole_seconds(from: TimeOfDay, to: TimeOfDay) -> nat {
    if from.at_or_before(to) && span_nanos(from, to) > 0 {
        (span_nanos(from, to) / 1_000_000_000) as nat
    } else {
        0
    }
}

/// The boundary at which scoring stops.
#[derive(Clone, Copy, Debug, PartialEq, Eq)]
pub struct MatchWindow {
    pub end: TimeOfDay,
}

impl MatchWindow {
    /// A window that closes at `end`.
    pub fn new(end: TimeOfDay) -> (r: MatchWindow)
        ensures
            r.end == end,
    {
        MatchWindow { end }
    }

    /// The time at which the match ends.
    pub fn end(&self) -> (r: TimeOfDay)
        ensures
            r == self.end,
    {
        self.end
    }
}

} // verus!
