//! Moments and days.

use vstd::prelude::*;

verus! {

/// A moment, in milliseconds since the start of 1970.
#[derive(Clone, Copy, Debug, PartialEq, Eq, Structural)]
pub struct Timestamp {
    pub millis: i64,
}

/// A day, counted from the first of January 1970.
#[derive(Clone, Copy, Debug, PartialEq, Eq, Structural)]
pub struct Date {
    pub days: i64,
}

/// The milliseconds in a day.
pub const MILLIS_PER_DAY: i64 = 86_400_000;

/// The milliseconds in a minute.
pub const MILLIS_PER_MINUTE: i64 = 60_000;

/// The day a moment falls on.
pub open spec fn day_of(t: Timestamp) -> int {
    t.millis as int / MILLIS_PER_DAY as int
}

impl Timestamp {
    /// The day this moment falls on.
    pub fn date(self) -> (result: Date)
        ensures
            result.days == day_of(self),
    {
        if self.millis >= 0 {
            Date { days: self.millis / MILLIS_PER_DAY }
        } else {
            let q: i64 = (-(self.millis + 1)) / MILLIS_PER_DAY;
            proof {
                let m = self.millis as int;
                let n = -(m + 1);
                assert(m / 86_400_000 == -(n / 86_400_000) - 1) by (nonlinear_arith)
                    requires
                        n == -(m + 1),
                        n >= 0,
                ;
            }
            Date { days: -q - 1 }
        }
    }

    /// The moment this many minutes earlier. A negative number gives a later
    /// moment.
    pub fn minus_minutes(self, minutes: i64) -> (result: Timestamp)
        requires
            i64::MIN <= minutes * MILLIS_PER_MINUTE <= i64::MAX,
            i64::MIN <= self.millis - minutes * MILLIS_PER_MINUTE <= i64::MAX,
        ensures
            result.millis == self.millis - minutes * MILLIS_PER_MINUTE,
    {
        Timestamp { millis: self.millis - minutes * MILLIS_PER_MINUTE }
    }
}

/// A day has 24 hours, from one midnight to the next, also before 1970.
pub proof fn law_days_have_24_hours(t: Timestamp)
    ensures
        day_of(t) * 86_400_000 <= t.millis < (day_of(t) + 1) * 86_400_000,
        MILLIS_PER_DAY == 24 * 60 * MILLIS_PER_MINUTE,
        MILLIS_PER_MINUTE == 60 * 1000,
{
}

} // verus!
