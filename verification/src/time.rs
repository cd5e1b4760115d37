//! Points in time, held as nanoseconds since the Unix epoch.
use vstd::prelude::*;

verus! {

/// Nanoseconds in a second.
pub const NANOS_PER_SECOND: i128 = 1_000_000_000;
/// Nanoseconds in a minute.
pub const NANOS_PER_MINUTE: i128 = 60_000_000_000;

/// The earliest instant a `chrono::DateTime<Utc>` can hold.
pub const MIN_UTC_NANOS: i128 = -8_334_601_315_200_000_000_000;
/// The latest instant a `chrono::DateTime<Utc>` can hold.
pub const MAX_UTC_NANOS: i128 = 8_210_266_876_799_999_999_999;

/// An instant in UTC.
#[derive(Clone, Copy, Debug, PartialEq, Eq, Structural)]
pub struct Timestamp {
    pub nanos: i128,
}

/// Whether an instant lies in the range that `DateTime<Utc>` covers; past
/// it, date arithmetic has no result.
pub open spec fn in_utc_range(nanos: int) -> bool {
    MIN_UTC_NANOS <= nanos <= MAX_UTC_NANOS
}

/// Reads the system clock: `Utc::now()`, as whole seconds and the
/// nanoseconds past them.  Nothing is promised of the reading except the
/// ranges the types and `chrono`'s documentation give (the sub-second part
/// may exceed a second during a leap second).
#[verifier::external_body]
fn clock_reading() -> (r: (i64, u32))
    ensures
        r.1 < 2_000_000_000,
{
    let now = chrono::Utc::now();
    (now.timestamp(), now.timestamp_subsec_nanos())
}

impl Timestamp {
    /// The instant `secs` seconds and `subsec_nanos` nanoseconds after the
    /// epoch.
    pub fn from_parts(secs: i64, subsec_nanos: u32) -> (t: Timestamp)
        ensures
            t.nanos == secs * NANOS_PER_SECOND + subsec_nanos,
    {
        Timestamp { nanos: secs as i128 * NANOS_PER_SECOND + subsec_nanos as i128 }
    }

    /// The instant `nanos` nanoseconds after the epoch.
    pub fn from_nanos(nanos: i128) -> (t: Timestamp)
        ensures
            t.nanos == nanos,
    {
        Timestamp { nanos }
    }

    /// The current time.
    pub fn now() -> (t: Timestamp)
        ensures
            -100_000_000_000_000_000_000_000_000_000 < t.nanos < 100_000_000_000_000_000_000_000_000_000,
    {
        let (secs, subsec) = clock_reading();
        Timestamp::from_parts(secs, subsec)
    }

    /// This instant plus `minutes` minutes (negative moves back).  The
    /// result must stay in `DateTime<Utc>`'s range, past which
    /// `+ Duration::minutes(..)` has no result.
    pub fn plus_minutes(&self, minutes: i64) -> (t: Timestamp)
        requires
            in_utc_range(self.nanos + minutes * NANOS_PER_MINUTE),
        ensures
            t.nanos == self.nanos + minutes * NANOS_PER_MINUTE,
    {
        Timestamp { nanos: self.nanos + minutes as i128 * NANOS_PER_MINUTE }
    }

    /// This instant plus `seconds` seconds (negative moves back), within
    /// `DateTime<Utc>`'s range.
    pub fn plus_seconds(&self, seconds: i64) -> (t: Timestamp)
        requires
            in_utc_range(self.nanos + seconds * NANOS_PER_SECOND),
        ensures
            t.nanos == self.nanos + seconds * NANOS_PER_SECOND,
    {
        Timestamp { nanos: self.nanos + seconds as i128 * NANOS_PER_SECOND }
    }

    /// Whether this instant is strictly later than `other`.
    pub fn is_after(&self, other: &Timestamp) -> (b: bool)
        ensures
            b == (self.nanos > other.nanos),
    {
        self.nanos > other.nanos
    }
}

} // verus!
