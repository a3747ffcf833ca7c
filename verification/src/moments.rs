//! Moments in UTC, as far as a calendar date can express them.

use crate::timetable::Time;
use vstd::prelude::*;

verus! {

/// A calendar date was outside the years that can be expressed.
#[verifier::external_type_specification]
#[verifier::external_body]
pub struct ExComponentRange(time::error::ComponentRange);

/// The first second of the year -9999.
pub const FIRST_SECOND: i64 = -377_705_116_800;

/// The last second of the year 9999.
pub const LAST_SECOND: i64 = 253_402_300_799;

/// A moment: whole seconds since the Unix epoch, and nanoseconds after that second.
#[derive(Clone, Copy, PartialEq, Eq, Structural, Debug)]
pub struct UtcMoment {
    pub seconds: i64,
    pub nanos: u32,
}

/// A moment lies outside the years -9999 to 9999.
#[derive(Clone, Copy, PartialEq, Eq, Structural, Debug)]
pub struct OutOfRange {}

/// Converts seconds since the Unix epoch to a calendar date in UTC and back, by
/// `time::OffsetDateTime::from_unix_timestamp` and `unix_timestamp`.
///
/// Claimed: this fails exactly where the date lies outside the years -9999 to 9999, and gives
/// back the seconds otherwise.
#[verifier::external_body]
fn date_of_seconds(seconds: i64) -> (r: Result<i64, time::error::ComponentRange>)
    ensures
        r is Ok <==> FIRST_SECOND <= seconds <= LAST_SECOND,
        r matches Ok(s) ==> s == seconds,
{
    time::OffsetDateTime::from_unix_timestamp(seconds).map(|date| date.unix_timestamp())
}

/// Converts nanoseconds since the Unix epoch to a calendar date in UTC, and that to its second
/// and the nanoseconds within it, by `time::OffsetDateTime::from_unix_timestamp_nanos`,
/// `unix_timestamp` and `nanosecond`.
///
/// Claimed: this fails exactly where the date lies outside the years -9999 to 9999; otherwise
/// second and nanoseconds add up to the argument, and the latter are less than a second.
#[verifier::external_body]
fn date_of_nanos(nanos: i128) -> (r: Result<(i64, u32), time::error::ComponentRange>)
    ensures
        r is Ok <==> FIRST_SECOND * 1_000_000_000 <= nanos < (LAST_SECOND + 1) * 1_000_000_000,
        r matches Ok((s, n)) ==> s * 1_000_000_000 + n == nanos && n < 1_000_000_000,
{
    time::OffsetDateTime::from_unix_timestamp_nanos(nanos).map(
        |date| (date.unix_timestamp(), date.nanosecond()),
    )
}

impl UtcMoment {
    /// Nanoseconds since the Unix epoch.
    pub open spec fn total_nanos(self) -> int {
        self.seconds * 1_000_000_000 + self.nanos
    }

    /// A moment that a calendar date can express.
    pub open spec fn wf(self) -> bool {
        &&& FIRST_SECOND <= self.seconds <= LAST_SECOND
        &&& self.nanos < 1_000_000_000
    }

    /// The moment `seconds` after the Unix epoch.
    pub fn from_unix_timestamp(seconds: i64) -> (r: Result<UtcMoment, OutOfRange>)
        ensures
            r is Ok <==> FIRST_SECOND <= seconds <= LAST_SECOND,
            r matches Ok(m) ==> m.wf() && m.seconds == seconds && m.nanos == 0,
    {
        match date_of_seconds(seconds) {
            Ok(seconds) => Ok(UtcMoment { seconds, nanos: 0 }),
            Err(_) => Err(OutOfRange {  }),
        }
    }

    /// The moment `nanos` nanoseconds after the Unix epoch.
    pub fn from_unix_timestamp_nanos(nanos: i128) -> (r: Result<UtcMoment, OutOfRange>)
        ensures
            r is Ok <==> FIRST_SECOND * 1_000_000_000 <= nanos < (LAST_SECOND + 1) * 1_000_000_000,
            r matches Ok(m) ==> m.wf() && m.total_nanos() == nanos,
    {
        match date_of_nanos(nanos) {
            Ok((seconds, nanos)) => Ok(UtcMoment { seconds, nanos }),
            Err(_) => Err(OutOfRange {  }),
        }
    }

    /// The moment of a time of the timetable; a calendar date can express all of them.
    pub open spec fn at(t: Time) -> UtcMoment {
        UtcMoment { seconds: t.epoch_seconds as i64, nanos: 0 }
    }

    pub fn of_time(t: Time) -> (m: UtcMoment)
        ensures
            m == UtcMoment::at(t),
            m.wf(),
    {
        let seconds: i64 = t.epoch_seconds() as i64;
        match UtcMoment::from_unix_timestamp(seconds) {
            Ok(m) => m,
            Err(_) => {
                assert(false);
                UtcMoment { seconds, nanos: 0 }
            },
        }
    }
}

} // verus!
