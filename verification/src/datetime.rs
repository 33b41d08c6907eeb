//! Points in time with an explicit timezone offset.
//!
//! A [`DateTime`] holds a Unix timestamp and the seconds to add to local
//! time to reach UTC, the way timestamps are persisted. Construction
//! rejects an offset of a day or more, and any timestamp outside the range
//! the calendar arithmetic underneath can represent.

use vstd::prelude::*;

verus! {

/// An error from constructing a point in time.
#[derive(Clone, Copy, PartialEq, Eq, Structural, Debug)]
pub enum DateTimeError {
    /// The timezone offset was a day or more, either way.
    InvalidTimezone,
    /// The timestamp lies outside the representable range.
    InvalidTimestamp,
}

/// True when the calendar arithmetic underneath represents this timestamp.
pub uninterp spec fn timestamp_in_range(secs: int) -> bool;

/// Relies on chrono's `FixedOffset::west_opt`, which is `Some` exactly for
/// offsets strictly between -86400 and 86400, and `TimeZone::timestamp_opt`
/// with zero nanoseconds, which is a single result exactly when the seconds
/// are within chrono's representable range and `None` otherwise.
#[verifier::external_body]
fn chrono_validate(secs: i64, tz_offset_secs: i32) -> (r: bool)
    ensures
        r == (-86400 < tz_offset_secs && tz_offset_secs < 86400 && timestamp_in_range(secs as int)),
{
    match chrono::FixedOffset::west_opt(tz_offset_secs) {
        Some(tz) => matches!(
            chrono::TimeZone::timestamp_opt(&tz, secs, 0),
            chrono::MappedLocalTime::Single(_)
        ),
        None => false,
    }
}

/// A point in time: a Unix timestamp and the seconds to add to local time
/// to reach UTC.
#[derive(Clone, Copy, PartialEq, Eq, Structural, Debug, Hash)]
pub struct DateTime {
    timestamp_secs: i64,
    tz_offset_secs: i32,
}

/// A timestamp and offset in their persisted record form.
#[derive(Clone, Copy, PartialEq, Eq, Structural, Debug, Hash)]
pub struct DateTimeRecord {
    pub timestamp_secs: i64,
    pub tz_offset_secs: i32,
}

impl DateTime {
    /// True of the field values every constructed value carries.
    pub open spec fn is_valid(&self) -> bool {
        &&& -86400 < self.spec_tz_offset_secs() < 86400
        &&& timestamp_in_range(self.spec_timestamp_secs() as int)
    }

    /// The Unix timestamp, in UTC.
    pub closed spec fn spec_timestamp_secs(&self) -> i64 {
        self.timestamp_secs
    }

    /// The seconds to add to local time to reach UTC.
    pub closed spec fn spec_tz_offset_secs(&self) -> i32 {
        self.tz_offset_secs
    }

    /// Construct a point in time, rejecting an out-of-range offset or
    /// timestamp; succeeds exactly on representable inputs.
    pub fn from_timestamp(secs: i64, tz_offset_secs: i32) -> (r: Result<Self, DateTimeError>)
        ensures
            match r {
                Ok(dt) => dt.spec_timestamp_secs() == secs && dt.spec_tz_offset_secs()
                    == tz_offset_secs && dt.is_valid(),
                Err(DateTimeError::InvalidTimezone) => !(-86400 < tz_offset_secs < 86400),
                Err(DateTimeError::InvalidTimestamp) => -86400 < tz_offset_secs < 86400 && !timestamp_in_range(
                    secs as int,
                ),
            },
            r is Ok <==> (-86400 < tz_offset_secs < 86400 && timestamp_in_range(secs as int)),
    {
        if tz_offset_secs <= -86400 || tz_offset_secs >= 86400 {
            return Err(DateTimeError::InvalidTimezone);
        }
        if !chrono_validate(secs, tz_offset_secs) {
            return Err(DateTimeError::InvalidTimestamp);
        }
        Ok(DateTime { timestamp_secs: secs, tz_offset_secs })
    }

    /// Construct a point in time from its persisted record form.
    pub fn from_thrift(dt: DateTimeRecord) -> (r: Result<Self, DateTimeError>)
        ensures
            match r {
                Ok(d) => d.spec_timestamp_secs() == dt.timestamp_secs && d.spec_tz_offset_secs()
                    == dt.tz_offset_secs && d.is_valid(),
                Err(_) => true,
            },
            r is Ok <==> (-86400 < dt.tz_offset_secs < 86400 && timestamp_in_range(
                dt.timestamp_secs as int,
            )),
    {
        Self::from_timestamp(dt.timestamp_secs, dt.tz_offset_secs)
    }

    /// The persisted record form of this point in time.
    pub fn into_thrift(self) -> (r: DateTimeRecord)
        ensures
            r.timestamp_secs == self.spec_timestamp_secs(),
            r.tz_offset_secs == self.spec_tz_offset_secs(),
    {
        DateTimeRecord {
            timestamp_secs: self.timestamp_secs,
            tz_offset_secs: self.tz_offset_secs,
        }
    }

    /// The Unix timestamp, in UTC.
    pub fn timestamp_secs(&self) -> (r: i64)
        ensures
            r == self.spec_timestamp_secs(),
    {
        self.timestamp_secs
    }

    /// The seconds to add to local time to reach UTC.
    pub fn tz_offset_secs(&self) -> (r: i32)
        ensures
            r == self.spec_tz_offset_secs(),
    {
        self.tz_offset_secs
    }
}

} // verus!
