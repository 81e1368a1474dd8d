//! The packed timestamp of a file entry as a civil date and time.

use vstd::prelude::*;
use crate::entry::FileEntryMeta;

verus! {

/// A date and a time of day on the proleptic Gregorian calendar, without a time zone.
#[derive(Debug, Clone, Copy, PartialEq, Eq, Structural)]
pub struct CivilDateTime {
    pub year: i16,
    pub month: i8,
    pub day: i8,
    pub hour: i8,
    pub minute: i8,
    pub second: i8,
}

/// Whether `year` has a 29th of February.
pub open spec fn is_leap_year(year: int) -> bool {
    year % 4 == 0 && (year % 100 != 0 || year % 400 == 0)
}

/// Number of days of the given month, which lies in `1..=12`.
pub open spec fn days_in_month(year: int, month: int) -> int {
    if month == 2 {
        if is_leap_year(year) {
            29
        } else {
            28
        }
    } else if month == 4 || month == 6 || month == 9 || month == 11 {
        30
    } else {
        31
    }
}

/// The fields name a day that exists and a time of day.
pub open spec fn valid_civil(c: CivilDateTime) -> bool {
    &&& -9999 <= c.year <= 9999
    &&& 1 <= c.month <= 12
    &&& 1 <= c.day <= days_in_month(c.year as int, c.month as int)
    &&& 0 <= c.hour <= 23
    &&& 0 <= c.minute <= 59
    &&& 0 <= c.second <= 59
}

/// The fields packed into a timestamp, lowest bits first: seconds (6 bits),
/// minutes (6), hours (5), day (5), month (4), then the years since 2000.
pub open spec fn unpack_timestamp(timestamp: u32) -> CivilDateTime {
    CivilDateTime {
        year: (timestamp / 0x400_0000 + 2000) as i16,
        month: (timestamp / 0x40_0000 % 16) as i8,
        day: (timestamp / 0x2_0000 % 32) as i8,
        hour: (timestamp / 0x1000 % 32) as i8,
        minute: (timestamp / 0x40 % 64) as i8,
        second: (timestamp % 64) as i8,
    }
}

/// The date and time that a packed timestamp names, or `None` where the
/// fields name no valid date.
pub open spec fn spec_timestamp(timestamp: u32) -> Option<CivilDateTime> {
    if valid_civil(unpack_timestamp(timestamp)) {
        Some(unpack_timestamp(timestamp))
    } else {
        None
    }
}

/// `jiff::civil::DateTime::new` with zero nanoseconds, read back through its
/// getters: it accepts exactly the years -9999 to 9999, months 1 to 12, days
/// that the month has, hours to 23, minutes and seconds to 59, and the
/// resulting value reports the fields it was made from.
#[verifier::external_body]
fn civil_from_fields(c: CivilDateTime) -> (r: Option<CivilDateTime>)
    ensures
        r == (if valid_civil(c) {
            Some(c)
        } else {
            None
        }),
{
    match jiff::civil::DateTime::new(c.year, c.month, c.day, c.hour, c.minute, c.second, 0) {
        Ok(dt) => Some(
            CivilDateTime {
                year: dt.year(),
                month: dt.month(),
                day: dt.day(),
                hour: dt.hour(),
                minute: dt.minute(),
                second: dt.second(),
            },
        ),
        Err(_) => None,
    }
}

/// Splits a packed timestamp into its fields.
pub fn unpack(timestamp: u32) -> (r: CivilDateTime)
    ensures
        r == unpack_timestamp(timestamp),
        2000 <= r.year <= 2063,
        0 <= r.month <= 15,
        0 <= r.day <= 31,
        0 <= r.hour <= 31,
        0 <= r.minute <= 63,
        0 <= r.second <= 63,
{
    CivilDateTime {
        year: (timestamp / 0x400_0000 + 2000) as i16,
        month: (timestamp / 0x40_0000 % 16) as i8,
        day: (timestamp / 0x2_0000 % 32) as i8,
        hour: (timestamp / 0x1000 % 32) as i8,
        minute: (timestamp / 0x40 % 64) as i8,
        second: (timestamp % 64) as i8,
    }
}

impl FileEntryMeta {
    /// Returns this file's timestamp. For directories there is no timestamp information
    /// and this will return `None`. For files, this returns the recorded date and time,
    /// or `None` where the stored fields name no valid date. No time zone is recorded.
    pub fn parsed_timestamp(&self) -> (r: Option<CivilDateTime>)
        ensures
            r == match *self {
                FileEntryMeta::Folder { .. } => None,
                FileEntryMeta::File { timestamp, .. } => spec_timestamp(timestamp),
            },
    {
        match self {
            FileEntryMeta::Folder { .. } => None,
            FileEntryMeta::File { timestamp, .. } => civil_from_fields(unpack(*timestamp)),
        }
    }
}

} // verus!
