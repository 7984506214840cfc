use vstd::prelude::*;
use crate::model::{Datetime, Date, HostTime, Offset, Time, TzInfo};

verus! {

/// Integer division that rounds toward zero, as machine division does.
pub open spec fn div_toward_zero(a: int, b: int) -> int
    recommends
        b > 0,
{
    if a >= 0 {
        a / b
    } else {
        -((-a) / b)
    }
}

/// The offset that a host timezone gives a document: UTC stays `Z`; a fixed displacement
/// becomes whole minutes (sub-minute parts dropped toward zero), and is left out when
/// the minutes do not fit a signed 16-bit count.
pub open spec fn offset_of_tz(z: TzInfo) -> Option<Offset> {
    match z {
        TzInfo::Utc => Some(Offset::Z),
        TzInfo::Fixed { days, seconds } => {
            let m = div_toward_zero(days * 86400 + seconds, 60);
            if i16::MIN <= m <= i16::MAX {
                Some(Offset::Custom { minutes: m as i16 })
            } else {
                None
            }
        },
    }
}

/// The host timezone for a document offset: `Z` is UTC; `minutes` becomes a normalised
/// (days, seconds) displacement with floor division, so that seconds are never negative.
pub open spec fn tz_of_offset(o: Offset) -> TzInfo {
    match o {
        Offset::Z => TzInfo::Utc,
        Offset::Custom { minutes } => {
            let s = minutes * 60;
            if s < 0 {
                TzInfo::Fixed { days: (s / 86400) as i32, seconds: (s % 86400) as i32 }
            } else {
                TzInfo::Fixed { days: 0, seconds: s as i32 }
            }
        },
    }
}

/// A host time as a document time.
pub open spec fn doc_time_of(t: HostTime) -> Time {
    Time {
        hour: t.hour,
        minute: t.minute,
        second: t.second,
        nanosecond: (t.microsecond * 1000) as u32,
    }
}

/// A document time as a host time; nanoseconds are truncated to microseconds.
pub open spec fn host_time_of(t: Time) -> HostTime {
    HostTime {
        hour: t.hour,
        minute: t.minute,
        second: t.second,
        microsecond: (t.nanosecond / 1000) as u32,
    }
}

/// A host time is valid when its microseconds are below one second.
pub open spec fn valid_host_time(t: HostTime) -> bool {
    t.microsecond < 1_000_000
}

/// Converts a host timezone into a document offset.
pub fn to_offset(z: TzInfo) -> (r: Option<Offset>)
    ensures
        r == offset_of_tz(z),
{
    match z {
        TzInfo::Utc => Some(Offset::Z),
        TzInfo::Fixed { days, seconds } => {
            let total: i64 = days as i64 * 86400 + seconds as i64;
            let m: i64 = if total >= 0 { total / 60 } else { -((-total) / 60) };
            assert(m == div_toward_zero(days * 86400 + seconds, 60));
            if i16::MIN as i64 <= m && m <= i16::MAX as i64 {
                Some(Offset::Custom { minutes: m as i16 })
            } else {
                None
            }
        },
    }
}

/// Builds the host timezone for a document offset.
pub fn create_timezone_from_offset(o: Offset) -> (r: TzInfo)
    ensures
        r == tz_of_offset(o),
{
    match o {
        Offset::Z => TzInfo::Utc,
        Offset::Custom { minutes } => {
            let seconds: i32 = minutes as i32 * 60;
            if seconds < 0 {
                let magnitude: i32 = -seconds;
                let days: i32 = -((magnitude + 86399) / 86400);
                let rest: i32 = seconds - days * 86400;
                assert(days == seconds as int / 86400 && rest == seconds as int % 86400)
                    by (nonlinear_arith)
                    requires
                        seconds < 0,
                        magnitude == -seconds,
                        days == -((magnitude + 86399) / 86400),
                        rest == seconds - days * 86400,
                ;
                TzInfo::Fixed { days, seconds: rest }
            } else {
                TzInfo::Fixed { days: 0, seconds }
            }
        },
    }
}

/// Converts a valid host time into a document time.
pub fn make_time(t: HostTime) -> (r: Time)
    requires
        valid_host_time(t),
    ensures
        r == doc_time_of(t),
{
    Time { hour: t.hour, minute: t.minute, second: t.second, nanosecond: t.microsecond * 1000 }
}

/// Converts a document time into a host time, truncating to microseconds.
pub fn make_host_time(t: Time) -> (r: HostTime)
    ensures
        r == host_time_of(t),
{
    HostTime { hour: t.hour, minute: t.minute, second: t.second, microsecond: t.nanosecond / 1000 }
}

} // verus!
