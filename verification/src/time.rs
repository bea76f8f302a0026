use vstd::prelude::*;
use vstd::arithmetic::div_mod::{
    lemma_add_mod_noop, lemma_fundamental_div_mod, lemma_mod_division_less_than_divisor,
};
use vstd::arithmetic::mul::lemma_mul_inequality;
use std::time::SystemTime;

verus! {

/// Clamps a mathematical integer into the range of `u64`.
pub open spec fn clamp_u64(x: int) -> int {
    if x < 0 {
        0
    } else if x > u64::MAX {
        u64::MAX as int
    } else {
        x
    }
}

/// Relies on `SystemTime::now` and `SystemTime::duration_since`: the current
/// number of whole seconds since the Unix epoch by the system clock, or zero
/// when the clock reads earlier than the epoch.
#[verifier::external_body]
fn unix_time_now() -> u64 {
    match SystemTime::now().duration_since(SystemTime::UNIX_EPOCH) {
        Ok(d) => d.as_secs(),
        Err(_) => 0,
    }
}

/// Wherever the shifted timestamp fits the clock's range, the clamp in the
/// contracts below changes nothing: `Day::from_timestamp` then returns the
/// weekday with index `(shifted / 86400 + 3) % 7` — the Gregorian weekday
/// counted from the epoch's Thursday — and `Time::from_timestamp` the time
/// of day `shifted % 86400`.
pub proof fn lemma_shifted_clock(ts: u64, utc_offset: i8)
    requires
        0 <= ts + utc_offset as int * 3600 <= u64::MAX,
    ensures
        clamp_u64(ts + utc_offset as int * 3600) == ts + utc_offset as int * 3600,
        clamp_u64(ts + utc_offset as int * 3600) / 86400 == (ts + utc_offset as int * 3600)
            / 86400,
        clamp_u64(ts + utc_offset as int * 3600) % 86400 == (ts + utc_offset as int * 3600)
            % 86400,
{
}

/// Adds a signed offset of seconds to an unsigned timestamp, saturating at
/// both ends of the `u64` range.
pub fn add_offset(val: u64, offset: i32) -> (r: u64)
    ensures
        r as int == clamp_u64(val + offset),
{
    if offset < 0 {
        let mag: u64 = (-(offset as i64)) as u64;
        if val >= mag {
            val - mag
        } else {
            0
        }
    } else {
        let extra: u64 = offset as u64;
        if val <= u64::MAX - extra {
            val + extra
        } else {
            u64::MAX
        }
    }
}

/// A time of day, counted in seconds elapsed since local midnight.
#[derive(Clone, Copy, PartialEq, Eq, Structural, Debug)]
pub struct Time {
    data: u32,
}

impl Time {
    /// The number of seconds elapsed since midnight.
    pub closed spec fn view(&self) -> int {
        self.data as int
    }

    /// The elapsed-seconds value always lies within one day.
    pub open spec fn wf(&self) -> bool {
        0 <= self@ < 86400
    }

    /// Two times of day are equal exactly when their elapsed seconds agree.
    pub proof fn lemma_eq_is_view_eq(a: Time, b: Time)
        ensures
            (a == b) <==> (a@ == b@),
    {
    }

    /// Builds a time of day from a raw seconds count, reducing modulo one day.
    pub fn from_seconds(secs: u32) -> (r: Time)
        ensures
            r.wf(),
            r@ == secs as int % 86400,
    {
        Time { data: secs % 86400 }
    }

    /// The seconds elapsed since midnight.
    pub fn elapsed_seconds(&self) -> (r: u32)
        ensures
            r as int == self@,
    {
        self.data
    }

    /// The local time of day that a Unix timestamp falls on, for a clock
    /// shifted by the given whole number of hours from UTC.
    pub fn from_timestamp(timestamp: u64, utc_offset: i8) -> (r: Time)
        ensures
            r.wf(),
            r@ == clamp_u64(timestamp + utc_offset as int * 3600) % 86400,
    {
        let shifted: u64 = add_offset(timestamp, (utc_offset as i32) * 3600);
        Time { data: (shifted % 86400) as u32 }
    }

    /// The current local time of day with a given offset (in hours) from UTC.
    pub fn now(utc_offset: i8) -> (r: Time)
        ensures
            r.wf(),
    {
        Time::from_timestamp(unix_time_now(), utc_offset)
    }

    /// The seconds part of the stored time.
    pub fn seconds(&self) -> (r: u32)
        ensures
            r as int == self@ % 60,
    {
        self.data % 60
    }

    /// The minutes part of the stored time.
    pub fn minutes(&self) -> (r: u32)
        ensures
            r as int == (self@ / 60) % 60,
    {
        (self.data / 60) % 60
    }

    /// The hours part of the stored time.
    pub fn hours(&self) -> (r: u32)
        ensures
            r as int == self@ / 3600,
    {
        self.data / 3600
    }

    /// Splits the stored value into hours, minutes, and seconds.
    pub fn to_hms(&self) -> (r: (u8, u8, u8))
        requires
            self.wf(),
        ensures
            r.0 as int == self@ / 3600,
            r.1 as int == (self@ / 60) % 60,
            r.2 as int == self@ % 60,
    {
        let hours: u32 = self.hours();
        let minutes: u32 = self.minutes();
        let seconds: u32 = self.seconds();
        (hours as u8, minutes as u8, seconds as u8)
    }

    /// Combines hours, minutes, and seconds into a time of day; fields out of
    /// range are rejected.
    pub fn from_hms(hours: u8, minutes: u8, seconds: u8) -> (r: Option<Time>)
        ensures
            r is Some <==> hours < 24 && minutes < 60 && seconds < 60,
            r matches Some(t) ==> t.wf() && t@ == hours as int * 3600 + minutes as int * 60
                + seconds as int,
    {
        if hours >= 24 {
            return None;
        }
        if minutes >= 60 {
            return None;
        }
        if seconds >= 60 {
            return None;
        }
        Some(
            Time {
                data: ((hours as u32 * 60) + minutes as u32) * 60 + (seconds as u32),
            },
        )
    }
}

/// A day of the week.
#[derive(Clone, Copy, PartialEq, Eq, Structural, Debug)]
pub enum Day {
    Monday,
    Tuesday,
    Wednesday,
    Thursday,
    Friday,
    Saturday,
    Sunday,
}

/// The index of a weekday, counting Monday as 0 up to Sunday as 6.
pub open spec fn day_index(d: Day) -> int {
    match d {
        Day::Monday => 0,
        Day::Tuesday => 1,
        Day::Wednesday => 2,
        Day::Thursday => 3,
        Day::Friday => 4,
        Day::Saturday => 5,
        Day::Sunday => 6,
    }
}

impl Day {
    /// This day's number, counting Monday as 0 up to Sunday as 6.
    pub fn as_day_number(&self) -> (r: u8)
        ensures
            r as int == day_index(*self),
    {
        match self {
            Day::Monday => 0,
            Day::Tuesday => 1,
            Day::Wednesday => 2,
            Day::Thursday => 3,
            Day::Friday => 4,
            Day::Saturday => 5,
            Day::Sunday => 6,
        }
    }

    /// The day with the given number, counting Monday as 0 up to Sunday as 6.
    pub fn from_day_number(num: u8) -> (r: Option<Day>)
        ensures
            r is Some <==> num <= 6,
            r matches Some(d) ==> day_index(d) == num,
    {
        match num {
            0 => Some(Day::Monday),
            1 => Some(Day::Tuesday),
            2 => Some(Day::Wednesday),
            3 => Some(Day::Thursday),
            4 => Some(Day::Friday),
            5 => Some(Day::Saturday),
            6 => Some(Day::Sunday),
            _ => None,
        }
    }

    /// The weekday that a Unix day count falls on.  Day 0, the first of
    /// January 1970, was a Thursday.
    pub fn from_days_since_epoch(days: u64) -> (r: Day)
        ensures
            day_index(r) == (days + 3) % 7,
    {
        proof {
            lemma_add_mod_noop(days as int, 3, 7);
        }
        let num: u8 = ((days % 7 + 3) % 7) as u8;
        match Day::from_day_number(num) {
            Some(d) => d,
            None => Day::Monday,
        }
    }

    /// The local weekday that a Unix timestamp falls on, for a clock shifted
    /// by the given whole number of hours from UTC.
    pub fn from_timestamp(timestamp: u64, utc_offset: i8) -> (r: Day)
        ensures
            day_index(r) == (clamp_u64(timestamp + utc_offset as int * 3600) / 86400 + 3) % 7,
    {
        let shifted: u64 = add_offset(timestamp, (utc_offset as i32) * 3600);
        Day::from_days_since_epoch(shifted / 86400)
    }

    /// Today's weekday with a given offset (in hours) from UTC.
    pub fn today(utc_offset: i8) -> Day {
        Day::from_timestamp(unix_time_now(), utc_offset)
    }
}

/// Whether a year is a leap year of the proleptic Gregorian calendar.
pub open spec fn spec_is_leap_year(y: int) -> bool {
    (y % 4 == 0 && y % 100 != 0) || y % 400 == 0
}

/// Whether a year is a leap year of the proleptic Gregorian calendar.
pub fn is_leap_year(y: u64) -> (r: bool)
    ensures
        r == spec_is_leap_year(y as int),
{
    (y % 4 == 0 && y % 100 != 0) || y % 400 == 0
}

/// The number of days in a month, for months 1 through 12.
pub open spec fn spec_days_in_month(y: int, m: int) -> int {
    if m == 2 {
        if spec_is_leap_year(y) {
            29
        } else {
            28
        }
    } else if m == 4 || m == 6 || m == 9 || m == 11 {
        30
    } else {
        31
    }
}

/// The number of days in a month; months outside 1 through 12 are rejected.
pub fn days_in_month(y: u64, m: u64) -> (r: Option<u64>)
    ensures
        r is Some <==> 1 <= m <= 12,
        r matches Some(d) ==> d == spec_days_in_month(y as int, m as int),
{
    match m {
        1 | 3 | 5 | 7 | 8 | 10 | 12 => Some(31u64),
        4 | 6 | 9 | 11 => Some(30u64),
        2 => Some(
            if is_leap_year(y) {
                29u64
            } else {
                28u64
            },
        ),
        _ => None,
    }
}

/// The number of days from 1970-01-01 to the given civil date, following the
/// era decomposition of the civil calendar; negative for earlier dates.
pub open spec fn spec_days_from_civil(year: int, month: int, day: int) -> int {
    let y: int = if month <= 2 {
        year - 1
    } else {
        year
    };
    let m: int = if month <= 2 {
        month + 12
    } else {
        month
    };
    let era: int = y / 400;
    let yoe: int = y - era * 400;
    let doy: int = (153 * (m - 3) + 2) / 5 + day - 1;
    let doe: int = yoe * 365 + yoe / 4 - yoe / 100 + doy;
    era * 146097 + doe - 719468
}

/// Whether all six civil fields lie in their documented ranges.
pub open spec fn spec_valid_civil(
    year: int,
    month: int,
    day: int,
    hour: int,
    minute: int,
    second: int,
) -> bool {
    &&& 1 <= month <= 12
    &&& 1 <= day <= spec_days_in_month(year, month)
    &&& 0 <= hour < 24
    &&& 0 <= minute < 60
    &&& 0 <= second < 60
}

/// The Unix timestamp of a civil date and time, as a mathematical integer.
pub open spec fn spec_civil_to_unix(
    year: int,
    month: int,
    day: int,
    hour: int,
    minute: int,
    second: int,
) -> int {
    spec_days_from_civil(year, month, day) * 86400 + hour * 3600 + minute * 60 + second
}

/// Converts a civil date and time to a Unix timestamp.  Fields out of range,
/// dates before the epoch, and results past the end of the `u64` range are
/// all rejected.
pub fn ymd_hms_to_unix_seconds(
    year: u64,
    month: u64,
    day: u64,
    hour: u64,
    minute: u64,
    second: u64,
) -> (r: Option<u64>)
    ensures
        ({
            let valid = spec_valid_civil(
                year as int,
                month as int,
                day as int,
                hour as int,
                minute as int,
                second as int,
            );
            let total = spec_civil_to_unix(
                year as int,
                month as int,
                day as int,
                hour as int,
                minute as int,
                second as int,
            );
            if valid && 0 <= total <= u64::MAX {
                r == Some(total as u64)
            } else {
                r is None
            }
        }),
{
    if month < 1 || month > 12 {
        return None;
    }
    let dim: u64 = match days_in_month(year, month) {
        Some(d) => d,
        None => {
            return None;
        },
    };
    if day < 1 || day > dim {
        return None;
    }
    if hour >= 24 || minute >= 60 || second >= 60 {
        return None;
    }
    if year == 0 && month <= 2 {
        proof {
            lemma_civil_year_zero_before_epoch(month as int, day as int);
        }
        return None;
    }
    let y: u64 = if month <= 2 {
        year - 1
    } else {
        year
    };
    let m: u64 = if month <= 2 {
        month + 12
    } else {
        month
    };
    let era: u64 = y / 400;
    let yoe: u64 = y % 400;
    proof {
        lemma_fundamental_div_mod(y as int, 400);
        lemma_mod_division_less_than_divisor(y as int, 400);
        lemma_mul_inequality(yoe as int, 399, 365);
    }
    let doy: u64 = (153 * (m - 3) + 2) / 5 + day - 1;
    let doe: u64 = yoe * 365 + yoe / 4 - yoe / 100 + doy;
    let days0: u64 = match era.checked_mul(146097) {
        Some(v) => match v.checked_add(doe) {
            Some(w) => w,
            None => {
                proof {
                    lemma_civil_total_overflow(era as int, doe as int);
                }
                return None;
            },
        },
        None => {
            proof {
                lemma_civil_era_overflow(era as int, doe as int);
            }
            return None;
        },
    };
    if days0 < 719468 {
        return None;
    }
    let days: u64 = days0 - 719468;
    let hms: u64 = hour * 3600 + minute * 60 + second;
    match days.checked_mul(86400) {
        Some(v) => match v.checked_add(hms) {
            Some(total) => Some(total),
            None => None,
        },
        None => {
            proof {
                lemma_mul_inequality(
                    (u64::MAX / 86400 + 1) as int,
                    days as int,
                    86400,
                );
            }
            None
        },
    }
}

/// A date in year zero, January or February, lies far before the epoch.
proof fn lemma_civil_year_zero_before_epoch(month: int, day: int)
    requires
        1 <= month <= 2,
        1 <= day <= 31,
    ensures
        spec_days_from_civil(0, month, day) < 0,
{
    let y: int = -1;
    let era: int = y / 400;
    lemma_fundamental_div_mod(-1, 400);
    lemma_mod_division_less_than_divisor(-1, 400);
    assert(era == -1);
}

/// When the era count alone overflows `u64`, the timestamp cannot fit either.
proof fn lemma_civil_era_overflow(era: int, doe: int)
    requires
        era * 146097 > u64::MAX,
        doe >= 0,
    ensures
        (era * 146097 + doe - 719468) * 86400 > u64::MAX,
{
    let days: int = era * 146097 + doe - 719468;
    assert(days > u64::MAX - 719468);
    lemma_mul_inequality(u64::MAX - 719467, days, 86400);
}

/// When adding the day-of-era overflows `u64`, the timestamp cannot fit.
proof fn lemma_civil_total_overflow(era: int, doe: int)
    requires
        era >= 0,
        era * 146097 + doe > u64::MAX,
        doe >= 0,
    ensures
        (era * 146097 + doe - 719468) * 86400 > u64::MAX,
{
    let days: int = era * 146097 + doe - 719468;
    assert(days > u64::MAX - 719468);
    lemma_mul_inequality(u64::MAX - 719467, days, 86400);
}

/// Subtraction on integers, stopping at zero.
pub open spec fn monus(a: int, b: int) -> int {
    if a >= b {
        a - b
    } else {
        0
    }
}

/// The civil date that a Unix day count falls on, following the era
/// decomposition of the civil calendar: (year, month, day).
pub open spec fn spec_civil_from_days(days: int) -> (int, int, int) {
    let z: int = days + 719468;
    let era: int = z / 146097;
    let doe: int = z % 146097;
    let yoe: int = (doe - doe / 1460 + doe / 36524 - doe / 146096) / 365;
    let y: int = yoe + era * 400;
    let doy: int = monus(doe, 365 * yoe + yoe / 4 - yoe / 100);
    let mp: int = (5 * doy + 2) / 153;
    let d: int = doy - (153 * mp + 2) / 5 + 1;
    let m: int = if mp < 10 {
        mp + 3
    } else {
        mp - 9
    };
    (
        if m <= 2 {
            y + 1
        } else {
            y
        },
        m,
        d,
    )
}

/// Converts a Unix day count to its civil date: (year, month, day).
pub fn civil_from_days(days: u64) -> (r: (u64, u64, u64))
    requires
        days + 719468 <= u64::MAX,
    ensures
        (r.0 as int, r.1 as int, r.2 as int) == spec_civil_from_days(days as int),
{
    let z: u64 = days + 719468;
    let era: u64 = z / 146097;
    let doe: u64 = z % 146097;
    proof {
        lemma_mod_division_less_than_divisor(z as int, 146097);
    }
    let quot1460: u64 = doe / 1460;
    let quot36524: u64 = doe / 36524;
    let quot146096: u64 = doe / 146096;
    let t3: u64 = doe - quot1460 + quot36524 - quot146096;
    let yoe: u64 = t3 / 365;
    proof {
        lemma_mul_inequality(yoe as int, 401, 365);
        lemma_mul_inequality(era as int, (u64::MAX / 146097 + 1) as int, 400);
    }
    let y: u64 = yoe + era * 400;
    let start_of_year: u64 = 365 * yoe + yoe / 4 - yoe / 100;
    let doy: u64 = if doe >= start_of_year {
        doe - start_of_year
    } else {
        0
    };
    let mp: u64 = (5 * doy + 2) / 153;
    proof {
        lemma_fundamental_div_mod((5 * doy + 2) as int, 153);
        lemma_mod_division_less_than_divisor((5 * doy + 2) as int, 153);
        lemma_fundamental_div_mod((5 * doy + 4) as int, 5);
        lemma_mod_division_less_than_divisor((5 * doy + 4) as int, 5);
    }
    let d: u64 = doy - (153 * mp + 2) / 5 + 1;
    let m: u64 = if mp < 10 {
        mp + 3
    } else {
        mp - 9
    };
    (
        if m <= 2 {
            y + 1
        } else {
            y
        },
        m,
        d,
    )
}

} // verus!
