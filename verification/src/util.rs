use vstd::prelude::*;

verus! {

/// The seconds of an hour.
pub const HOUR: i64 = 3600;

/// The seconds of a day.
pub const DAY: i64 = 86400;

/// The local time for a time in UTC, in a zone `tz` hours east of UTC.
pub fn conv_utc_loc(time: i64, tz: i64) -> (local: i64)
    requires
        -12 <= tz <= 12,
        i64::MIN <= time + tz * 3600 <= i64::MAX,
    ensures
        local == time + tz * 3600,
{
    time + tz * HOUR
}

/// The time in UTC for a local time in a zone `tz` hours east of UTC.
pub fn conv_loc_utc(time: i64, tz: i64) -> (utc: i64)
    requires
        -12 <= tz <= 12,
        i64::MIN <= time - tz * 3600 <= i64::MAX,
    ensures
        utc == time - tz * 3600,
{
    time - tz * HOUR
}

/// The local time for the time `time` in UTC, in a zone `tz` hours east of
/// UTC, or nothing where it lies beyond the times that 64 bits hold.
pub open spec fn local_of(time: i64, tz: i32) -> Option<i64> {
    if i64::MIN <= time + tz * 3600 <= i64::MAX {
        Some((time + tz * 3600) as i64)
    } else {
        None::<i64>
    }
}

/// The local time for a time in UTC, or nothing where it lies beyond the
/// times that 64 bits hold.
pub fn local_time(time: i64, tz: i32) -> (local: Option<i64>)
    requires
        -12 <= tz <= 12,
    ensures
        local == local_of(time, tz),
{
    let shift: i64 = (tz as i64) * HOUR;
    time.checked_add(shift)
}

/// The seconds since 1970 at which the minute `min` of the hour `h` begins
/// on the day `d` of the month `m` of the year `y`, counted as in UTC; nothing
/// where the calendar of chrono has no such day or the day no such minute.
pub uninterp spec fn minute_timestamp(y: i32, m: u32, d: u32, h: u32, min: u32) -> Option<i64>;

/// The days from the first of the two days of the calendar, each given as
/// year, month and day, to the second; nothing where the calendar of chrono
/// lacks one of them.
pub uninterp spec fn days_between(y1: i32, m1: u32, d1: u32, y2: i32, m2: u32, d2: u32) -> Option<
    i64,
>;

/// What chrono makes of a date and a time of day: `NaiveDate::from_ymd_opt`,
/// then `NaiveDate::and_hms_opt` with no seconds, read as UTC by
/// `NaiveDateTime::and_utc` and counted by `DateTime::timestamp`. The contract
/// gives this result a name and says no more of it; the first two calls
/// return nothing for what is no date or no time, the other two always
/// return.
#[verifier::external_body]
fn minute_of(y: i32, m: u32, d: u32, h: u32, min: u32) -> (r: Option<i64>)
    ensures
        r == minute_timestamp(y, m, d, h, min),
{
    match chrono::NaiveDate::from_ymd_opt(y, m, d) {
        None => None,
        Some(date) => match date.and_hms_opt(h, min, 0) {
            None => None,
            Some(time) => Some(time.and_utc().timestamp()),
        },
    }
}

/// What chrono counts between two dates: `NaiveDate::from_ymd_opt` for each,
/// then `NaiveDate::signed_duration_since` and `TimeDelta::num_days`. The
/// contract gives this result a name and says no more of it; the first call
/// returns nothing for what is no date, the other two always return.
#[verifier::external_body]
fn days_from_to(y1: i32, m1: u32, d1: u32, y2: i32, m2: u32, d2: u32) -> (r: Option<i64>)
    ensures
        r == days_between(y1, m1, d1, y2, m2, d2),
{
    match (chrono::NaiveDate::from_ymd_opt(y1, m1, d1), chrono::NaiveDate::from_ymd_opt(y2, m2, d2)) {
        (Some(from), Some(to)) => Some(to.signed_duration_since(from).num_days()),
        _ => None,
    }
}

/// The numbers name a year, a month, a day, an hour and a minute that the
/// machine can hand to the calendar.
pub open spec fn fits_calendar(y: i64, m: i64, d: i64, h: i64, min: i64) -> bool {
    &&& i32::MIN <= y <= i32::MAX
    &&& 0 <= m <= u32::MAX
    &&& 0 <= d <= u32::MAX
    &&& 0 <= h <= u32::MAX
    &&& 0 <= min <= u32::MAX
}

/// The seconds since 1970 at which the given minute of the given day
/// begins; nothing where there is no such day or minute.
pub fn parse_year_month_date(y: i64, m: i64, d: i64, h: i64, min: i64) -> (r: Option<i64>)
    ensures
        r == if fits_calendar(y, m, d, h, min) {
            minute_timestamp(y as i32, m as u32, d as u32, h as u32, min as u32)
        } else {
            None
        },
{
    if y < i32::MIN as i64 || y > i32::MAX as i64 {
        return None;
    }
    if m < 0 || m > u32::MAX as i64 || d < 0 || d > u32::MAX as i64 {
        return None;
    }
    if h < 0 || h > u32::MAX as i64 || min < 0 || min > u32::MAX as i64 {
        return None;
    }
    minute_of(y as i32, m as u32, d as u32, h as u32, min as u32)
}

/// The days of the month `month` of the year `year`: those from its first
/// day to the first day of the month after it. Nothing where the calendar
/// lacks one of the two days.
pub fn get_days_from_month(year: i32, month: u32) -> (r: Option<i64>)
    ensures
        r == if month == 12 {
            if year < i32::MAX {
                days_between(year, 12, 1, (year + 1) as i32, 1, 1)
            } else {
                None
            }
        } else if month < u32::MAX {
            days_between(year, month, 1, year, (month + 1) as u32, 1)
        } else {
            None
        },
{
    if month == 12 {
        if year == i32::MAX {
            return None;
        }
        days_from_to(year, 12, 1, year + 1, 1, 1)
    } else {
        if month == u32::MAX {
            return None;
        }
        days_from_to(year, month, 1, year, month + 1, 1)
    }
}

} // verus!
