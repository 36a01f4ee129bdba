use vstd::prelude::*;

verus! {

/// The number of days from 1970-01-01 to a date of the proleptic Gregorian
/// calendar (negative before it): whole 400-year eras from 0000-03-01, then
/// the day within the era, counting years from March so that a leap day
/// falls at a year's end.
pub open spec fn days_from_civil(year: int, month: int, day: int) -> int {
    let y = if month <= 2 { year - 1 } else { year };
    let era = y / 400;
    let year_of_era = y - era * 400;
    let day_of_year = (153 * (month + if month > 2 { -3int } else { 9int }) + 2) / 5 + day - 1;
    let day_of_era = year_of_era * 365 + year_of_era / 4 - year_of_era / 100 + day_of_year;
    era * 146097 + day_of_era - 719468
}

/// Midnight at the start of a civil date, as seconds since the Unix epoch
/// when read as UTC.
pub open spec fn midnight_utc(year: int, month: int, day: int) -> int {
    days_from_civil(year, month, day) * 86400
}

/// The first moment that the calendar library represents: midnight of its
/// first date, 1 January of year -262143.
pub open spec fn first_moment() -> int {
    midnight_utc(-262143, 1, 1)
}

/// The last whole second that the calendar library represents: 23:59:59 of
/// its last date, 31 December of year 262142.
pub open spec fn last_moment() -> int {
    midnight_utc(262142, 12, 31) + 86399
}

/// A leap year of the proleptic Gregorian calendar.
pub open spec fn is_leap_year(year: int) -> bool {
    year % 4 == 0 && (year % 100 != 0 || year % 400 == 0)
}

/// The number of days of a month.
pub open spec fn days_in_month(year: int, month: int) -> int {
    if month == 2 {
        if is_leap_year(year) { 29 } else { 28 }
    } else if month == 4 || month == 6 || month == 9 || month == 11 {
        30
    } else {
        31
    }
}

/// A date of the proleptic Gregorian calendar within the years that the
/// calendar library represents.
pub open spec fn valid_date(year: int, month: int, day: int) -> bool {
    -262143 <= year <= 262142 && 1 <= month <= 12 && 1 <= day <= days_in_month(year, month)
}

/// Relies on chrono's `NaiveDate::from_ymd_opt`, which gives a date exactly
/// for the valid dates of its range, and on `and_hms_opt(0, 0, 0)`,
/// `and_utc` and `timestamp`, which give that date's midnight in seconds.
#[verifier::external_body]
fn civil_midnight(year: i32, month: u32, day: u32) -> (r: Option<i64>)
    ensures
        r is Some <==> valid_date(year as int, month as int, day as int),
        r matches Some(t) ==> t == midnight_utc(year as int, month as int, day as int),
{
    let date = chrono::NaiveDate::from_ymd_opt(year, month, day)?;
    Some(date.and_hms_opt(0, 0, 0)?.and_utc().timestamp())
}

/// The moment, in seconds since the epoch, at which a local midnight falls
/// when that midnight read as UTC is `midnight` and local time runs `offset`
/// seconds ahead of UTC; `None` when it does not fit.
pub fn threshold_from_midnight(midnight: i64, offset: i32) -> (r: Option<i64>)
    ensures
        r is Some <==> i64::MIN <= midnight - offset <= i64::MAX,
        r matches Some(t) ==> t == midnight - offset,
{
    midnight.checked_sub(offset as i64)
}

/// The moment at which local midnight of a civil date falls, for a local
/// time `offset` seconds ahead of UTC; `None` for a date that does not exist.
pub fn since_threshold(year: i32, month: u32, day: u32, offset: i32) -> (r: Option<i64>)
    ensures
        r is Some <==> (valid_date(year as int, month as int, day as int) && i64::MIN
            <= midnight_utc(year as int, month as int, day as int) - offset <= i64::MAX),
        r matches Some(t) ==> t == midnight_utc(year as int, month as int, day as int) - offset,
{
    match civil_midnight(year, month, day) {
        Some(m) => threshold_from_midnight(m, offset),
        None => None,
    }
}

} // verus!
