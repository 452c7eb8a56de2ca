//! Calendar days.
//!
//! The library counts days as Julian day numbers; the `time` crate turns
//! them into calendar dates and text, and reads dates from text.
use vstd::prelude::*;

use crate::gitcache::JulianDay;
use crate::text::{push_padded, zero_padded};

verus! {

/// The first day `time::Date` represents, -9999-01-01.
pub const MIN_DAY: JulianDay = -1_930_999;

/// The last day `time::Date` represents, 9999-12-31.
pub const MAX_DAY: JulianDay = 5_373_484;

/// The (year, month, day) of a Julian day, when `time` represents it.
pub uninterp spec fn calendar_of(day: i32) -> Option<(i32, u8, u8)>;

/// The day written as `[year]-[month]-[day]` by `time` (the empty text
/// when `time` does not represent the day).
pub uninterp spec fn ymd_text_of(day: i32) -> Seq<char>;

/// The day that `time` reads from text in the `[year]-[month]-[day]` form.
pub uninterp spec fn ymd_day_of(text: Seq<char>) -> Option<i32>;

/// The UTC day of an ISO 8601 date and time with offset, as `time` reads it.
pub uninterp spec fn iso8601_utc_day_of(text: Seq<char>) -> Option<i32>;

/// An instant, given in nanoseconds since the Unix epoch, written by `time`
/// in RFC 3339 form (the empty text when it cannot be written).
pub uninterp spec fn rfc3339_text_of(unix_nanos: i128) -> Seq<char>;

/// `time::Date::from_julian_day` followed by `Date::to_calendar_date`: the
/// year, month number and day of the month. `time` represents exactly the
/// days from -9999-01-01 to 9999-12-31; months run 1 to 12, days 1 to 31.
#[verifier::external_body]
pub(crate) fn calendar_date(day: JulianDay) -> (r: Option<(i32, u8, u8)>)
    ensures
        r == calendar_of(day),
        r is Some <==> MIN_DAY <= day <= MAX_DAY,
        r matches Some((y, m, d)) ==> -9999 <= y <= 9999 && 1 <= m <= 12 && 1 <= d <= 31,
{
    match time::Date::from_julian_day(day) {
        Ok(date) => {
            let (y, m, d) = date.to_calendar_date();
            Some((y, u8::from(m), d))
        },
        Err(_) => None,
    }
}

/// `time::Date::format` with the description `[year]-[month]-[day]`, on the
/// date `time::Date::from_julian_day` gives; the empty string where either
/// fails. Nothing is claimed of the text beyond its name.
#[verifier::external_body]
pub(crate) fn format_ymd(day: JulianDay) -> (r: String)
    ensures
        r@ == ymd_text_of(day),
{
    let fmt = match time::format_description::parse("[year]-[month]-[day]") {
        Ok(f) => f,
        Err(_) => return String::new(),
    };
    match time::Date::from_julian_day(day) {
        Ok(date) => date.format(&fmt).unwrap_or_default(),
        Err(_) => String::new(),
    }
}

/// `time::Date::parse` with the description `[year]-[month]-[day]`,
/// as a Julian day. A day `time` gives lies in its range.
#[verifier::external_body]
pub(crate) fn parse_ymd(text: &str) -> (r: Option<JulianDay>)
    ensures
        r == ymd_day_of(text@),
        r matches Some(d) ==> MIN_DAY <= d <= MAX_DAY,
{
    let fmt = match time::format_description::parse("[year]-[month]-[day]") {
        Ok(f) => f,
        Err(_) => return None,
    };
    match time::Date::parse(text, &fmt) {
        Ok(date) => Some(date.to_julian_day()),
        Err(_) => None,
    }
}

/// `time::OffsetDateTime::parse` with the default ISO 8601 configuration,
/// then `checked_to_offset(UTC)` and the date, as a Julian day. A day
/// `time` gives lies in its range.
#[verifier::external_body]
pub(crate) fn parse_iso8601_utc_day(text: &str) -> (r: Option<JulianDay>)
    ensures
        r == iso8601_utc_day_of(text@),
        r matches Some(d) ==> MIN_DAY <= d <= MAX_DAY,
{
    match time::OffsetDateTime::parse(text, &time::format_description::well_known::Iso8601::DEFAULT) {
        Ok(t) => match t.checked_to_offset(time::UtcOffset::UTC) {
            Some(u) => Some(u.date().to_julian_day()),
            None => None,
        },
        Err(_) => None,
    }
}

/// `time::OffsetDateTime::from_unix_timestamp_nanos` followed by
/// `format(&Rfc3339)`; the empty string where either fails.
#[verifier::external_body]
pub(crate) fn format_rfc3339(unix_nanos: i128) -> (r: String)
    ensures
        r@ == rfc3339_text_of(unix_nanos),
{
    match time::OffsetDateTime::from_unix_timestamp_nanos(unix_nanos) {
        Ok(t) => t.format(&time::format_description::well_known::Rfc3339).unwrap_or_default(),
        Err(_) => String::new(),
    }
}

/// `format!("{:04}-{:02}-{:02}", year, month, day)`.
pub open spec fn iso_ymd_text(y: i32, m: u8, d: u8) -> Seq<char> {
    let year = if y < 0 {
        seq!['-'] + zero_padded((-y) as nat, 3)
    } else {
        zero_padded(y as nat, 4)
    };
    year + seq!['-'] + zero_padded(m as nat, 2) + seq!['-'] + zero_padded(d as nat, 2)
}

/// The day as `year-month-day`, the year zero-padded to four characters
/// (sign included) and month and day to two, as
/// `format!("{:04}-{:02}-{:02}", ..)` writes them; `None` where `time`
/// does not represent the day.
pub fn iso_date(day: JulianDay) -> (r: Option<Vec<char>>)
    ensures
        calendar_of(day) is Some <==> MIN_DAY <= day <= MAX_DAY,
        match calendar_of(day) {
            Some((y, m, d)) => r matches Some(v) && v@ == iso_ymd_text(y, m, d),
            None => r is None,
        },
{
    match calendar_date(day) {
        Some((y, m, d)) => {
            let mut v: Vec<char> = Vec::new();
            if y < 0 {
                v.push('-');
                push_padded(&mut v, (-y) as u64, 3);
            } else {
                push_padded(&mut v, y as u64, 4);
            }
            v.push('-');
            push_padded(&mut v, m as u64, 2);
            v.push('-');
            push_padded(&mut v, d as u64, 2);
            assert(v@ =~= iso_ymd_text(y, m, d));
            Some(v)
        },
        None => None,
    }
}

} // verus!
