//! Calendar arithmetic on millisecond timestamps and day numbers, with chrono
//! doing the conversions. A date is held as its day number counted from
//! 1970-01-01 (day 0) in the proleptic Gregorian calendar.
use vstd::prelude::*;
use chrono::{Datelike, DateTime, FixedOffset, NaiveDate, TimeZone, Utc};

verus! {

pub open spec fn ms_per_day() -> int {
    86_400_000
}

/// The first year that chrono's dates cover.
pub open spec fn min_year() -> int {
    -262143
}

/// The last year that chrono's dates cover.
pub open spec fn max_year() -> int {
    262142
}

/// The day number of January 1 of `min_year()`.
pub open spec fn min_day() -> int {
    -96465292
}

/// The day number of December 31 of `max_year()`.
pub open spec fn max_day() -> int {
    95026236
}

/// A day that chrono's `NaiveDate` can represent.
pub open spec fn day_in_range(d: int) -> bool {
    min_day() <= d <= max_day()
}

/// The UTC day on which the millisecond timestamp `t` falls.
pub open spec fn utc_day(t: int) -> int {
    t / ms_per_day()
}

/// The local day on which `t` falls, in a zone `west` seconds behind UTC.
pub open spec fn local_day(t: int, west: int) -> int {
    (t - west * 1000) / ms_per_day()
}

/// chrono can place `t` both in UTC and in the zone `west` seconds behind UTC.
pub open spec fn timestamp_ok(t: int, west: int) -> bool {
    day_in_range(utc_day(t)) && day_in_range(local_day(t, west))
}

/// A valid fixed offset: strictly less than one day either way.
pub open spec fn offset_ok(west: int) -> bool {
    -86_400 < west < 86_400
}

/// Leap days counted by the Gregorian rule in years 1 through `n`.
pub open spec fn leap_count(n: int) -> int {
    n / 4 - n / 100 + n / 400
}

/// The day number of January 1 of year `y`.
pub open spec fn year_start(y: int) -> int {
    365 * (y - 1970) + leap_count(y - 1) - leap_count(1969)
}

/// The weekday of day `d`, counted from Sunday (0) to Saturday (6).
pub open spec fn weekday_from_sunday(d: int) -> int {
    (d + 4) % 7
}

/// The calendar year in which day `d` falls: the year whose span holds it.
pub open spec fn year_of(d: int) -> int {
    choose|y: int| #[trigger] year_start(y) <= d < year_start(y + 1)
}

/// chrono's `%b %-d, %Y` rendering of day `d` (for example `Jan 5, 2024`).
pub uninterp spec fn spec_date_label(d: int) -> Seq<char>;

/// chrono's `%m/%d/%y %H:%M` rendering, in UTC, of the millisecond timestamp `t`.
pub uninterp spec fn spec_utc_minute_stamp(t: int) -> Seq<char>;

/// The milliseconds since the epoch that chrono reads from an RFC 3339 timestamp,
/// or `None` where chrono refuses the text.
pub uninterp spec fn spec_rfc3339_millis(s: Seq<char>) -> Option<i64>;

/// Each year starts after the one before it.
pub proof fn lemma_year_start_step(y: int)
    ensures
        year_start(y) < year_start(y + 1),
{
    assert(y / 4 >= (y - 1) / 4);
    assert(y / 400 >= (y - 1) / 400);
    assert(y / 100 <= (y - 1) / 100 + 1);
}

/// Later years start later.
pub proof fn lemma_year_start_mono(a: int, b: int)
    requires
        a <= b,
    ensures
        year_start(a) <= year_start(b),
    decreases b - a,
{
    if a < b {
        lemma_year_start_step(b - 1);
        lemma_year_start_mono(a, b - 1);
    }
}

/// The days of the years that chrono covers are exactly the days in its range.
pub proof fn lemma_year_bounds()
    ensures
        year_start(min_year()) == min_day(),
        year_start(max_year() + 1) == max_day() + 1,
{
}

/// The days of a year that chrono covers all lie in its range.
pub proof fn lemma_year_days_in_range(y: int, d: int)
    requires
        min_year() <= y <= max_year(),
        year_start(y) <= d < year_start(y + 1),
    ensures
        day_in_range(d),
{
    lemma_year_bounds();
    lemma_year_start_mono(min_year(), y);
    lemma_year_start_mono(y + 1, max_year() + 1);
}

/// Exactly one year's span holds a day: the one `year_of` names.
pub proof fn lemma_year_of(y: int, d: int)
    requires
        year_start(y) <= d < year_start(y + 1),
    ensures
        year_of(d) == y,
{
    let z = year_of(d);
    assert(year_start(z) <= d < year_start(z + 1));
    if z < y {
        lemma_year_start_mono(z + 1, y);
    } else if y < z {
        lemma_year_start_mono(y + 1, z);
    }
}

#[verifier::external_body]
/// `FixedOffset::west_opt`: a zone `secs` seconds behind UTC exists exactly when
/// `|secs|` is under one day; the result is that zone's `utc_minus_local`.
pub fn west_offset(secs: i32) -> (r: Option<i32>)
    ensures
        r == (if offset_ok(secs as int) {
            Some(secs)
        } else {
            None
        }),
{
    match FixedOffset::west_opt(secs) {
        Some(tz) => Some(tz.utc_minus_local()),
        None => None,
    }
}

#[verifier::external_body]
/// `Utc.timestamp_millis_opt(t).unwrap().with_timezone(&tz).date_naive().to_epoch_days()`
/// for `tz = FixedOffset::west_opt(west)`: the local day on which `t` falls. chrono
/// panics unless both the UTC and the local date lie in its range.
pub fn local_day_of(t: i64, west: i32) -> (r: i32)
    requires
        offset_ok(west as int),
        timestamp_ok(t as int, west as int),
    ensures
        r as int == local_day(t as int, west as int),
{
    let tz = FixedOffset::west_opt(west).unwrap();
    Utc.timestamp_millis_opt(t).unwrap().with_timezone(&tz).date_naive().to_epoch_days()
}

#[verifier::external_body]
/// `NaiveDate::from_ymd_opt(year, 1, 1).unwrap().to_epoch_days()`: the day number
/// of January 1 of `year`, which chrono has for the years it covers.
pub fn year_start_day(year: i32) -> (r: i32)
    requires
        min_year() <= year <= max_year(),
    ensures
        r as int == year_start(year as int),
{
    NaiveDate::from_ymd_opt(year, 1, 1).unwrap().to_epoch_days()
}

#[verifier::external_body]
/// `NaiveDate::from_epoch_days(d).unwrap().weekday().num_days_from_sunday()`.
pub fn day_weekday_from_sunday(d: i32) -> (r: u32)
    requires
        day_in_range(d as int),
    ensures
        r as int == weekday_from_sunday(d as int),
{
    NaiveDate::from_epoch_days(d).unwrap().weekday().num_days_from_sunday()
}

#[verifier::external_body]
/// `NaiveDate::from_epoch_days(d).unwrap().year()`: the year whose span holds day `d`.
pub fn year_of_day(d: i32) -> (r: i32)
    requires
        day_in_range(d as int),
    ensures
        min_year() <= r <= max_year(),
        year_start(r as int) <= d < year_start(r + 1),
{
    NaiveDate::from_epoch_days(d).unwrap().year()
}

#[verifier::external_body]
/// `NaiveDate::from_epoch_days(d).unwrap().format("%b %-d, %Y").to_string()`.
pub fn date_label(d: i32) -> (r: String)
    requires
        day_in_range(d as int),
    ensures
        r@ == spec_date_label(d as int),
{
    NaiveDate::from_epoch_days(d).unwrap().format("%b %-d, %Y").to_string()
}

#[verifier::external_body]
/// `Utc.timestamp_millis_opt(t).unwrap().format("%m/%d/%y %H:%M").to_string()`.
pub fn utc_minute_stamp(t: i64) -> (r: String)
    requires
        day_in_range(utc_day(t as int)),
    ensures
        r@ == spec_utc_minute_stamp(t as int),
{
    Utc.timestamp_millis_opt(t).unwrap().format("%m/%d/%y %H:%M").to_string()
}

#[verifier::external_body]
/// `DateTime::parse_from_rfc3339(s)` followed by `timestamp_millis()`.
pub fn rfc3339_to_millis(s: &str) -> (r: Option<i64>)
    ensures
        r == spec_rfc3339_millis(s@),
{
    match DateTime::parse_from_rfc3339(s) {
        Ok(dt) => Some(dt.timestamp_millis()),
        Err(_) => None,
    }
}

} // verus!
