//! Calendar days in UTC, counted from 1 January 1970.

use vstd::prelude::*;

verus! {

/// The number of seconds in one calendar day.
pub const SECONDS_PER_DAY: i64 = 86_400;

/// The first second that has a calendar date: midnight of 1 January of the
/// year -262143.
pub const MIN_TIMESTAMP: i64 = -8_334_601_228_800;

/// The last second that has a calendar date: the end of 31 December of the
/// year 262142.
pub const MAX_TIMESTAMP: i64 = 8_210_266_876_799;

/// Whether a count of seconds since the epoch falls on a calendar date.
pub open spec fn has_calendar_date(timestamp: int) -> bool {
    MIN_TIMESTAMP <= timestamp <= MAX_TIMESTAMP
}

/// The calendar day on which a second falls, as whole days since the epoch;
/// seconds before the epoch fall on negative days.
pub open spec fn day_of(timestamp: int) -> int {
    timestamp / 86_400
}

/// The day of the first calendar date: 1 January of the year -262143.
pub const MIN_DAY: i64 = -96_465_292;

/// The day of the last calendar date: 31 December of the year 262142.
pub const MAX_DAY: i64 = 95_026_236;

/// A calendar date in UTC.
#[derive(Clone, Copy, Debug, PartialEq, Eq, Structural)]
pub struct CalendarDate {
    /// Whole days since 1 January 1970; negative before it.
    pub days: i64,
}

/// The day on which `timestamp` falls.
pub fn day_number(timestamp: i64) -> (day: i64)
    ensures
        day == day_of(timestamp as int),
{
    let q: i64 = timestamp / SECONDS_PER_DAY;
    let r: i64 = timestamp % SECONDS_PER_DAY;
    if r < 0 {
        q - 1
    } else {
        q
    }
}

/// What `chrono::DateTime::format` writes for the UTC date of a second with
/// the format `%Y-%m-%d`: the year, the month and the day of the month.
pub uninterp spec fn date_text(timestamp: int) -> Seq<char>;

/// Asks `chrono::DateTime::from_timestamp` whether `timestamp` is within the
/// range of dates that it can hold. The contract states that range: the years
/// -262143 to 262142, both whole.
#[verifier::external_body]
fn chrono_accepts(timestamp: i64) -> (accepted: bool)
    ensures
        accepted == has_calendar_date(timestamp as int),
{
    chrono::DateTime::from_timestamp(timestamp, 0).is_some()
}

/// Has `chrono::DateTime::format` write the UTC date of `timestamp` with the
/// format `%Y-%m-%d`. The contract gives the text a name and claims nothing
/// of its characters.
#[verifier::external_body]
fn chrono_date_text(timestamp: i64) -> (text: String)
    requires
        has_calendar_date(timestamp as int),
    ensures
        text@ == date_text(timestamp as int),
{
    let moment = chrono::DateTime::from_timestamp(timestamp, 0).unwrap_or_default();
    moment.format("%Y-%m-%d").to_string()
}

impl CalendarDate {
    /// Whether the date is one of the calendar.
    pub open spec fn in_calendar(self) -> bool {
        MIN_DAY <= self.days <= MAX_DAY
    }

    /// The date on which `timestamp` falls.
    pub fn of_timestamp(timestamp: i64) -> (date: CalendarDate)
        ensures
            date.days == day_of(timestamp as int),
            has_calendar_date(timestamp as int) ==> date.in_calendar(),
    {
        CalendarDate { days: day_number(timestamp) }
    }

    /// The first second of the date, where the date is one of the calendar.
    pub fn midnight(&self) -> (timestamp: Option<i64>)
        ensures
            timestamp == if self.in_calendar() {
                Some((self.days * 86_400) as i64)
            } else {
                None
            },
            timestamp matches Some(second) ==> has_calendar_date(second as int) && day_of(
                second as int,
            ) == self.days,
    {
        if MIN_DAY <= self.days && self.days <= MAX_DAY {
            Some(self.days * SECONDS_PER_DAY)
        } else {
            None
        }
    }

    /// The date in the form year-month-day, as `chrono` writes it for the
    /// first second of the date; nothing where the date is none of the
    /// calendar.
    pub fn to_text(&self) -> (text: Option<String>)
        ensures
            text is Some <==> self.in_calendar(),
            text matches Some(written) ==> written@ == date_text(self.days * 86_400),
    {
        match self.midnight() {
            Some(second) => Some(chrono_date_text(second)),
            None => None,
        }
    }
}

/// The date of a second in the form year-month-day, as `chrono` writes it;
/// nothing where the second falls on no calendar date.
pub fn date_text_of(timestamp: i64) -> (text: Option<String>)
    ensures
        text is Some <==> has_calendar_date(timestamp as int),
        text matches Some(written) ==> written@ == date_text(timestamp as int),
{
    if chrono_accepts(timestamp) {
        Some(chrono_date_text(timestamp))
    } else {
        None
    }
}

/// Whether `timestamp` falls on a calendar date.
pub fn timestamp_is_valid(timestamp: i64) -> (valid: bool)
    ensures
        valid == has_calendar_date(timestamp as int),
{
    chrono_accepts(timestamp)
}

} // verus!
