//! Points in time.
//!
//! A point in time is a count of seconds since 1970 and nanoseconds within the second. What
//! calendars make of it is chrono's business: the functions that call it name its results.
use vstd::prelude::*;

verus! {

/// A point in time in UTC.
#[derive(Debug, Clone, Copy, PartialEq, Eq, Structural)]
pub struct Timestamp {
    /// Seconds since the beginning of 1970.
    pub secs: i64,
    /// Nanoseconds since that second.
    pub nanos: u32,
}

/// The first second of the year 0.
pub const FIRST_FOUR_DIGIT_SECOND: i64 = -62_167_219_200;

/// The last second of the year 9999.
pub const LAST_FOUR_DIGIT_SECOND: i64 = 253_402_300_799;

/// The pattern of a date with hours and minutes.
pub const TO_THE_MINUTE: &'static str = "%Y-%m-%d %H:%M";

/// The pattern of a date with hours, minutes and seconds.
pub const TO_THE_SECOND: &'static str = "%Y-%m-%d %H:%M:%S";

/// `t` has a date in one of the years from 0 to 9999, which are written with four digits.
pub open spec fn ordinary(t: Timestamp) -> bool {
    &&& has_date(t.secs, t.nanos)
    &&& FIRST_FOUR_DIGIT_SECOND <= t.secs <= LAST_FOUR_DIGIT_SECOND
}

/// The first second of the calendar, at the start of the year -262143.
pub const FIRST_SECOND: i64 = -8_334_601_228_800;

/// The last second of the calendar, at the end of the year 262142.
pub const LAST_SECOND: i64 = 8_210_266_876_799;

/// Whether these seconds and nanoseconds since 1970 are in the calendar. Nanoseconds above a
/// second are those of a leap second, which follows the last second of a minute.
pub open spec fn has_date(secs: i64, nanos: u32) -> bool {
    &&& FIRST_SECOND <= secs <= LAST_SECOND
    &&& nanos < 1_000_000_000 || (nanos < 2_000_000_000 && secs % 60 == 59)
}

/// The seconds and nanoseconds that chrono's `DateTime::parse_from_rfc3339` reads in a text.
pub uninterp spec fn rfc3339_instant(text: Seq<char>) -> Option<(i64, u32)>;

/// The text that chrono's `DateTime::to_rfc3339` writes for a point in time that has a date.
pub uninterp spec fn rfc3339_text(secs: i64, nanos: u32) -> Seq<char>;

/// The text that chrono's `DateTime::format` makes of a point in time by a pattern.
pub uninterp spec fn date_text(secs: i64, nanos: u32, pattern: Seq<char>) -> Seq<char>;

/// The point in time that a text in RFC 3339 form names, if it is one.
pub open spec fn read_instant(text: Seq<char>) -> Option<Timestamp> {
    match rfc3339_instant(text) {
        Some((secs, nanos)) => Some(Timestamp { secs, nanos }),
        None => None,
    }
}

/// Calls chrono's `DateTime::from_timestamp` on whole seconds. It gives back the same second, or
/// nothing outside its calendar.
#[verifier::external_body]
pub(crate) fn instant_from_unix(secs: i64) -> (t: Option<Timestamp>)
    ensures
        t is Some <==> has_date(secs, 0),
        t is Some ==> t->0.secs == secs && t->0.nanos == 0,
{
    let date = chrono::DateTime::from_timestamp(secs, 0)?;
    Some(Timestamp { secs: date.timestamp(), nanos: date.timestamp_subsec_nanos() })
}

/// Calls chrono's `DateTime::parse_from_rfc3339` and takes the result to UTC. What the text
/// stands for is `rfc3339_instant`.
#[verifier::external_body]
fn parse_rfc3339(text: &str) -> (instant: Option<(i64, u32)>)
    ensures
        instant == rfc3339_instant(text@),
{
    let date = chrono::DateTime::parse_from_rfc3339(text).ok()?;
    Some((date.timestamp(), date.timestamp_subsec_nanos()))
}

/// The point in time that a text in RFC 3339 form names, if it is one.
pub fn parse_instant(text: &str) -> (t: Option<Timestamp>)
    ensures
        t == read_instant(text@),
{
    match parse_rfc3339(text) {
        Some((secs, nanos)) => Some(Timestamp { secs, nanos }),
        None => None,
    }
}

/// Calls chrono's `DateTime::to_rfc3339`. The text is `rfc3339_text`, and in the years from 0 to
/// 9999, reading the text gives back the same point in time, a leap second too. There is no text
/// for a point in time outside chrono's calendar.
#[verifier::external_body]
pub(crate) fn to_rfc3339(t: Timestamp) -> (text: Option<String>)
    ensures
        text is Some <==> has_date(t.secs, t.nanos),
        text is Some ==> text->0@ == rfc3339_text(t.secs, t.nanos),
        ordinary(t) ==> rfc3339_instant(text->0@) == Some((t.secs, t.nanos)),
{
    let date = chrono::DateTime::from_timestamp(t.secs, t.nanos)?;
    Some(date.to_rfc3339())
}

/// Calls chrono's `DateTime::format` with one of the two patterns of this module. The text is
/// `date_text`; there is none for a point in time outside chrono's calendar.
#[verifier::external_body]
pub(crate) fn format_date(t: Timestamp, pattern: &str) -> (text: Option<String>)
    requires
        pattern@ == TO_THE_MINUTE@ || pattern@ == TO_THE_SECOND@,
    ensures
        text is Some <==> has_date(t.secs, t.nanos),
        text is Some ==> text->0@ == date_text(t.secs, t.nanos, pattern@),
{
    let date = chrono::DateTime::from_timestamp(t.secs, t.nanos)?;
    Some(date.format(pattern).to_string())
}

} // verus!
