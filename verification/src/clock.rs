//! Points in time: how they are read, compared and shown.
use vstd::prelude::*;

use crate::error::Error;

verus! {

/// A point in time.
#[derive(Debug, Clone, Copy, PartialEq, Eq, Structural)]
pub struct Moment {
    /// Seconds since the start of 1970, in UTC.
    pub seconds: i64,
    /// Nanoseconds since that second.
    pub nanos: u32,
    /// How many seconds local time is ahead of UTC where the time was noted.
    pub offset: i32,
}

/// Names what `DateTime::parse_from_rfc3339` makes of `text`: the point in time,
/// or the words that explain the failure.
pub uninterp spec fn read_moment(text: Seq<char>) -> Result<Moment, Seq<char>>;

/// Names what `DateTime::to_rfc3339` writes for a point in time; `None` where
/// `DateTime` cannot hold it.
pub uninterp spec fn rfc3339_text(moment: Moment) -> Option<Seq<char>>;

/// Names what `DateTime::format` writes for a point in time with the format
/// `%Y-%m-%d %H:%M:%S %:z`; `None` where `DateTime` cannot hold it.
pub uninterp spec fn display_text(moment: Moment) -> Option<Seq<char>>;

/// Whether `a` is before `b`.
pub open spec fn earlier(a: Moment, b: Moment) -> bool {
    a.seconds < b.seconds || (a.seconds == b.seconds && a.nanos < b.nanos)
}

/// How a stored time is shown: as it is stored where it cannot be read.
pub open spec fn shown_time(value: Seq<char>) -> Seq<char> {
    match read_moment(value) {
        Ok(moment) => match display_text(moment) {
            Some(text) => text,
            None => value,
        },
        Err(_) => value,
    }
}

/// `chrono::DateTime::parse_from_rfc3339`, taken apart into its UTC seconds, its
/// nanoseconds and its offset. What the date format allows takes pages to say;
/// the result is named.
#[verifier::external_body]
fn parse_rfc3339(text: &str) -> (r: Result<Moment, String>)
    ensures
        match r {
            Ok(moment) => read_moment(text@) == Ok::<Moment, Seq<char>>(moment),
            Err(fault) => read_moment(text@) == Err::<Moment, Seq<char>>(fault@),
        },
{
    match chrono::DateTime::parse_from_rfc3339(text) {
        Ok(time) => Ok(
            Moment {
                seconds: time.timestamp(),
                nanos: time.timestamp_subsec_nanos(),
                offset: time.offset().local_minus_utc(),
            },
        ),
        Err(error) => Err(error.to_string()),
    }
}

/// `chrono::DateTime::to_rfc3339` of a point in time; `None` where it is beyond
/// what `DateTime` or its offset can hold. The result is named.
#[verifier::external_body]
fn write_rfc3339(moment: Moment) -> (r: Option<String>)
    ensures
        match r {
            Some(text) => rfc3339_text(moment) == Some(text@),
            None => rfc3339_text(moment) is None,
        },
{
    let offset = chrono::FixedOffset::east_opt(moment.offset)?;
    let time = chrono::DateTime::from_timestamp(moment.seconds, moment.nanos)?;
    Some(time.with_timezone(&offset).to_rfc3339())
}

/// `chrono::DateTime::format` of a point in time, with the format
/// `%Y-%m-%d %H:%M:%S %:z`; `None` where it is beyond what `DateTime` or its
/// offset can hold. The result is named.
#[verifier::external_body]
fn write_display(moment: Moment) -> (r: Option<String>)
    ensures
        match r {
            Some(text) => display_text(moment) == Some(text@),
            None => display_text(moment) is None,
        },
{
    let offset = chrono::FixedOffset::east_opt(moment.offset)?;
    let time = chrono::DateTime::from_timestamp(moment.seconds, moment.nanos)?;
    Some(time.with_timezone(&offset).format("%Y-%m-%d %H:%M:%S %:z").to_string())
}

/// `chrono::Local::now`, written with `to_rfc3339`. Nothing is promised of it: it
/// depends on the clock and the time zone of the machine.
#[verifier::external_body]
pub(crate) fn now_text() -> (r: String) {
    chrono::Local::now().to_rfc3339()
}

/// Whether `a` is before `b`.
pub fn is_earlier(a: Moment, b: Moment) -> (r: bool)
    ensures
        r == earlier(a, b),
{
    a.seconds < b.seconds || (a.seconds == b.seconds && a.nanos < b.nanos)
}

/// The point in time that a stored text gives.
pub fn moment_of(text: &str) -> (r: Result<Moment, Error>)
    ensures
        match r {
            Ok(moment) => read_moment(text@) == Ok::<Moment, Seq<char>>(moment),
            Err(e) => read_moment(text@) == Err::<Moment, Seq<char>>(e@),
        },
{
    match parse_rfc3339(text) {
        Ok(moment) => Ok(moment),
        Err(fault) => Err(Error::new(fault)),
    }
}

/// How a point in time is stored; `None` where it cannot be.
pub fn stored_time(moment: Moment) -> (r: Option<String>)
    ensures
        match r {
            Some(text) => rfc3339_text(moment) == Some(text@),
            None => rfc3339_text(moment) is None,
        },
{
    write_rfc3339(moment)
}

/// How a stored time is shown, from what reading it and writing it gave.
pub fn shown_or_stored(value: &str, shown: Option<String>) -> (r: String)
    ensures
        r@ == match shown {
            Some(text) => text@,
            None => value@,
        },
{
    match shown {
        Some(text) => text,
        None => value.to_owned(),
    }
}

/// How a stored time is shown.
pub fn display_time(value: &str) -> (r: String)
    ensures
        r@ == shown_time(value@),
{
    let shown = match parse_rfc3339(value) {
        Ok(moment) => write_display(moment),
        Err(_) => None,
    };
    shown_or_stored(value, shown)
}

} // verus!
