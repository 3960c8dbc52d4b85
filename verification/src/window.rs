//! The span of time that a scan is restricted to.

use vstd::prelude::*;

verus! {

/// The times from `start` up to, and not including, `end`, in milliseconds
/// since the Unix epoch.
#[derive(Debug, Clone, Copy, PartialEq, Eq, Structural)]
pub struct TimeWindow {
    pub start: i64,
    pub end: i64,
}

/// Which end of a window could not be read.
#[derive(Debug, Clone, Copy, PartialEq, Eq, Structural)]
pub enum WindowError {
    /// The text for the start is no RFC 3339 timestamp.
    InvalidStart,
    /// The text for the end is no RFC 3339 timestamp.
    InvalidEnd,
}

/// The error with which the BSON library rejects a timestamp.
#[verifier::external_type_specification]
#[verifier::external_body]
pub struct ExTimestampError(mongodb::bson::datetime::Error);

/// The instant that a text names as an RFC 3339 timestamp, in milliseconds
/// since the Unix epoch, as the BSON library reads it; `None` where it
/// rejects the text.
pub uninterp spec fn rfc3339_millis(text: Seq<char>) -> Option<i64>;

/// Calls `mongodb::bson::DateTime::parse_rfc3339_str` and takes the
/// milliseconds of the result with `DateTime::timestamp_millis`. Nothing is
/// proved of the parser: the contract only gives its result a name, on the
/// ground that it reads nothing but the text.
#[verifier::external_body]
fn parse_rfc3339(text: &str) -> (parsed: Result<i64, mongodb::bson::datetime::Error>)
    ensures
        parsed is Ok <==> rfc3339_millis(text@) is Some,
        parsed matches Ok(millis) ==> rfc3339_millis(text@) == Some(millis),
{
    match mongodb::bson::DateTime::parse_rfc3339_str(text) {
        Ok(time) => Ok(time.timestamp_millis()),
        Err(error) => Err(error),
    }
}

impl TimeWindow {
    /// Whether `time` lies in the window.
    pub open spec fn covers(self, time: int) -> bool {
        self.start <= time < self.end
    }

    /// Whether `time` lies in the window.
    pub fn contains(&self, time: i64) -> (inside: bool)
        ensures
            inside == self.covers(time as int),
    {
        self.start <= time && time < self.end
    }

    /// The window between two instants of which each is read from text.
    pub open spec fn between(start: Option<i64>, end: Option<i64>) -> Result<
        TimeWindow,
        WindowError,
    > {
        match (start, end) {
            (None, _) => Err(WindowError::InvalidStart),
            (Some(_), None) => Err(WindowError::InvalidEnd),
            (Some(start), Some(end)) => Ok(TimeWindow { start, end }),
        }
    }

    /// The window from `start` up to `end`, both RFC 3339 timestamps. Fails
    /// on the first of the two that is none.
    pub fn parse(start: &str, end: &str) -> (window: Result<TimeWindow, WindowError>)
        ensures
            window == TimeWindow::between(rfc3339_millis(start@), rfc3339_millis(end@)),
    {
        let start = match parse_rfc3339(start) {
            Ok(millis) => millis,
            Err(_) => {
                return Err(WindowError::InvalidStart);
            },
        };
        match parse_rfc3339(end) {
            Ok(end) => Ok(TimeWindow { start, end }),
            Err(_) => Err(WindowError::InvalidEnd),
        }
    }
}

} // verus!
