//! Events as the log gives them.
use serde_json::Value;
use vstd::prelude::*;

use crate::json::{value_view, JsonView};

verus! {

/// Which way a message went.
#[derive(Debug, Clone, Copy, PartialEq, Eq, Structural)]
pub enum Direction {
    /// From the client to the server: `==>` in the log.
    Request,
    /// From the server to the client: `<==` in the log.
    Response,
    /// A line without an arrow.
    Note,
}

/// A point in time: whole seconds since 1970 in UTC, and nanoseconds.
#[derive(Debug, Clone, Copy, PartialEq, Eq, Structural)]
pub struct Timestamp {
    pub secs: i64,
    pub nanos: u32,
}

/// A single event of the log. `kind` is the game's own name for it and
/// `payload` its JSON body.
#[derive(Debug)]
pub struct ParsedEvent {
    pub timestamp: Timestamp,
    pub kind: String,
    pub direction: Direction,
    pub payload: Value,
}

/// What an event holds, but for the time at which it was read.
pub ghost struct EventView {
    pub kind: Seq<char>,
    pub direction: Direction,
    pub payload: JsonView,
}

impl View for ParsedEvent {
    type V = EventView;

    open spec fn view(&self) -> EventView {
        EventView {
            kind: self.kind@,
            direction: self.direction,
            payload: value_view(self.payload),
        }
    }
}

/// `chrono::Utc::now`: the time by the machine's clock, of which nothing is
/// said.
#[verifier::external_body]
pub(crate) fn now() -> Timestamp {
    let t = chrono::Utc::now();
    Timestamp { secs: t.timestamp(), nanos: t.timestamp_subsec_nanos() }
}

/// What `chrono::DateTime::to_rfc3339` writes for a point in time in UTC;
/// nothing where `chrono::DateTime::from_timestamp` has no such point.
pub uninterp spec fn rfc3339_of(secs: i64, nanos: u32) -> Option<Seq<char>>;

/// `chrono::DateTime::from_timestamp` and `to_rfc3339`: the text depends on
/// the point in time alone.
#[verifier::external_body]
pub(crate) fn rfc3339(secs: i64, nanos: u32) -> (r: Option<String>)
    ensures
        match r {
            Some(s) => rfc3339_of(secs, nanos) == Some(s@),
            None => rfc3339_of(secs, nanos) is None,
        },
{
    chrono::DateTime::from_timestamp(secs, nanos).map(|t| t.to_rfc3339())
}

} // verus!
