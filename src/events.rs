//! Event levels of the telemetry configuration, and the decision of whether
//! and at which severity an event is logged.

use vstd::prelude::*;
use std::collections::HashMap;

verus! {

/// The level an event is logged at; `Off` logs nothing.
#[derive(Debug, Clone, Copy, PartialEq, Eq)]
pub enum EventLevel {
    Info,
    Warn,
    Error,
    Off,
}

impl Default for EventLevel {
    fn default() -> (r: EventLevel)
        ensures
            r == EventLevel::Off,
    {
        EventLevel::Off
    }
}

/// An event to emit: its level, its kind (the event's name), its attributes
/// and its message.
pub struct EventRecord<'a> {
    pub level: EventLevel,
    pub kind: &'a str,
    pub attributes: &'a HashMap<String, String>,
    pub message: &'a str,
}

/// Decides how an event is logged: not at all when the level is `Off`,
/// otherwise at that level, with the kind, attributes and message unchanged.
pub fn log_event<'a>(
    level: EventLevel,
    kind: &'a str,
    attributes: &'a HashMap<String, String>,
    message: &'a str,
) -> (r: Option<EventRecord<'a>>)
    ensures
        r is None <==> level == EventLevel::Off,
        r matches Some(rec) ==> rec.level == level && rec.kind == kind && rec.attributes
            == attributes && rec.message == message,
{
    match level {
        EventLevel::Off => None,
        _ => Some(EventRecord { level, kind, attributes, message }),
    }
}

} // verus!
