//! Events that the browser reports.
use serde_json::Value;
use vstd::prelude::*;

use crate::text::optional_text;

verus! {

/// A JSON value of any kind.
#[verifier::external_type_specification]
#[verifier::external_body]
pub struct ExValue(Value);

/// The members of a JSON object that are strings, by their names. Any other JSON value has
/// none.
pub uninterp spec fn text_members(value: Value) -> Map<Seq<char>, Seq<char>>;

/// `serde_json::Value::get` with a string index: the member of an object with that name.
/// The text is handed out where the member is a string; nothing comes out where the value
/// is no object, has no such member, or where the member is of another kind.
#[verifier::external_body]
fn text_member(value: &Value, name: &str) -> (text: Option<String>)
    ensures
        optional_text(text) == (if text_members(*value).contains_key(name@) {
            Some(text_members(*value)[name@])
        } else {
            None
        }),
{
    match value.get(name) {
        Some(Value::String(text)) => Some(text.clone()),
        _ => None,
    }
}

/// An event, as the browser sends it.
#[derive(Debug)]
pub struct BrowserEventV1 {
    /// The version of the event's format, such as "1.0".
    pub schema_version: String,
    /// What happened, such as "tab_active" or "worker_created".
    pub event_type: String,
    /// When it happened.
    pub ts_ms: u64,
    /// The page.
    pub url: Option<String>,
    /// The host that the page came from.
    pub origin: Option<String>,
    /// The tab that it happened in.
    pub tab_id: Option<u32>,
    /// What else belongs to an event of this type.
    pub details: Value,
}

/// The part of an event that the correlation reads.
pub struct EventView {
    pub event_type: Seq<char>,
    pub ts_ms: u64,
    pub origin: Option<Seq<char>>,
    pub tab_id: Option<u32>,
    /// The member "state" of the details, where it is a string.
    pub state: Option<Seq<char>>,
}

/// The member "state" of an event's details, where it is a string.
pub open spec fn state_of_details(details: Value) -> Option<Seq<char>> {
    if text_members(details).contains_key("state"@) {
        Some(text_members(details)["state"@])
    } else {
        None
    }
}

impl View for BrowserEventV1 {
    type V = EventView;

    open spec fn view(&self) -> EventView {
        EventView {
            event_type: self.event_type@,
            ts_ms: self.ts_ms,
            origin: optional_text(self.origin),
            tab_id: self.tab_id,
            state: state_of_details(self.details),
        }
    }
}

/// Reads the member "state" of an event's details.
pub fn details_state(details: &Value) -> (state: Option<String>)
    ensures
        optional_text(state) == state_of_details(*details),
{
    text_member(details, "state")
}

/// An event in the history: when, what and where.
#[derive(Debug)]
pub struct EventSummary {
    pub ts_ms: u64,
    pub event_type: String,
    pub origin: Option<String>,
}

/// The text of an `EventSummary`.
pub struct SummaryView {
    pub ts_ms: u64,
    pub event_type: Seq<char>,
    pub origin: Option<Seq<char>>,
}

impl View for EventSummary {
    type V = SummaryView;

    open spec fn view(&self) -> SummaryView {
        SummaryView {
            ts_ms: self.ts_ms,
            event_type: self.event_type@,
            origin: optional_text(self.origin),
        }
    }
}

} // verus!
