//! The answer to a reported event.
use serde_json::Value;
use vstd::prelude::*;

use crate::alert::{alert_views, Alert};
use crate::correlate::{handle_event, handled};
use crate::event::BrowserEventV1;
use crate::schema::{objections, repeatable, EventSchema};
use crate::score::texts;
use crate::state::CorrelationState;

verus! {

/// The answer to a reported event.
#[derive(Debug)]
pub enum IngestReply {
    /// The event was not taken in.
    Refused { error: String },
    /// The event was taken in.
    Accepted { received_event_type: String, ts_ms: u64 },
}

/// Takes in a reported event, given as a JSON value too: where there is none, the event is
/// refused, and nothing changes. What the schema objects to in that value is handed out,
/// and keeps no event from being taken in.
pub fn ingest(
    payload: &BrowserEventV1,
    value: Option<&Value>,
    schema: &EventSchema,
    state: &mut CorrelationState,
) -> (answer: (IngestReply, Vec<String>, Vec<Alert>))
    ensures
        match value {
            Some(value) => {
                &&& answer.0 matches IngestReply::Accepted { received_event_type, ts_ms }
                &&& received_event_type@ == payload.event_type@
                &&& ts_ms == payload.ts_ms
                &&& repeatable(schema.document(), *value) ==> texts(answer.1@) == objections(
                    schema.document(),
                    *value,
                )
                &&& handled(old(state)@, payload@, alert_views(answer.2@), final(state)@)
            },
            None => {
                &&& answer.0 matches IngestReply::Refused { error }
                &&& error@ == "serialize_failed"@
                &&& answer.1@.len() == 0
                &&& answer.2@.len() == 0
                &&& final(state)@ == old(state)@
            },
        },
{
    match value {
        Some(value) => {
            let errors = schema.validate(value);
            let alerts = handle_event(payload, state);
            let reply = IngestReply::Accepted {
                received_event_type: payload.event_type.clone(),
                ts_ms: payload.ts_ms,
            };
            (reply, errors, alerts)
        },
        None => (
            IngestReply::Refused { error: "serialize_failed".to_owned() },
            Vec::new(),
            Vec::new(),
        ),
    }
}

} // verus!
