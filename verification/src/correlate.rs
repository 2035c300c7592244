//! What an event changes.
use vstd::prelude::*;

use crate::alert::{alert_views, answers, evaluate_alerts, noted, Alert, AlertView};
use crate::event::{details_state, BrowserEventV1, EventSummary, EventView, SummaryView};
use crate::state::{
    remember, remembered, unknown_tab, CorrelationState, StateView, TabState, TabView,
};
use crate::text::{copy_optional, optional_text, reads};

verus! {

broadcast use vstd::std_specs::hash::group_hash_axioms;

/// The origin whose tabs never count as active.
pub const IGNORED_ORIGIN: &'static str = "127.0.0.1";

/// What is known of a tab after an event in it.
pub open spec fn updated_tab(tab: TabView, event: EventView) -> TabView {
    let now = Some(event.ts_ms);
    let located = TabView {
        origin: if event.origin is Some {
            event.origin
        } else {
            tab.origin
        },
        ..tab
    };
    if event.event_type == "tab_active"@ {
        TabView { last_seen_ms: now, ..located }
    } else if event.event_type == "tab_visibility"@ {
        TabView {
            last_visibility: if event.state is Some {
                event.state
            } else {
                tab.last_visibility
            },
            last_hidden_ms: if event.state == Some("hidden"@) {
                now
            } else {
                tab.last_hidden_ms
            },
            last_seen_ms: now,
            ..located
        }
    } else if event.event_type == "wasm_instantiate"@ {
        TabView { last_wasm_ms: now, last_seen_ms: now, ..located }
    } else if event.event_type == "worker_created"@ {
        TabView { last_worker_ms: now, last_seen_ms: now, ..located }
    } else if event.event_type == "media_playing"@ {
        TabView {
            last_media_state: if event.state is Some {
                event.state
            } else {
                Some("playing"@)
            },
            last_media_ms: now,
            last_seen_ms: now,
            ..located
        }
    } else if event.event_type == "user_activity"@ {
        TabView { last_user_activity_ms: now, last_seen_ms: now, ..located }
    } else {
        located
    }
}

/// The entry of the history for an event.
pub open spec fn summary(event: EventView) -> SummaryView {
    SummaryView { ts_ms: event.ts_ms, event_type: event.event_type, origin: event.origin }
}

/// The active tab after an event in the tab `id`. It only changes with the report of an
/// active tab whose origin is known.
pub open spec fn updated_active(active: Option<u32>, id: u32, event: EventView) -> Option<u32> {
    if event.event_type == "tab_active"@ && event.origin is Some {
        if event.origin == Some(IGNORED_ORIGIN@) {
            None
        } else {
            Some(id)
        }
    } else {
        active
    }
}

/// The state after an event, before any alert.
pub open spec fn recorded(state: StateView, event: EventView) -> StateView {
    let events = remembered(state.events, summary(event));
    match event.tab_id {
        None => StateView { events, ..state },
        Some(id) => if event.event_type == "tab_closed"@ {
            StateView {
                events,
                tabs: state.tabs.remove(id),
                active_tab_id: if state.tabs.contains_key(id) && state.active_tab_id == Some(id) {
                    None
                } else {
                    state.active_tab_id
                },
                ..state
            }
        } else {
            let known = if state.tabs.contains_key(id) {
                state.tabs[id]
            } else {
                unknown_tab()
            };
            StateView {
                events,
                tabs: state.tabs.insert(id, updated_tab(known, event)),
                active_tab_id: updated_active(state.active_tab_id, id, event),
                ..state
            }
        },
    }
}

/// Whether an event gives cause to look for alerts: it happened in a tab that stays open.
pub open spec fn calls_for_alerts(event: EventView) -> bool {
    event.tab_id is Some && event.event_type != "tab_closed"@
}

/// The event, with `state` as the state that its details give.
pub open spec fn with_state(event: EventView, state: Option<Seq<char>>) -> EventView {
    EventView { state, ..event }
}

/// Changes what is known of a tab.
fn update_tab(tab_state: &mut TabState, event: &BrowserEventV1, state: Option<String>)
    ensures
        final(tab_state)@ == updated_tab(
            old(tab_state)@,
            with_state(event@, optional_text(state)),
        ),
{
    let event_type = event.event_type.as_str();
    let now = Some(event.ts_ms);
    if let Some(origin) = &event.origin {
        tab_state.origin = Some(origin.clone());
    }
    if reads(event_type, "tab_active") {
        tab_state.last_seen_ms = now;
    } else if reads(event_type, "tab_visibility") {
        if let Some(state) = state {
            if reads(state.as_str(), "hidden") {
                tab_state.last_hidden_ms = now;
            }
            tab_state.last_visibility = Some(state);
        }
        tab_state.last_seen_ms = now;
    } else if reads(event_type, "wasm_instantiate") {
        tab_state.last_wasm_ms = now;
        tab_state.last_seen_ms = now;
    } else if reads(event_type, "worker_created") {
        tab_state.last_worker_ms = now;
        tab_state.last_seen_ms = now;
    } else if reads(event_type, "media_playing") {
        tab_state.last_media_state = match state {
            Some(state) => Some(state),
            None => Some("playing".to_owned()),
        };
        tab_state.last_media_ms = now;
        tab_state.last_seen_ms = now;
    } else if reads(event_type, "user_activity") {
        tab_state.last_user_activity_ms = now;
        tab_state.last_seen_ms = now;
    }
}

/// Records an event. `state` is the state that its details give. Tells whether the event
/// gives cause to look for alerts.
pub fn record_event(event: &BrowserEventV1, state_value: Option<String>, state: &mut CorrelationState) -> (look:
    bool)
    ensures
        final(state)@ == recorded(old(state)@, with_state(event@, optional_text(state_value))),
        look == calls_for_alerts(event@),
{
    let ghost seen = with_state(event@, optional_text(state_value));
    let entry = EventSummary {
        ts_ms: event.ts_ms,
        event_type: event.event_type.clone(),
        origin: copy_optional(&event.origin),
    };
    assert(entry@ == summary(seen));
    remember(state, entry);
    let ghost start = state@;
    let event_type = event.event_type.as_str();
    let closed = reads(event_type, "tab_closed");
    match event.tab_id {
        None => false,
        Some(tab_id) => {
            if closed {
                if state.tabs.remove(&tab_id).is_some() {
                    if state.active_tab_id == Some(tab_id) {
                        state.active_tab_id = None;
                    }
                }
                assert(state@ =~= recorded(old(state)@, seen));
                false
            } else {
                if reads(event_type, "tab_active") {
                    if let Some(origin) = &event.origin {
                        if reads(origin.as_str(), IGNORED_ORIGIN) {
                            state.active_tab_id = None;
                        } else {
                            state.active_tab_id = Some(tab_id);
                        }
                    }
                }
                let mut tab_state = match state.tabs.remove(&tab_id) {
                    Some(tab_state) => tab_state,
                    None => TabState::default(),
                };
                update_tab(&mut tab_state, event, state_value);
                state.tabs.insert(tab_id, tab_state);
                assert(state@ =~= recorded(old(state)@, seen));
                true
            }
        },
    }
}

/// Whether this is what comes of an event: it is recorded, and, where it gives cause to, the
/// alerts that are due are given and noted.
pub open spec fn handled(
    before: StateView,
    event: EventView,
    alerts: Seq<AlertView>,
    after: StateView,
) -> bool {
    let state = recorded(before, event);
    if calls_for_alerts(event) {
        answers(state, alerts, event.ts_ms) && after == noted(state, alerts, event.ts_ms)
    } else {
        alerts.len() == 0 && after == state
    }
}

/// Handles an event: records it, and alerts on the origins that are due.
pub fn handle_event(payload: &BrowserEventV1, state: &mut CorrelationState) -> (alerts: Vec<Alert>)
    ensures
        handled(old(state)@, payload@, alert_views(alerts@), final(state)@),
{
    let state_value = details_state(&payload.details);
    if record_event(payload, state_value, state) {
        evaluate_alerts(state, payload.ts_ms)
    } else {
        Vec::new()
    }
}

} // verus!
