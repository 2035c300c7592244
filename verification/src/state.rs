//! What the monitor remembers of tabs, CPU load and past events.
use std::collections::{HashMap, VecDeque};
use vstd::hash_map::StringHashMap;
use vstd::prelude::*;

use crate::event::{EventSummary, SummaryView};
use crate::text::optional_text;

verus! {

/// What is known of one tab.
#[derive(Debug)]
pub struct TabState {
    pub origin: Option<String>,
    pub last_visibility: Option<String>,
    pub last_hidden_ms: Option<u64>,
    pub last_worker_ms: Option<u64>,
    pub last_wasm_ms: Option<u64>,
    pub last_media_ms: Option<u64>,
    pub last_media_state: Option<String>,
    pub last_user_activity_ms: Option<u64>,
    pub last_seen_ms: Option<u64>,
}

/// The contents of a `TabState`.
#[verifier::ext_equal]
pub struct TabView {
    pub origin: Option<Seq<char>>,
    pub last_visibility: Option<Seq<char>>,
    pub last_hidden_ms: Option<u64>,
    pub last_worker_ms: Option<u64>,
    pub last_wasm_ms: Option<u64>,
    pub last_media_ms: Option<u64>,
    pub last_media_state: Option<Seq<char>>,
    pub last_user_activity_ms: Option<u64>,
    pub last_seen_ms: Option<u64>,
}

impl View for TabState {
    type V = TabView;

    open spec fn view(&self) -> TabView {
        TabView {
            origin: optional_text(self.origin),
            last_visibility: optional_text(self.last_visibility),
            last_hidden_ms: self.last_hidden_ms,
            last_worker_ms: self.last_worker_ms,
            last_wasm_ms: self.last_wasm_ms,
            last_media_ms: self.last_media_ms,
            last_media_state: optional_text(self.last_media_state),
            last_user_activity_ms: self.last_user_activity_ms,
            last_seen_ms: self.last_seen_ms,
        }
    }
}

/// A tab of which nothing is known.
pub open spec fn unknown_tab() -> TabView {
    TabView {
        origin: None,
        last_visibility: None,
        last_hidden_ms: None,
        last_worker_ms: None,
        last_wasm_ms: None,
        last_media_ms: None,
        last_media_state: None,
        last_user_activity_ms: None,
        last_seen_ms: None,
    }
}

impl Default for TabState {
    fn default() -> (tab: Self)
        ensures
            tab@ == unknown_tab(),
    {
        TabState {
            origin: None,
            last_visibility: None,
            last_hidden_ms: None,
            last_worker_ms: None,
            last_wasm_ms: None,
            last_media_ms: None,
            last_media_state: None,
            last_user_activity_ms: None,
            last_seen_ms: None,
        }
    }
}

/// What the monitor remembers.
pub struct CorrelationState {
    /// The open tabs.
    pub tabs: HashMap<u32, TabState>,
    /// The tab that the user looks at.
    pub active_tab_id: Option<u32>,
    /// When each origin was last alerted on.
    pub last_alert_ms: StringHashMap<u64>,
    /// Since when every sample of the CPU load was high.
    pub cpu_high_since_ms: Option<u64>,
    /// The latest sample of the CPU load in percent: the bit pattern of a single-precision
    /// number.
    pub last_cpu_pct: u32,
    /// The latest events, oldest first.
    pub events: VecDeque<EventSummary>,
}

/// The contents of a `CorrelationState`.
#[verifier::ext_equal]
pub struct StateView {
    pub tabs: Map<u32, TabView>,
    pub active_tab_id: Option<u32>,
    pub last_alert_ms: Map<Seq<char>, u64>,
    pub cpu_high_since_ms: Option<u64>,
    pub last_cpu_pct: u32,
    pub events: Seq<SummaryView>,
}

impl View for CorrelationState {
    type V = StateView;

    open spec fn view(&self) -> StateView {
        StateView {
            tabs: self.tabs@.map_values(|tab: TabState| tab@),
            active_tab_id: self.active_tab_id,
            last_alert_ms: self.last_alert_ms@,
            cpu_high_since_ms: self.cpu_high_since_ms,
            last_cpu_pct: self.last_cpu_pct,
            events: self.events@.map_values(|event: EventSummary| event@),
        }
    }
}

/// The state before anything has happened.
pub open spec fn initial_state() -> StateView {
    StateView {
        tabs: Map::empty(),
        active_tab_id: None,
        last_alert_ms: Map::empty(),
        cpu_high_since_ms: None,
        last_cpu_pct: 0,
        events: Seq::empty(),
    }
}

impl Default for CorrelationState {
    fn default() -> (state: Self)
        ensures
            state@ == initial_state(),
    {
        let state = CorrelationState {
            tabs: HashMap::new(),
            active_tab_id: None,
            last_alert_ms: StringHashMap::new(),
            cpu_high_since_ms: None,
            last_cpu_pct: 0,
            events: VecDeque::new(),
        };
        assert(state@ =~= initial_state());
        state
    }
}

/// How many events the history holds.
pub const MAX_EVENT_HISTORY: usize = 50;

/// The history after one more event: its latest part, as far as it fits.
pub open spec fn remembered(events: Seq<SummaryView>, event: SummaryView) -> Seq<SummaryView> {
    let all = events.push(event);
    if all.len() > MAX_EVENT_HISTORY {
        all.skip(all.len() - MAX_EVENT_HISTORY)
    } else {
        all
    }
}

/// Adds an event to the history.
pub fn remember(state: &mut CorrelationState, event: EventSummary)
    ensures
        final(state)@ == (StateView {
            events: remembered(old(state)@.events, event@),
            ..old(state)@
        }),
{
    let ghost all = state@.events.push(event@);
    state.events.push_back(event);
    assert(state@.events =~= all);
    while state.events.len() > MAX_EVENT_HISTORY
        invariant
            state.tabs == old(state).tabs,
            state.active_tab_id == old(state).active_tab_id,
            state.last_alert_ms == old(state).last_alert_ms,
            state.cpu_high_since_ms == old(state).cpu_high_since_ms,
            state.last_cpu_pct == old(state).last_cpu_pct,
            state@.events.len() <= all.len(),
            state@.events == all.skip(all.len() - state@.events.len()),
            state@.events.len() >= MAX_EVENT_HISTORY || state@.events == all,
        decreases state.events.len(),
    {
        let ghost before = state@.events;
        state.events.pop_front();
        assert(state@.events =~= before.skip(1));
        assert(before.skip(1) =~= all.skip(all.len() - state@.events.len()));
    }
    assert(state@.events =~= remembered(old(state)@.events, event@));
    assert(state@ =~= StateView {
        events: remembered(old(state)@.events, event@),
        ..old(state)@
    });
}

} // verus!
