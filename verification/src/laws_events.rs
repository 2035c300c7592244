//! What holds of the tabs, of the active one and of the history, as events come in.
use vstd::prelude::*;

use crate::alert::AlertView;
use crate::correlate::handled;
use crate::event::{state_of_details, text_members, EventView, SummaryView};
use crate::laws::{possible, steps, Input, Run};
use crate::state::{initial_state, StateView, TabView};
use serde_json::Value;

verus! {

/// What was known of a tab: nothing, where it was not open.
pub open spec fn known_of(state: StateView, id: u32) -> TabView {
    if state.tabs.contains_key(id) {
        state.tabs[id]
    } else {
        TabView {
            origin: None,
            last_visibility: None,
            last_hidden_ms: None,
            last_worker_ms: None,
            last_wasm_ms: None,
            last_media_ms: None,
            last_media_state: None,
            last_user_activity_ms: None,
            last_seen_ms: None,
        }
    }
}

/// The kinds of events that are told apart have different names.
proof fn lemma_kinds_differ()
    ensures
        "tab_active"@ != "tab_closed"@,
        "tab_visibility"@ != "worker_created"@,
        "media_playing"@ != "user_activity"@,
        "tab_active"@.len() == 10,
        "tab_closed"@.len() == 10,
        "tab_visibility"@.len() == 14,
        "wasm_instantiate"@.len() == 16,
        "worker_created"@.len() == 14,
        "media_playing"@.len() == 13,
        "user_activity"@.len() == 13,
{
    reveal_strlit("tab_active");
    reveal_strlit("tab_closed");
    reveal_strlit("tab_visibility");
    reveal_strlit("wasm_instantiate");
    reveal_strlit("worker_created");
    reveal_strlit("media_playing");
    reveal_strlit("user_activity");
    assert("tab_active"@[4] != "tab_closed"@[4]);
    assert("tab_visibility"@[0] != "worker_created"@[0]);
    assert("media_playing"@[0] != "user_activity"@[0]);
}

/// Whether a report says that something happens in the tab, or that it is looked at.
pub open spec fn shows_life(event_type: Seq<char>) -> bool {
    ||| event_type == "tab_active"@
    ||| event_type == "tab_visibility"@
    ||| event_type == "wasm_instantiate"@
    ||| event_type == "worker_created"@
    ||| event_type == "media_playing"@
    ||| event_type == "user_activity"@
}

/// Each time stamp of a tab is that of the event, where the event is of its kind, whatever was
/// known before; any other event leaves it as it was. In a tab that was not open before,
/// nothing was known.
pub proof fn law_event_sets_its_stamp(
    before: StateView,
    event: EventView,
    alerts: Seq<AlertView>,
    after: StateView,
    id: u32,
)
    requires
        handled(before, event, alerts, after),
        event.tab_id == Some(id),
        event.event_type != "tab_closed"@,
    ensures
        after.tabs.contains_key(id),
        ({
            let was = known_of(before, id);
            let is = after.tabs[id];
            let now = Some(event.ts_ms);
            &&& is.last_worker_ms == if event.event_type == "worker_created"@ {
                now
            } else {
                was.last_worker_ms
            }
            &&& is.last_wasm_ms == if event.event_type == "wasm_instantiate"@ {
                now
            } else {
                was.last_wasm_ms
            }
            &&& is.last_media_ms == if event.event_type == "media_playing"@ {
                now
            } else {
                was.last_media_ms
            }
            &&& is.last_user_activity_ms == if event.event_type == "user_activity"@ {
                now
            } else {
                was.last_user_activity_ms
            }
            &&& is.last_hidden_ms == if event.event_type == "tab_visibility"@ && event.state
                == Some("hidden"@) {
                now
            } else {
                was.last_hidden_ms
            }
            &&& is.last_seen_ms == if shows_life(event.event_type) {
                now
            } else {
                was.last_seen_ms
            }
        }),
{
    lemma_kinds_differ();
}

/// The origin, the visibility and the state of playback of a tab are what was reported last.
/// Playback of which no state is reported is playing.
pub proof fn law_event_sets_texts(
    before: StateView,
    event: EventView,
    alerts: Seq<AlertView>,
    after: StateView,
    id: u32,
)
    requires
        handled(before, event, alerts, after),
        event.tab_id == Some(id),
        event.event_type != "tab_closed"@,
    ensures
        ({
            let was = known_of(before, id);
            let is = after.tabs[id];
            &&& event.origin is Some ==> is.origin == event.origin
            &&& event.origin is None ==> is.origin == was.origin
            &&& is.last_visibility == if event.event_type == "tab_visibility"@ && event.state is Some {
                event.state
            } else {
                was.last_visibility
            }
            &&& event.event_type != "media_playing"@ ==> is.last_media_state
                == was.last_media_state
            &&& event.event_type == "media_playing"@ && event.state is Some ==> is.last_media_state
                == event.state
            &&& event.event_type == "media_playing"@ && event.state is None ==> is.last_media_state
                == Some("playing"@)
        }),
{
    lemma_kinds_differ();
}

/// Which tab is active changes only with the report of an active tab whose origin is given, or
/// where the active tab is closed. An event in no tab changes nothing of tabs, nor does it
/// give alerts.
pub proof fn law_event_and_active_tab(
    before: StateView,
    event: EventView,
    alerts: Seq<AlertView>,
    after: StateView,
)
    requires
        handled(before, event, alerts, after),
    ensures
        event.tab_id is None ==> after.tabs == before.tabs && after.active_tab_id
            == before.active_tab_id && after.last_alert_ms == before.last_alert_ms && alerts.len()
            == 0,
        event.tab_id matches Some(id) ==> {
            &&& event.event_type == "tab_closed"@ ==> after.active_tab_id == if before.active_tab_id
                == Some(id) && before.tabs.contains_key(id) {
                None::<u32>
            } else {
                before.active_tab_id
            }
            &&& event.event_type == "tab_active"@ && event.origin == Some("127.0.0.1"@)
                ==> after.active_tab_id is None
            &&& event.event_type == "tab_active"@ && event.origin is Some && event.origin != Some(
                "127.0.0.1"@,
            ) ==> after.active_tab_id == Some(id)
            &&& event.event_type == "tab_active"@ && event.origin is None ==> after.active_tab_id
                == before.active_tab_id
            &&& event.event_type != "tab_active"@ && event.event_type != "tab_closed"@
                ==> after.active_tab_id == before.active_tab_id
        },
{
    lemma_kinds_differ();
}

/// Whether `after` is `before` with one more entry at its end, of which only the latest 50 are
/// kept.
pub open spec fn grows_by(
    before: Seq<SummaryView>,
    after: Seq<SummaryView>,
    entry: SummaryView,
) -> bool {
    &&& after.len() == if before.len() < 50 {
        before.len() + 1
    } else {
        50
    }
    &&& after[after.len() - 1] == entry
    &&& forall|i: int|
        0 <= i < after.len() - 1 ==> #[trigger] after[i] == before[i + before.len() + 1
            - after.len()]
}

/// Every event and every sample enters the history, as what, when and where it was.
pub proof fn law_input_enters_history(
    before: StateView,
    input: Input,
    alerts: Seq<AlertView>,
    after: StateView,
)
    requires
        before.events.len() <= 50,
        steps(before, input, alerts, after),
    ensures
        input matches Input::Event(event) ==> grows_by(
            before.events,
            after.events,
            (SummaryView {
                ts_ms: event.ts_ms,
                event_type: event.event_type,
                origin: event.origin,
            }),
        ),
        input matches Input::Load { cpu_pct, ts_ms } ==> grows_by(
            before.events,
            after.events,
            (SummaryView { ts_ms, event_type: "cpu_sample"@, origin: None }),
        ),
{
}

/// The monitor starts without tabs, alerts, load and history.
pub proof fn law_starts_empty(id: u32, origin: Seq<char>)
    ensures
        !initial_state().tabs.contains_key(id),
        initial_state().active_tab_id is None,
        !initial_state().last_alert_ms.contains_key(origin),
        initial_state().cpu_high_since_ms is None,
        initial_state().last_cpu_pct == 0,
        initial_state().events.len() == 0,
{
}

/// The state that an event's details give is their member "state", where that is a text.
pub proof fn law_state_of_details(details: Value)
    ensures
        text_members(details).contains_key("state"@) ==> state_of_details(details) == Some(
            text_members(details)["state"@],
        ),
        !text_members(details).contains_key("state"@) ==> state_of_details(details) is None,
{
}

/// What time stamps of a tab are kept of.
pub enum Kind {
    Hidden,
    Worker,
    Wasm,
    Media,
    Activity,
    Seen,
}

/// The time stamp of a kind.
pub open spec fn stamp_of(tab: TabView, kind: Kind) -> Option<u64> {
    match kind {
        Kind::Hidden => tab.last_hidden_ms,
        Kind::Worker => tab.last_worker_ms,
        Kind::Wasm => tab.last_wasm_ms,
        Kind::Media => tab.last_media_ms,
        Kind::Activity => tab.last_user_activity_ms,
        Kind::Seen => tab.last_seen_ms,
    }
}

/// Whether an event is of a kind.
pub open spec fn is_kind(event: EventView, kind: Kind) -> bool {
    match kind {
        Kind::Hidden => event.event_type == "tab_visibility"@ && event.state == Some("hidden"@),
        Kind::Worker => event.event_type == "worker_created"@,
        Kind::Wasm => event.event_type == "wasm_instantiate"@,
        Kind::Media => event.event_type == "media_playing"@,
        Kind::Activity => event.event_type == "user_activity"@,
        Kind::Seen => shows_life(event.event_type),
    }
}

/// Whether the input is an event in the tab that leaves it open.
pub open spec fn happens_in(input: Input, id: u32) -> bool {
    input matches Input::Event(event) && event.tab_id == Some(id) && event.event_type
        != "tab_closed"@
}

/// Whether the input closes the tab.
pub open spec fn closes(input: Input, id: u32) -> bool {
    input matches Input::Event(event) && event.tab_id == Some(id) && event.event_type
        == "tab_closed"@
}

/// Whether the input is an event of a kind in the tab.
pub open spec fn reports(input: Input, id: u32, kind: Kind) -> bool {
    input matches Input::Event(event) && event.tab_id == Some(id) && is_kind(event, kind)
}

/// Whether the input is an event of this time.
pub open spec fn happens_at(input: Input, ts_ms: u64) -> bool {
    input matches Input::Event(event) && event.ts_ms == ts_ms
}

/// Whether, from `start` up to `end`, the tab is not closed.
pub open spec fn stays_open(run: Run, start: int, end: int, id: u32) -> bool {
    forall|j: int| start <= j < end ==> !closes(#[trigger] run.inputs[j], id)
}

/// Whether the input `at`, of the time `ts_ms`, is the latest one before `end` that reports
/// something of a kind in the tab, and the tab was not closed since.
pub open spec fn latest_report(run: Run, at: int, end: int, id: u32, kind: Kind, ts_ms: u64) -> bool {
    &&& 0 <= at < end
    &&& reports(run.inputs[at], id, kind)
    &&& happens_at(run.inputs[at], ts_ms)
    &&& stays_open(run, at, end, id)
    &&& forall|j: int| at < j < end ==> !reports(#[trigger] run.inputs[j], id, kind)
}

/// A tab is open exactly if there was an event in it since it was last closed.
pub proof fn law_run_open_tabs(run: Run, k: int, id: u32)
    requires
        possible(run),
        0 <= k <= run.inputs.len(),
    ensures
        run.states[k].tabs.contains_key(id) <==> exists|at: int|
            0 <= at < k && happens_in(#[trigger] run.inputs[at], id) && stays_open(run, at, k, id),
    decreases k,
{
    if k > 0 {
        law_run_open_tabs(run, k - 1, id);
        let input = run.inputs[k - 1];
        assert(steps(run.states[k - 1], input, run.alerts[k - 1], run.states[k]));
        if happens_in(input, id) {
            assert(stays_open(run, k - 1, k, id));
        } else if closes(input, id) {
        } else {
            let end = k - 1;
            assert(run.states[k].tabs.contains_key(id) == run.states[k - 1].tabs.contains_key(id));
            if run.states[end].tabs.contains_key(id) {
                let at = choose|at: int|
                    0 <= at < end && happens_in(#[trigger] run.inputs[at], id) && stays_open(
                        run,
                        at,
                        end,
                        id,
                    );
                assert(stays_open(run, at, k, id));
            }
            if exists|at: int|
                0 <= at < k && happens_in(#[trigger] run.inputs[at], id) && stays_open(
                    run,
                    at,
                    k,
                    id,
                ) {
                let at = choose|at: int|
                    0 <= at < k && happens_in(#[trigger] run.inputs[at], id) && stays_open(
                        run,
                        at,
                        k,
                        id,
                    );
                assert(stays_open(run, at, end, id));
            }
        }
    }
}

/// The time stamp of a kind in an open tab is that of the latest event of the kind in it since
/// it was opened. Where there was none, there is no time stamp.
pub proof fn law_run_latest_stamp(run: Run, k: int, id: u32, kind: Kind, ts_ms: u64)
    requires
        possible(run),
        0 <= k <= run.inputs.len(),
        run.states[k].tabs.contains_key(id),
    ensures
        stamp_of(run.states[k].tabs[id], kind) == Some(ts_ms) <==> exists|at: int|
            latest_report(run, at, k, id, kind, ts_ms),
    decreases k,
{
    assert(k > 0);
    let before = run.states[k - 1];
    let after = run.states[k];
    let input = run.inputs[k - 1];
    let end = k - 1;
    assert(steps(before, input, run.alerts[k - 1], after));
    lemma_kinds_differ();
    if happens_in(input, id) {
        law_event_sets_its_stamp(before, input->Event_0, run.alerts[k - 1], after, id);
    }
    let is = stamp_of(after.tabs[id], kind) == Some(ts_ms);
    if reports(input, id, kind) {
        assert(stamp_of(after.tabs[id], kind) == Some(input->Event_0.ts_ms));
        if is {
            assert(latest_report(run, end, k, id, kind, ts_ms));
        }
        if exists|at: int| latest_report(run, at, k, id, kind, ts_ms) {
            let at = choose|at: int| latest_report(run, at, k, id, kind, ts_ms);
            if at < end {
                assert(!reports(run.inputs[end], id, kind));
            }
        }
    } else if before.tabs.contains_key(id) {
        law_run_latest_stamp(run, end, id, kind, ts_ms);
        assert(stamp_of(after.tabs[id], kind) == stamp_of(before.tabs[id], kind));
        if is {
            let at = choose|at: int| latest_report(run, at, end, id, kind, ts_ms);
            assert(latest_report(run, at, k, id, kind, ts_ms));
        }
        if exists|at: int| latest_report(run, at, k, id, kind, ts_ms) {
            let at = choose|at: int| latest_report(run, at, k, id, kind, ts_ms);
            assert(at != end);
            assert(latest_report(run, at, end, id, kind, ts_ms));
        }
    } else {
        assert(stamp_of(after.tabs[id], kind) is None);
        if exists|at: int| latest_report(run, at, k, id, kind, ts_ms) {
            let at = choose|at: int| latest_report(run, at, k, id, kind, ts_ms);
            assert(at != end);
            assert(stays_open(run, at, end, id));
            assert(happens_in(run.inputs[at], id));
            law_run_open_tabs(run, end, id);
        }
    }
}

} // verus!
