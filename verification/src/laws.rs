//! What holds of the monitor as a whole.
use vstd::prelude::*;

use crate::alert::{alerts_on, answers, due, led, noted, AlertView, ALERT_COOLDOWN_MS};
use crate::clock::age_ms;
use crate::correlate::{handled, recorded, summary, IGNORED_ORIGIN};
use crate::cpu::{cpu_is_high, load_handled, sample_is_high, sampled};
use crate::event::{EventView, SummaryView};
use crate::ranking::{contender, has_origin, leads, origin_in, seen_recently};
use crate::score::{law_computing_scores, law_score_explained, law_signals};
use crate::single::ZERO;
use crate::snapshot::{shows, shows_leader, shows_origin, snapshot_with, OriginView};
use crate::state::{initial_state, remembered, StateView, TabView, MAX_EVENT_HISTORY};

verus! {

/// Whether the time stamps and texts of a tab fit together: whatever was reported of the tab,
/// it was seen; a tab that was hidden has a visibility; playback has a state.
pub open spec fn tab_consistent(tab: TabView) -> bool {
    &&& tab.last_visibility is Some ==> tab.last_seen_ms is Some
    &&& tab.last_hidden_ms is Some ==> tab.last_visibility is Some
    &&& tab.last_worker_ms is Some ==> tab.last_seen_ms is Some
    &&& tab.last_wasm_ms is Some ==> tab.last_seen_ms is Some
    &&& tab.last_media_ms is Some ==> tab.last_seen_ms is Some
    &&& tab.last_media_ms is Some <==> tab.last_media_state is Some
    &&& tab.last_user_activity_ms is Some ==> tab.last_seen_ms is Some
}

/// What every state of the monitor keeps to: the history is not longer than it may be, the
/// active tab is open and its origin is known, and the tabs are consistent.
pub open spec fn well_formed(state: StateView) -> bool {
    &&& state.events.len() <= MAX_EVENT_HISTORY
    &&& state.active_tab_id matches Some(id) ==> has_origin(state, id)
    &&& forall|id: u32| #[trigger]
        state.tabs.contains_key(id) ==> tab_consistent(state.tabs[id])
}

/// The monitor starts in a well-formed state.
pub proof fn law_initial_well_formed()
    ensures
        well_formed(initial_state()),
{
}

/// An event leads from a well-formed state to a well-formed state.
pub proof fn law_event_keeps_well_formed(
    before: StateView,
    event: EventView,
    alerts: Seq<AlertView>,
    after: StateView,
)
    requires
        well_formed(before),
        handled(before, event, alerts, after),
    ensures
        well_formed(after),
{
    let state = recorded(before, event);
    assert(well_formed(state)) by {
        if let Some(id) = event.tab_id {
            if let Some(active) = before.active_tab_id {
                assert(has_origin(before, active));
                assert(before.tabs.contains_key(active));
            }
            assert forall|other: u32| #[trigger] state.tabs.contains_key(other) implies tab_consistent(
                state.tabs[other],
            ) by {
                if other != id {
                    assert(before.tabs.contains_key(other));
                } else if before.tabs.contains_key(id) {
                    assert(tab_consistent(before.tabs[id]));
                }
            }
        } else {
            assert(state.tabs == before.tabs);
            if let Some(active) = before.active_tab_id {
                assert(has_origin(before, active));
            }
        }
    }
    assert(after.tabs == state.tabs);
    if let Some(active) = state.active_tab_id {
        assert(has_origin(state, active));
    }
}

/// A sample of the load leads from a well-formed state to a well-formed state.
pub proof fn law_sample_keeps_well_formed(
    before: StateView,
    cpu_pct: u32,
    ts_ms: u64,
    alerts: Seq<AlertView>,
    after: StateView,
)
    requires
        well_formed(before),
        load_handled(before, cpu_pct, ts_ms, alerts, after),
    ensures
        well_formed(after),
{
    assert(after.tabs == before.tabs);
    if let Some(active) = before.active_tab_id {
        assert(has_origin(before, active));
    }
}

/// An event in a tab leaves the other tabs as they were. Neither does it change anything of
/// the load.
pub proof fn law_event_touches_one_tab(
    before: StateView,
    event: EventView,
    alerts: Seq<AlertView>,
    after: StateView,
    other: u32,
)
    requires
        handled(before, event, alerts, after),
        event.tab_id != Some(other),
    ensures
        after.tabs.contains_key(other) == before.tabs.contains_key(other),
        after.tabs[other] == before.tabs[other],
        after.cpu_high_since_ms == before.cpu_high_since_ms,
        after.last_cpu_pct == before.last_cpu_pct,
{
}

/// A tab that is closed is forgotten, and gives no alert.
pub proof fn law_closing_forgets(
    before: StateView,
    event: EventView,
    alerts: Seq<AlertView>,
    after: StateView,
    id: u32,
)
    requires
        well_formed(before),
        handled(before, event, alerts, after),
        event.event_type == "tab_closed"@,
        event.tab_id == Some(id),
    ensures
        !after.tabs.contains_key(id),
        after.active_tab_id != Some(id),
        alerts.len() == 0,
        after.last_alert_ms == before.last_alert_ms,
{
    if before.active_tab_id == Some(id) {
        assert(has_origin(before, id));
    }
}

/// An open tab stays open, and its origin stays known, until it is closed.
pub proof fn law_origin_stays_known(
    before: StateView,
    event: EventView,
    alerts: Seq<AlertView>,
    after: StateView,
    id: u32,
)
    requires
        handled(before, event, alerts, after),
        has_origin(before, id),
        event.event_type != "tab_closed"@ || event.tab_id != Some(id),
    ensures
        has_origin(after, id),
        event.tab_id == Some(id) && event.origin is Some ==> after.tabs[id].origin == event.origin,
        event.tab_id != Some(id) || event.origin is None ==> after.tabs[id].origin
            == before.tabs[id].origin,
{
}

/// The report of an active tab makes it the active one, unless its origin is ignored: then no
/// tab is active.
pub proof fn law_activation(
    before: StateView,
    event: EventView,
    alerts: Seq<AlertView>,
    after: StateView,
    id: u32,
)
    requires
        handled(before, event, alerts, after),
        event.event_type == "tab_active"@,
        event.tab_id == Some(id),
        event.origin is Some,
    ensures
        after.active_tab_id == (if event.origin == Some(IGNORED_ORIGIN@) {
            None
        } else {
            Some(id)
        }),
{
    reveal_strlit("tab_active");
    reveal_strlit("tab_closed");
    assert("tab_active"@[4] != "tab_closed"@[4]);
}

/// What is left of a whole series of events: its latest part, as far as it fits.
pub open spec fn latest_events(events: Seq<SummaryView>) -> Seq<SummaryView> {
    if events.len() > MAX_EVENT_HISTORY {
        events.skip(events.len() - MAX_EVENT_HISTORY)
    } else {
        events
    }
}

/// However many events there were, the history holds the latest of them, in their order.
pub proof fn law_history_is_latest(events: Seq<SummaryView>, event: SummaryView)
    ensures
        remembered(latest_events(events), event) == latest_events(events.push(event)),
        remembered(latest_events(events), event).last() == event,
{
    assert(remembered(latest_events(events), event) =~= latest_events(events.push(event)));
}

/// What the monitor takes in.
pub enum Input {
    Event(EventView),
    Load { cpu_pct: u32, ts_ms: u64 },
}

/// When an input was taken.
pub open spec fn input_ms(input: Input) -> u64 {
    match input {
        Input::Event(event) => event.ts_ms,
        Input::Load { cpu_pct, ts_ms } => ts_ms,
    }
}

/// The entry of the history for an input.
pub open spec fn input_summary(input: Input) -> SummaryView {
    match input {
        Input::Event(event) => summary(event),
        Input::Load { cpu_pct, ts_ms } => SummaryView {
            ts_ms,
            event_type: "cpu_sample"@,
            origin: None,
        },
    }
}

/// Whether an input leads from one state to the other, and gives these alerts.
pub open spec fn steps(before: StateView, input: Input, alerts: Seq<AlertView>, after: StateView) -> bool {
    match input {
        Input::Event(event) => handled(before, event, alerts, after),
        Input::Load { cpu_pct, ts_ms } => load_handled(before, cpu_pct, ts_ms, alerts, after),
    }
}

/// A run of the monitor: what it took in, the alerts that it gave on each input, and the
/// states that it was in.
pub struct Run {
    pub inputs: Seq<Input>,
    pub alerts: Seq<Seq<AlertView>>,
    pub states: Seq<StateView>,
}

/// Whether this can happen from the start of the monitor on.
pub open spec fn possible(run: Run) -> bool {
    &&& run.alerts.len() == run.inputs.len()
    &&& run.states.len() == run.inputs.len() + 1
    &&& run.states[0] == initial_state()
    &&& forall|k: int|
        #![trigger run.inputs[k]]
        0 <= k < run.inputs.len() ==> steps(
            run.states[k],
            run.inputs[k],
            run.alerts[k],
            run.states[k + 1],
        )
}

/// Every state of a run is well-formed.
pub proof fn law_run_well_formed(run: Run, k: int)
    requires
        possible(run),
        0 <= k <= run.inputs.len(),
    ensures
        well_formed(run.states[k]),
    decreases k,
{
    if k > 0 {
        law_run_well_formed(run, k - 1);
        match run.inputs[k - 1] {
            Input::Event(event) => {
                law_event_keeps_well_formed(
                    run.states[k - 1],
                    event,
                    run.alerts[k - 1],
                    run.states[k],
                );
            },
            Input::Load { cpu_pct, ts_ms } => {
                law_sample_keeps_well_formed(
                    run.states[k - 1],
                    cpu_pct,
                    ts_ms,
                    run.alerts[k - 1],
                    run.states[k],
                );
            },
        }
    }
}

/// At every moment of a run, the history holds the latest inputs, in their order.
pub proof fn law_run_history(run: Run, k: int)
    requires
        possible(run),
        0 <= k <= run.inputs.len(),
    ensures
        run.states[k].events == latest_events(
            run.inputs.take(k).map_values(|input: Input| input_summary(input)),
        ),
    decreases k,
{
    let entries = |n: int| run.inputs.take(n).map_values(|input: Input| input_summary(input));
    if k > 0 {
        law_run_history(run, k - 1);
        let input = run.inputs[k - 1];
        law_history_is_latest(entries(k - 1), input_summary(input));
        assert(entries(k) =~= entries(k - 1).push(input_summary(input)));
    } else {
        assert(entries(0) =~= Seq::empty());
    }
}

/// One step of a run: an origin that is alerted on was not alerted on for more than the
/// cooldown; its latest alert is noted; the other origins keep theirs.
proof fn lemma_alert_step(run: Run, k: int, origin: Seq<char>)
    requires
        possible(run),
        0 <= k < run.inputs.len(),
    ensures
        ({
            let before = run.states[k].last_alert_ms;
            let after = run.states[k + 1].last_alert_ms;
            let now = input_ms(run.inputs[k]);
            if alerts_on(run.alerts[k], origin) {
                &&& after.contains_key(origin) && after[origin] == now
                &&& before.contains_key(origin) ==> now > before[origin] + ALERT_COOLDOWN_MS
            } else {
                &&& after.contains_key(origin) == before.contains_key(origin)
                &&& before.contains_key(origin) ==> after[origin] == before[origin]
            }
        }),
{
    let input = run.inputs[k];
    let now = input_ms(input);
    let alerts = run.alerts[k];
    let state = match input {
        Input::Event(event) => recorded(run.states[k], event),
        Input::Load { cpu_pct, ts_ms } => sampled(run.states[k], cpu_pct, ts_ms),
    };
    assert(state.last_alert_ms == run.states[k].last_alert_ms);
    if alerts_on(alerts, origin) {
        assert(due(state, origin, now));
    }
}

/// Once an origin is alerted on, its latest alert is never noted as an earlier one.
proof fn lemma_alert_noted(run: Run, i: int, k: int, origin: Seq<char>)
    requires
        possible(run),
        0 <= i < k <= run.inputs.len(),
        alerts_on(run.alerts[i], origin),
    ensures
        run.states[k].last_alert_ms.contains_key(origin),
        run.states[k].last_alert_ms[origin] >= input_ms(run.inputs[i]),
    decreases k,
{
    lemma_alert_step(run, k - 1, origin);
    if k - 1 > i {
        lemma_alert_noted(run, i, k - 1, origin);
    }
}

/// Two alerts on the same origin lie more than 30 seconds apart, whatever happens between
/// them.
pub proof fn law_alerts_apart(run: Run, i: int, j: int, origin: Seq<char>)
    requires
        possible(run),
        0 <= i < j < run.inputs.len(),
        alerts_on(run.alerts[i], origin),
        alerts_on(run.alerts[j], origin),
    ensures
        input_ms(run.inputs[j]) > input_ms(run.inputs[i]) + 30_000,
{
    lemma_alert_noted(run, i, j, origin);
    lemma_alert_step(run, j, origin);
}

/// Whether every sample of the load from `start` up to `end` is high.
pub open spec fn all_high(run: Run, start: int, end: int) -> bool {
    forall|k: int|
        start <= k < end ==> (#[trigger] run.inputs[k] matches Input::Load { cpu_pct, ts_ms }
            ==> sample_is_high(cpu_pct))
}

/// Whether the input is a high sample that was taken at `ts_ms`.
pub open spec fn high_sample_at(input: Input, ts_ms: u64) -> bool {
    input matches Input::Load { cpu_pct, ts_ms: taken_ms } && sample_is_high(cpu_pct) && taken_ms
        == ts_ms
}

/// Whether the samples before `end` have been high since the sample `start`, which was taken
/// at `ts_ms`.
pub open spec fn high_since(run: Run, start: int, end: int, ts_ms: u64) -> bool {
    0 <= start < end && high_sample_at(run.inputs[start], ts_ms) && all_high(run, start, end)
}

/// The load counts as high from a sample on only if that sample and every later one is high.
pub proof fn law_load_is_high_since(run: Run, k: int)
    requires
        possible(run),
        0 <= k <= run.inputs.len(),
    ensures
        run.states[k].cpu_high_since_ms matches Some(ts_ms) ==> exists|start: int|
            high_since(run, start, k, ts_ms),
    decreases k,
{
    if k > 0 {
        law_load_is_high_since(run, k - 1);
        let before = run.states[k - 1];
        let after = run.states[k];
        if let Some(ts_ms) = after.cpu_high_since_ms {
            if before.cpu_high_since_ms == after.cpu_high_since_ms {
                let end = k - 1;
                let start = choose|start: int| high_since(run, start, end, ts_ms);
                assert(high_since(run, start, k, ts_ms));
            } else {
                assert(high_since(run, k - 1, k, ts_ms));
            }
        }
    }
}

/// From the first high sample on, the load counts as high since then for as long as every
/// sample is high.
pub proof fn law_load_stays_high(run: Run, start: int, k: int, ts_ms: u64)
    requires
        possible(run),
        start < k <= run.inputs.len(),
        run.states[start].cpu_high_since_ms is None,
        high_since(run, start, k, ts_ms),
    ensures
        run.states[k].cpu_high_since_ms == Some(ts_ms),
        forall|now_ms: u64| #[trigger]
            cpu_is_high(run.states[k], now_ms) <==> age_ms(ts_ms, now_ms) >= 10_000,
    decreases k,
{
    let input = run.inputs[k - 1];
    assert(steps(run.states[k - 1], input, run.alerts[k - 1], run.states[k]));
    if k - 1 > start {
        assert(high_since(run, start, k - 1, ts_ms));
        law_load_stays_high(run, start, k - 1, ts_ms);
    }
}

/// A low sample ends it: the load is not high after it.
pub proof fn law_low_load_resets(
    before: StateView,
    cpu_pct: u32,
    ts_ms: u64,
    alerts: Seq<AlertView>,
    after: StateView,
    now_ms: u64,
)
    requires
        load_handled(before, cpu_pct, ts_ms, alerts, after),
        !sample_is_high(cpu_pct),
    ensures
        !cpu_is_high(after, now_ms),
        alerts.len() == 0,
{
    law_no_alert_while_load_is_low(sampled(before, cpu_pct, ts_ms), alerts, ts_ms);
}

/// While the load is not high, there is no alert.
pub proof fn law_no_alert_while_load_is_low(state: StateView, alerts: Seq<AlertView>, now_ms: u64)
    requires
        answers(state, alerts, now_ms),
        !cpu_is_high(state, now_ms),
    ensures
        alerts.len() == 0,
{
    if alerts.len() > 0 {
        assert(alerts_on(alerts, alerts[0].origin));
        assert(due(state, alerts[0].origin, now_ms));
    }
}

/// Whether, at `now_ms`, the samples before `end` had been high for at least 10 seconds.
pub open spec fn load_was_high(run: Run, end: int, now_ms: u64) -> bool {
    exists|start: int, ts_ms: u64| #[trigger]
        high_since(run, start, end, ts_ms) && age_ms(ts_ms, now_ms) >= 10_000
}

/// Every alert of a run comes at least 10 seconds after a high sample since which every
/// sample was high.
pub proof fn law_alert_needs_load(run: Run, k: int)
    requires
        possible(run),
        0 <= k < run.inputs.len(),
        run.alerts[k].len() > 0,
    ensures
        load_was_high(run, k + 1, input_ms(run.inputs[k])),
{
    let input = run.inputs[k];
    let state = match input {
        Input::Event(event) => recorded(run.states[k], event),
        Input::Load { cpu_pct, ts_ms } => sampled(run.states[k], cpu_pct, ts_ms),
    };
    assert(steps(run.states[k], input, run.alerts[k], run.states[k + 1]));
    if !cpu_is_high(state, input_ms(input)) {
        law_no_alert_while_load_is_low(state, run.alerts[k], input_ms(input));
    }
    assert(run.states[k + 1].cpu_high_since_ms == state.cpu_high_since_ms);
    law_load_is_high_since(run, k + 1);
    let ts_ms = state.cpu_high_since_ms->0;
    let end = k + 1;
    let start = choose|start: int| high_since(run, start, end, ts_ms);
    assert(high_since(run, start, k + 1, ts_ms));
}

/// Every alert says why: the load is high, the origin computes, and nobody is looking.
pub proof fn law_alert_says_why(state: StateView, alerts: Seq<AlertView>, now_ms: u64, i: int)
    requires
        answers(state, alerts, now_ms),
        0 <= i < alerts.len(),
    ensures
        ({
            let gives = |reason: Seq<char>| alerts[i].reasons.contains(reason);
            &&& gives("cpu_high_active"@) || gives("cpu_high_global"@)
            &&& gives("worker_created"@) || gives("wasm_instantiate"@) || gives("media_playing"@)
            &&& gives("tab_hidden"@) || gives("idle"@)
        }),
{
    assert(led(state, alerts[i], now_ms));
    let id = choose|id: u32| #[trigger]
        leads(state, id, now_ms, true) && alerts[i] == crate::alert::alert_for(state, id, now_ms);
    assert(alerts_on(alerts, alerts[i].origin));
    assert(due(state, alerts[i].origin, now_ms));
    let tab = state.tabs[id];
    let active = state.active_tab_id == Some(id);
    law_score_explained(tab, now_ms, true, active, seen_recently(tab, now_ms));
    law_signals(tab, now_ms, true, active, seen_recently(tab, now_ms));
}

/// The order in which the tabs are visited decides neither which origins are alerted on, nor
/// what is noted.
pub proof fn law_order_decides_no_alert(
    state: StateView,
    alerts: Seq<AlertView>,
    others: Seq<AlertView>,
    now_ms: u64,
)
    requires
        answers(state, alerts, now_ms),
        answers(state, others, now_ms),
    ensures
        forall|origin: Seq<char>| #[trigger]
            alerts_on(alerts, origin) <==> alerts_on(others, origin),
        noted(state, alerts, now_ms) == noted(state, others, now_ms),
{
    assert forall|origin: Seq<char>| #[trigger] alerts_on(alerts, origin) <==> alerts_on(
        others,
        origin,
    ) by {
        assert(alerts_on(alerts, origin) <==> due(state, origin, now_ms));
        assert(alerts_on(others, origin) <==> due(state, origin, now_ms));
    }
    assert(noted(state, alerts, now_ms).last_alert_ms =~= noted(
        state,
        others,
        now_ms,
    ).last_alert_ms);
}

/// Nor does it decide which origins are shown, with which scores.
pub proof fn law_order_decides_no_score(
    state: StateView,
    origins: Seq<OriginView>,
    others: Seq<OriginView>,
    now_ms: u64,
    i: int,
)
    requires
        shows(state, origins, now_ms),
        shows(state, others, now_ms),
        0 <= i < origins.len(),
    ensures
        exists|j: int|
            0 <= j < others.len() && (#[trigger] others[j]).origin == origins[i].origin
                && others[j].score == origins[i].score,
{
    assert(shows_leader(state, origins[i], now_ms));
    let id = choose|id: u32| #[trigger]
        leads(state, id, now_ms, false) && origins[i] == crate::snapshot::origin_snapshot(
            state,
            id,
            now_ms,
        );
    assert(has_origin(state, id));
    assert(shows_origin(others, origin_in(state, id)));
    let j = choose|j: int|
        0 <= j < others.len() && (#[trigger] others[j]).origin == origin_in(state, id);
    assert(shows_leader(state, others[j], now_ms));
    let other = choose|other: u32| #[trigger]
        leads(state, other, now_ms, false) && others[j] == crate::snapshot::origin_snapshot(
            state,
            other,
            now_ms,
        );
    assert(contender(state, id, now_ms, false) && contender(state, other, now_ms, false));
}

/// An origin that is alerted on is also shown on the dashboards, with a score above zero.
pub proof fn law_alert_is_shown(
    state: StateView,
    alerts: Seq<AlertView>,
    origins: Seq<OriginView>,
    now_ms: u64,
    i: int,
)
    requires
        answers(state, alerts, now_ms),
        shows(state, origins, now_ms),
        0 <= i < alerts.len(),
    ensures
        exists|j: int|
            0 <= j < origins.len() && (#[trigger] origins[j]).origin == alerts[i].origin
                && origins[j].score > ZERO,
{
    assert(led(state, alerts[i], now_ms));
    let id = choose|id: u32| #[trigger]
        leads(state, id, now_ms, true) && alerts[i] == crate::alert::alert_for(state, id, now_ms);
    let tab = state.tabs[id];
    law_computing_scores(
        tab,
        now_ms,
        cpu_is_high(state, now_ms),
        state.active_tab_id == Some(id),
        seen_recently(tab, now_ms),
    );
    assert(has_origin(state, id));
    assert(shows_origin(origins, origin_in(state, id)));
    let j = choose|j: int|
        0 <= j < origins.len() && (#[trigger] origins[j]).origin == origin_in(state, id);
    assert(shows_leader(state, origins[j], now_ms));
    let best = choose|best: u32| #[trigger]
        leads(state, best, now_ms, false) && origins[j] == crate::snapshot::origin_snapshot(
            state,
            best,
            now_ms,
        );
    assert(contender(state, id, now_ms, false));
}

/// The dashboards say that the load of the active tab is high exactly when the load is high
/// and a tab is active.
pub proof fn law_active_load(state: StateView, origins: Seq<OriginView>, now_ms: u64)
    requires
        well_formed(state),
    ensures
        snapshot_with(state, origins, now_ms).cpu_high_active <==> cpu_is_high(state, now_ms)
            && state.active_tab_id is Some,
{
    if let Some(id) = state.active_tab_id {
        assert(has_origin(state, id));
    }
}

} // verus!
