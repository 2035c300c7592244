//! What holds of alerts, in terms of what the monitor knows.
use vstd::prelude::*;

use crate::alert::{alert_for, alerts_on, answers, cooling, due, led, noted, AlertView};
use crate::correlate::recorded;
use crate::cpu::{cpu_is_high, sampled};
use crate::laws::{steps, Input};
use crate::laws_events::happens_in;
use crate::laws_score::{computes, lately_hidden, law_reasons_are_due, not_older, untouched};
use crate::ranking::{contender, leads, origin_in, score_in};
use crate::score::{tab_score, ScoreView};
use crate::state::StateView;

verus! {

/// Whether every sample of the load has been high for at least 10 seconds.
pub open spec fn load_is_high(state: StateView, now_ms: u64) -> bool {
    state.cpu_high_since_ms matches Some(ts_ms) && now_ms >= ts_ms + 10_000
}

/// Whether the tab is open, and its origin is this one.
pub open spec fn belongs_to(state: StateView, id: u32, origin: Seq<char>) -> bool {
    state.tabs.contains_key(id) && state.tabs[id].origin == Some(origin)
}

/// Whether nobody looks at an open tab: it was hidden lately, or it is not the active tab, was
/// heard of in the last 30 seconds, and its user has not been active for a while.
pub open spec fn unwatched(state: StateView, id: u32, now_ms: u64) -> bool {
    let tab = state.tabs[id];
    ||| lately_hidden(tab, now_ms)
    ||| untouched(tab, now_ms) && state.active_tab_id != Some(id) && not_older(
        tab.last_seen_ms,
        now_ms,
        30_000,
    )
}

/// Whether a tab of the origin computes while nobody looks at it.
pub open spec fn suspect(state: StateView, id: u32, origin: Seq<char>, now_ms: u64) -> bool {
    belongs_to(state, id, origin) && computes(state.tabs[id], now_ms) && unwatched(
        state,
        id,
        now_ms,
    )
}

/// What an open tab scores: by the load, by whether it is the active tab, and by whether it was
/// heard of in the last 30 seconds.
pub open spec fn score_of(state: StateView, id: u32, now_ms: u64) -> ScoreView {
    tab_score(
        state.tabs[id],
        now_ms,
        load_is_high(state, now_ms),
        state.active_tab_id == Some(id),
        not_older(state.tabs[id].last_seen_ms, now_ms, 30_000),
    )
}

/// Whether the origin was alerted on in the last 30 seconds.
pub open spec fn alerted_lately(last_alert_ms: Map<Seq<char>, u64>, origin: Seq<char>, now_ms: u64) -> bool {
    last_alert_ms.contains_key(origin) && now_ms <= last_alert_ms[origin] + 30_000
}

/// Whether one of the alerts is on the origin.
pub open spec fn has_alert(alerts: Seq<AlertView>, origin: Seq<char>) -> bool {
    exists|i: int| 0 <= i < alerts.len() && (#[trigger] alerts[i]).origin == origin
}

/// Whether the tab is a suspect of the origin that no other one outscores, and the alert gives
/// its reasons.
pub open spec fn speaks_for(
    state: StateView,
    id: u32,
    alert: AlertView,
    now_ms: u64,
) -> bool {
    &&& suspect(state, id, alert.origin, now_ms)
    &&& alert.reasons == score_of(state, id, now_ms).reasons
    &&& forall|other: u32| #[trigger]
        suspect(state, other, alert.origin, now_ms) ==> score_of(state, other, now_ms).score
            <= score_of(state, id, now_ms).score
}

/// What the monitor goes by is what is said here.
pub proof fn lemma_terms(state: StateView, id: u32, origin: Seq<char>, now_ms: u64)
    ensures
        cpu_is_high(state, now_ms) <==> load_is_high(state, now_ms),
        cooling(state, origin, now_ms) <==> alerted_lately(state.last_alert_ms, origin, now_ms),
        score_in(state, id, now_ms) == score_of(state, id, now_ms),
        contender(state, id, now_ms, true) && origin_in(state, id) == origin <==> suspect(
            state,
            id,
            origin,
            now_ms,
        ),
        contender(state, id, now_ms, false) && origin_in(state, id) == origin <==> belongs_to(
            state,
            id,
            origin,
        ),
{
    law_reasons_are_due(
        state.tabs[id],
        now_ms,
        cpu_is_high(state, now_ms),
        state.active_tab_id == Some(id),
        not_older(state.tabs[id].last_seen_ms, now_ms, 30_000),
    );
}

/// Whatever other tabs are open, and wherever the user looks: while the load is high, an origin
/// with a tab that computes unwatched is alerted on, or was in the last 30 seconds.
pub proof fn law_suspects_are_alerted_on(
    state: StateView,
    alerts: Seq<AlertView>,
    now_ms: u64,
    id: u32,
    origin: Seq<char>,
)
    requires
        answers(state, alerts, now_ms),
        load_is_high(state, now_ms),
        suspect(state, id, origin, now_ms),
    ensures
        has_alert(alerts, origin) || alerted_lately(state.last_alert_ms, origin, now_ms),
{
    lemma_terms(state, id, origin, now_ms);
    if !alerted_lately(state.last_alert_ms, origin, now_ms) {
        assert(due(state, origin, now_ms));
        assert(alerts_on(alerts, origin));
    }
}

/// Every alert has its cause: the load is high, the origin was not alerted on in the last 30
/// seconds, and one of its tabs computes unwatched. The alert is of this moment, scores one,
/// and gives the reasons of such a tab that no other one outscores. No origin is alerted on
/// twice at once.
pub proof fn law_alerts_have_cause(state: StateView, alerts: Seq<AlertView>, now_ms: u64, i: int)
    requires
        answers(state, alerts, now_ms),
        0 <= i < alerts.len(),
    ensures
        load_is_high(state, now_ms),
        !alerted_lately(state.last_alert_ms, alerts[i].origin, now_ms),
        alerts[i].ts_ms == now_ms,
        alerts[i].score == 0x3f80_0000,
        exists|id: u32| speaks_for(state, id, alerts[i], now_ms),
        forall|j: int| 0 <= j < alerts.len() && j != i ==> (#[trigger] alerts[j]).origin
            != alerts[i].origin,
{
    let origin = alerts[i].origin;
    assert(alerts_on(alerts, origin));
    assert(due(state, origin, now_ms));
    assert(led(state, alerts[i], now_ms));
    let id = choose|id: u32| #[trigger]
        leads(state, id, now_ms, true) && alerts[i] == alert_for(state, id, now_ms);
    lemma_terms(state, id, origin, now_ms);
    assert forall|other: u32| #[trigger] suspect(state, other, origin, now_ms) implies score_of(
        state,
        other,
        now_ms,
    ).score <= score_of(state, id, now_ms).score by {
        lemma_terms(state, other, origin, now_ms);
        assert(contender(state, other, now_ms, true));
    }
    assert(speaks_for(state, id, alerts[i], now_ms));
    assert forall|j: int| 0 <= j < alerts.len() && j != i implies (#[trigger] alerts[j]).origin
        != origin by {
        if j < i {
            assert(alerts[j].origin != alerts[i].origin);
        }
    }
}

/// After alerts, it is known of each of their origins that it was alerted on at that moment.
/// Nothing else changes.
pub proof fn law_alerts_are_noted(
    state: StateView,
    alerts: Seq<AlertView>,
    now_ms: u64,
    origin: Seq<char>,
)
    ensures
        ({
            let after = noted(state, alerts, now_ms);
            &&& has_alert(alerts, origin) ==> after.last_alert_ms.contains_key(origin)
                && after.last_alert_ms[origin] == now_ms
            &&& !has_alert(alerts, origin) ==> after.last_alert_ms.contains_key(origin)
                == state.last_alert_ms.contains_key(origin)
            &&& !has_alert(alerts, origin) && state.last_alert_ms.contains_key(origin)
                ==> after.last_alert_ms[origin] == state.last_alert_ms[origin]
            &&& after.tabs == state.tabs
            &&& after.active_tab_id == state.active_tab_id
            &&& after.cpu_high_since_ms == state.cpu_high_since_ms
            &&& after.last_cpu_pct == state.last_cpu_pct
            &&& after.events == state.events
        }),
{
    assert(has_alert(alerts, origin) == alerts_on(alerts, origin));
}

/// Whether an input makes the monitor look for alerts: a sample, or an event in a tab that
/// stays open.
pub open spec fn looks_for_alerts(input: Input) -> bool {
    input is Load || exists|id: u32| happens_in(input, id)
}

/// When an input was taken.
pub open spec fn taken_ms(input: Input) -> u64 {
    match input {
        Input::Event(event) => event.ts_ms,
        Input::Load { cpu_pct, ts_ms } => ts_ms,
    }
}

/// After an input, the alerts are those that are due by what is known then: an origin with a
/// tab that computes unwatched is alerted on while the load is high, if it was not in the last
/// 30 seconds, and no other origin is. What they are on is noted. Any other input gives none.
pub proof fn law_inputs_give_alerts(
    before: StateView,
    input: Input,
    alerts: Seq<AlertView>,
    after: StateView,
    origin: Seq<char>,
)
    requires
        steps(before, input, alerts, after),
    ensures
        ({
            let now_ms = taken_ms(input);
            &&& has_alert(alerts, origin) <==> looks_for_alerts(input) && load_is_high(
                after,
                now_ms,
            ) && !alerted_lately(before.last_alert_ms, origin, now_ms) && exists|id: u32|
                suspect(after, id, origin, now_ms)
            &&& after.last_alert_ms.contains_key(origin) <==> has_alert(alerts, origin)
                || before.last_alert_ms.contains_key(origin)
            &&& has_alert(alerts, origin) ==> after.last_alert_ms[origin] == now_ms
            &&& !has_alert(alerts, origin) && before.last_alert_ms.contains_key(origin)
                ==> after.last_alert_ms[origin] == before.last_alert_ms[origin]
            &&& forall|i: int|
                0 <= i < alerts.len() ==> (#[trigger] alerts[i]).ts_ms == now_ms
                    && alerts[i].score == 0x3f80_0000 && exists|id: u32|
                    speaks_for(after, id, alerts[i], now_ms)
        }),
{
    let now_ms = taken_ms(input);
    let state = match input {
        Input::Event(event) => recorded(before, event),
        Input::Load { cpu_pct, ts_ms } => sampled(before, cpu_pct, ts_ms),
    };
    assert(has_alert(alerts, origin) == alerts_on(alerts, origin));
    assert(state.last_alert_ms == before.last_alert_ms);
    if let Input::Event(event) = input {
        if let Some(id) = event.tab_id {
            if event.event_type != "tab_closed"@ {
                assert(happens_in(input, id));
            }
        }
    }
    if looks_for_alerts(input) {
        assert(answers(state, alerts, now_ms) && after == noted(state, alerts, now_ms));
        law_alerts_are_noted(state, alerts, now_ms, origin);
        if has_alert(alerts, origin) {
            let i = choose|i: int| 0 <= i < alerts.len() && (#[trigger] alerts[i]).origin == origin;
            law_alerts_have_cause(state, alerts, now_ms, i);
            let id = choose|id: u32| speaks_for(state, id, alerts[i], now_ms);
            assert(suspect(after, id, origin, now_ms));
        } else if load_is_high(after, now_ms) && exists|id: u32|
            suspect(after, id, origin, now_ms) {
            let id = choose|id: u32| suspect(after, id, origin, now_ms);
            assert(suspect(state, id, origin, now_ms));
            law_suspects_are_alerted_on(state, alerts, now_ms, id, origin);
        }
        assert forall|i: int| 0 <= i < alerts.len() implies (#[trigger] alerts[i]).ts_ms == now_ms
            && alerts[i].score == 0x3f80_0000 && exists|id: u32|
            speaks_for(after, id, alerts[i], now_ms) by {
            law_alerts_have_cause(state, alerts, now_ms, i);
            let id = choose|id: u32| speaks_for(state, id, alerts[i], now_ms);
            assert forall|other: u32| #[trigger]
                suspect(after, other, alerts[i].origin, now_ms) implies score_of(
                after,
                other,
                now_ms,
            ).score <= score_of(after, id, now_ms).score by {
                assert(suspect(state, other, alerts[i].origin, now_ms));
            }
            assert(speaks_for(after, id, alerts[i], now_ms));
        }
    } else {
        assert(alerts.len() == 0);
    }
}

} // verus!
