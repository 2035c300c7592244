//! Alerts on origins that compute while nobody is looking.
use vstd::prelude::*;

use crate::clock::{age_ms, is_recent};
use crate::cpu::{cpu_high, cpu_is_high};
use crate::ranking::{
    contender, covered, describes, distinct_origins, leaders, leads, lemma_leaders_lead, origin_in,
    rank_tabs, score_in, tab_ids, visits_tabs, walk_tabs,
};
use crate::score::texts;
use crate::single::{Single, ONE};
use crate::state::{CorrelationState, StateView};

verus! {

/// For how long an origin is not alerted on again.
pub const ALERT_COOLDOWN_MS: u64 = 30_000;

/// An alert on an origin.
#[derive(Debug)]
pub struct Alert {
    pub origin: String,
    pub score: Single,
    pub reasons: Vec<String>,
    pub ts_ms: u64,
}

/// The contents of an `Alert`.
#[verifier::ext_equal]
pub struct AlertView {
    pub origin: Seq<char>,
    pub score: Single,
    pub reasons: Seq<Seq<char>>,
    pub ts_ms: u64,
}

impl View for Alert {
    type V = AlertView;

    open spec fn view(&self) -> AlertView {
        AlertView {
            origin: self.origin@,
            score: self.score,
            reasons: texts(self.reasons@),
            ts_ms: self.ts_ms,
        }
    }
}

/// The contents of some alerts.
pub open spec fn alert_views(alerts: Seq<Alert>) -> Seq<AlertView> {
    alerts.map_values(|alert: Alert| alert@)
}

/// Whether the origin was alerted on so recently that it is left alone.
pub open spec fn cooling(state: StateView, origin: Seq<char>, now_ms: u64) -> bool {
    state.last_alert_ms.contains_key(origin) && age_ms(state.last_alert_ms[origin], now_ms)
        <= ALERT_COOLDOWN_MS
}

/// The alert on the origin of a tab. It gives the tab's reasons; every alert scores one.
pub open spec fn alert_for(state: StateView, id: u32, now_ms: u64) -> AlertView {
    AlertView {
        origin: origin_in(state, id),
        score: ONE,
        reasons: score_in(state, id, now_ms).reasons,
        ts_ms: now_ms,
    }
}

/// The alerts that come of visiting the tabs in the order of `walk`.
pub open spec fn alerts_of_walk(state: StateView, walk: Seq<u32>, now_ms: u64) -> Seq<AlertView> {
    if cpu_is_high(state, now_ms) {
        leaders(state, walk, now_ms, true).filter(
            |id: u32| !cooling(state, origin_in(state, id), now_ms),
        ).map_values(|id: u32| alert_for(state, id, now_ms))
    } else {
        Seq::empty()
    }
}

/// Whether one of the alerts is on the origin.
pub open spec fn alerts_on(alerts: Seq<AlertView>, origin: Seq<char>) -> bool {
    exists|i: int| 0 <= i < alerts.len() && (#[trigger] alerts[i]).origin == origin
}

/// The state after the alerts: nothing has changed but the times of the latest alerts.
pub open spec fn noted(state: StateView, alerts: Seq<AlertView>, now_ms: u64) -> StateView {
    StateView {
        last_alert_ms: Map::new(
            |origin: Seq<char>|
                state.last_alert_ms.contains_key(origin) || alerts_on(alerts, origin),
            |origin: Seq<char>|
                if alerts_on(alerts, origin) {
                    now_ms
                } else {
                    state.last_alert_ms[origin]
                },
        ),
        ..state
    }
}

/// Whether the origin is to be alerted on: the load is high, one of the origin's tabs is
/// suspicious, and the origin has not been alerted on recently.
pub open spec fn due(state: StateView, origin: Seq<char>, now_ms: u64) -> bool {
    &&& cpu_is_high(state, now_ms)
    &&& !cooling(state, origin, now_ms)
    &&& exists|id: u32| #[trigger]
        contender(state, id, now_ms, true) && origin_in(state, id) == origin
}

/// Whether the alert is on the origin of a tab that leads it.
pub open spec fn led(state: StateView, alert: AlertView, now_ms: u64) -> bool {
    exists|id: u32| #[trigger]
        leads(state, id, now_ms, true) && alert == alert_for(state, id, now_ms)
}

/// Whether these are the alerts that are due: one on each origin that is, with the reasons
/// of a tab that no other suspicious tab of the origin outscores.
pub open spec fn answers(state: StateView, alerts: Seq<AlertView>, now_ms: u64) -> bool {
    &&& forall|i: int, j: int|
        0 <= i < j < alerts.len() ==> (#[trigger] alerts[i]).origin != (#[trigger] alerts[j]).origin
    &&& forall|origin: Seq<char>| #[trigger]
        alerts_on(alerts, origin) <==> due(state, origin, now_ms)
    &&& forall|i: int| 0 <= i < alerts.len() ==> led(state, #[trigger] alerts[i], now_ms)
}

/// One more alert is noted.
proof fn lemma_noted_push(
    before: StateView,
    state: StateView,
    alerts: Seq<AlertView>,
    alert: AlertView,
    now_ms: u64,
)
    requires
        before == noted(state, alerts, now_ms),
    ensures
        noted(state, alerts.push(alert), now_ms) == (StateView {
            last_alert_ms: before.last_alert_ms.insert(alert.origin, now_ms),
            ..before
        }),
{
    let more = alerts.push(alert);
    assert forall|origin: Seq<char>|
        alerts_on(more, origin) <==> alerts_on(alerts, origin) || origin == alert.origin by {
        if alerts_on(alerts, origin) {
            let i = choose|i: int| 0 <= i < alerts.len() && (#[trigger] alerts[i]).origin == origin;
            assert(more[i].origin == origin);
        }
        if origin == alert.origin {
            assert(more[alerts.len() as int].origin == origin);
        }
        if alerts_on(more, origin) {
            let i = choose|i: int| 0 <= i < more.len() && (#[trigger] more[i]).origin == origin;
            if i < alerts.len() {
                assert(alerts[i].origin == origin);
            }
        }
    }
    assert(before.last_alert_ms.insert(alert.origin, now_ms) =~= noted(
        state,
        more,
        now_ms,
    ).last_alert_ms);
}

/// Alerts on the origins that are due, visiting the tabs in the order of `walk`.
pub fn evaluate_walk(state: &mut CorrelationState, walk: &Vec<u32>, now_ms: u64) -> (alerts: Vec<
    Alert,
>)
    ensures
        alert_views(alerts@) == alerts_of_walk(old(state)@, walk@, now_ms),
        final(state)@ == noted(old(state)@, alert_views(alerts@), now_ms),
{
    let mut alerts: Vec<Alert> = Vec::new();
    let ghost start = state@;
    proof {
        assert(alert_views(alerts@) =~= Seq::empty());
        assert(noted(start, alert_views(alerts@), now_ms).last_alert_ms =~= start.last_alert_ms);
    }
    if !cpu_high(state, now_ms) {
        return alerts;
    }
    let ranked = rank_tabs(state, walk, now_ms, true);
    let ghost all = ranked@;
    let ghost pred = |id: u32| !cooling(start, origin_in(start, id), now_ms);
    let ghost make = |id: u32| alert_for(start, id, now_ms);
    proof {
        reveal(Seq::filter);
        assert(tab_ids(all).take(0).filter(pred).map_values(make) =~= Seq::empty());
        crate::ranking::lemma_leaders(start, walk@, now_ms, true);
    }
    for leader in iter: ranked
        invariant
            iter.seq() == all,
            distinct_origins(start, tab_ids(all)),
            describes(start, all, now_ms),
            pred == |id: u32| !cooling(start, origin_in(start, id), now_ms),
            make == |id: u32| alert_for(start, id, now_ms),
            alert_views(alerts@) == tab_ids(all).take(iter.index() as int).filter(pred).map_values(
                make,
            ),
            state@ == noted(start, alert_views(alerts@), now_ms),
            forall|origin: Seq<char>| #[trigger]
                alerts_on(alert_views(alerts@), origin) ==> exists|j: int|
                    0 <= j < iter.index() && (#[trigger] all[j]).origin@ == origin,
    {
        let ghost k = iter.index();
        let ghost before = state@;
        let ghost views = alert_views(alerts@);
        let ghost id = leader.tab_id;
        proof {
            assert(leader == all[k]);
            assert(tab_ids(all)[k] == id);
            assert(tab_ids(all).take(k + 1).drop_last() =~= tab_ids(all).take(k));
            assert(tab_ids(all).take(k + 1).last() == id);
            reveal(Seq::filter);
            // No earlier alert is on this origin.
            if alerts_on(views, leader.origin@) {
                let j = choose|j: int| 0 <= j < k && (#[trigger] all[j]).origin@ == leader.origin@;
                assert(origin_in(start, tab_ids(all)[j]) != origin_in(start, tab_ids(all)[k]));
            }
            assert(cooling(state@, leader.origin@, now_ms) == cooling(
                start,
                leader.origin@,
                now_ms,
            ));
        }
        let recent: bool = match state.last_alert_ms.get(leader.origin.as_str()) {
            Some(last_alert_ms) => is_recent(*last_alert_ms, now_ms, ALERT_COOLDOWN_MS),
            None => false,
        };
        if !recent {
            state.last_alert_ms.insert(leader.origin.clone(), now_ms);
            let alert = Alert {
                origin: leader.origin,
                score: ONE,
                reasons: leader.details.reasons,
                ts_ms: now_ms,
            };
            proof {
                lemma_noted_push(before, start, views, alert@, now_ms);
            }
            alerts.push(alert);
            proof {
                assert(alert@ =~= alert_for(start, id, now_ms));
                assert(alert_views(alerts@) =~= views.push(alert@));
                let kept = tab_ids(all).take(k).filter(pred);
                assert(kept.push(id).map_values(make) =~= kept.map_values(make).push(make(id)));
                assert forall|origin: Seq<char>| #[trigger]
                    alerts_on(alert_views(alerts@), origin) implies exists|j: int|
                    0 <= j < k + 1 && (#[trigger] all[j]).origin@ == origin by {
                    let i = choose|i: int|
                        0 <= i < alerts@.len() && (#[trigger] alert_views(alerts@)[i]).origin
                            == origin;
                    if i < views.len() {
                        assert(views[i].origin == origin);
                        assert(alerts_on(views, origin));
                    } else {
                        assert(all[k].origin@ == origin);
                    }
                }
            }
        }
    }
    assert(tab_ids(all).take(all.len() as int) =~= tab_ids(all));
    alerts
}

/// A choice among tabs with different origins has different origins.
proof fn lemma_distinct_filter(state: StateView, ids: Seq<u32>, pred: spec_fn(u32) -> bool)
    requires
        distinct_origins(state, ids),
    ensures
        distinct_origins(state, ids.filter(pred)),
    decreases ids.len(),
{
    reveal(Seq::filter);
    if ids.len() > 0 {
        let rest = ids.drop_last();
        lemma_distinct_filter(state, rest, pred);
        let kept = rest.filter(pred);
        let found = ids.filter(pred);
        assert forall|i: int, j: int| 0 <= i < j < found.len() implies origin_in(
            state,
            #[trigger] found[i],
        ) != origin_in(state, #[trigger] found[j]) by {
            assert(found[i] == kept[i]);
            if j < kept.len() {
                assert(found[j] == kept[j]);
            } else {
                rest.lemma_filter_contains_rev(pred, kept[i]);
                let k = choose|k: int| 0 <= k < rest.len() && rest[k] == kept[i];
                assert(ids[k] == kept[i]);
                assert(ids[ids.len() - 1] == found[j]);
            }
        }
    }
}

/// Whatever the order of the walk, the alerts are those that are due.
pub proof fn lemma_walk_answers(state: StateView, walk: Seq<u32>, now_ms: u64)
    requires
        visits_tabs(state, walk),
    ensures
        answers(state, alerts_of_walk(state, walk, now_ms), now_ms),
{
    let alerts = alerts_of_walk(state, walk, now_ms);
    if cpu_is_high(state, now_ms) {
        let found = leaders(state, walk, now_ms, true);
        let pred = |id: u32| !cooling(state, origin_in(state, id), now_ms);
        let kept = found.filter(pred);
        lemma_leaders_lead(state, walk, now_ms, true);
        lemma_distinct_filter(state, found, pred);
        assert forall|i: int| 0 <= i < kept.len() implies leads(
            state,
            #[trigger] kept[i],
            now_ms,
            true,
        ) && pred(kept[i]) by {
            found.lemma_filter_contains_rev(pred, kept[i]);
            found.lemma_filter_pred(pred, i);
        }
        assert forall|i: int, j: int| 0 <= i < j < alerts.len() implies (
        #[trigger] alerts[i]).origin != (#[trigger] alerts[j]).origin by {
            assert(origin_in(state, kept[i]) != origin_in(state, kept[j]));
        }
        assert forall|origin: Seq<char>| #[trigger] alerts_on(alerts, origin) <==> due(
            state,
            origin,
            now_ms,
        ) by {
            if alerts_on(alerts, origin) {
                let i = choose|i: int|
                    0 <= i < alerts.len() && (#[trigger] alerts[i]).origin == origin;
                assert(leads(state, kept[i], now_ms, true));
                assert(contender(state, kept[i], now_ms, true));
            }
            if due(state, origin, now_ms) {
                let id = choose|id: u32| #[trigger]
                    contender(state, id, now_ms, true) && origin_in(state, id) == origin;
                assert(covered(state, found, id, now_ms));
                let k = choose|k: int|
                    0 <= k < found.len() && origin_in(state, #[trigger] found[k]) == origin_in(
                        state,
                        id,
                    ) && score_in(state, id, now_ms).score <= score_in(
                        state,
                        found[k],
                        now_ms,
                    ).score;
                found.lemma_filter_contains(pred, k);
                let i = choose|i: int| 0 <= i < kept.len() && kept[i] == found[k];
                assert(alerts[i].origin == origin);
            }
        }
        assert forall|i: int| 0 <= i < alerts.len() implies led(
            state,
            #[trigger] alerts[i],
            now_ms,
        ) by {
            assert(leads(state, kept[i], now_ms, true));
            assert(alerts[i] == alert_for(state, kept[i], now_ms));
        }
    }
}

/// Alerts on the origins that are due. In which order the alerts come, and which of several
/// tabs with the same score gives its reasons, rests on the order in which the map hands out
/// the tabs.
pub fn evaluate_alerts(state: &mut CorrelationState, now_ms: u64) -> (alerts: Vec<Alert>)
    ensures
        answers(old(state)@, alert_views(alerts@), now_ms),
        final(state)@ == noted(old(state)@, alert_views(alerts@), now_ms),
{
    let walk = walk_tabs(state);
    proof {
        lemma_walk_answers(state@, walk@, now_ms);
    }
    evaluate_walk(state, &walk, now_ms)
}

} // verus!
