//! What the contents of a value are, field by field.
use vstd::prelude::*;

use crate::alert::{alert_views, Alert};
use crate::clock::{age_ms, stamp};
use crate::event::{state_of_details, BrowserEventV1, EventSummary};
use crate::score::{contribution_views, texts, OriginScore, ScoreContribution};
use crate::snapshot::{origin_views, DashboardSnapshot, OriginSnapshot};
use crate::state::{CorrelationState, TabState};
use crate::text::optional_text;

verus! {

/// The text of a string that is there is that of the string; the texts of some strings are
/// those of each.
pub proof fn law_texts(string: String, strings: Seq<String>)
    ensures
        optional_text(Some(string)) == Some(string@),
        optional_text(None) is None,
        texts(strings).len() == strings.len(),
        forall|i: int| 0 <= i < strings.len() ==> #[trigger] texts(strings)[i] == strings[i]@,
{
}

/// What is known of a tab is what its fields hold.
pub proof fn law_tab_contents(tab: TabState)
    ensures
        tab@.origin == optional_text(tab.origin),
        tab@.last_visibility == optional_text(tab.last_visibility),
        tab@.last_hidden_ms == tab.last_hidden_ms,
        tab@.last_worker_ms == tab.last_worker_ms,
        tab@.last_wasm_ms == tab.last_wasm_ms,
        tab@.last_media_ms == tab.last_media_ms,
        tab@.last_media_state == optional_text(tab.last_media_state),
        tab@.last_user_activity_ms == tab.last_user_activity_ms,
        tab@.last_seen_ms == tab.last_seen_ms,
{
}

/// What the monitor remembers is what its fields hold.
pub proof fn law_state_contents(state: CorrelationState, id: u32, i: int)
    ensures
        state@.tabs.contains_key(id) == state.tabs@.contains_key(id),
        state.tabs@.contains_key(id) ==> state@.tabs[id] == state.tabs@[id]@,
        state@.active_tab_id == state.active_tab_id,
        state@.last_alert_ms == state.last_alert_ms@,
        state@.cpu_high_since_ms == state.cpu_high_since_ms,
        state@.last_cpu_pct == state.last_cpu_pct,
        state@.events.len() == state.events@.len(),
        0 <= i < state.events@.len() ==> state@.events[i] == state.events@[i]@,
{
}

/// What is read of an event is what its fields hold.
pub proof fn law_event_contents(event: BrowserEventV1, entry: EventSummary)
    ensures
        event@.event_type == event.event_type@,
        event@.ts_ms == event.ts_ms,
        event@.origin == optional_text(event.origin),
        event@.tab_id == event.tab_id,
        event@.state == state_of_details(event.details),
        entry@.ts_ms == entry.ts_ms,
        entry@.event_type == entry.event_type@,
        entry@.origin == optional_text(entry.origin),
{
}

/// What a score says is what its fields hold.
pub proof fn law_score_contents(score: OriginScore, part: ScoreContribution, parts: Seq<ScoreContribution>)
    ensures
        score@.score == score.score,
        score@.reasons == texts(score.reasons@),
        score@.contributions == contribution_views(score.contributions@),
        score@.compute_present == score.compute_present,
        score@.hidden_present == score.hidden_present,
        score@.idle_present == score.idle_present,
        part@.name == part.name@,
        part@.weight == part.weight,
        contribution_views(parts).len() == parts.len(),
        forall|i: int| 0 <= i < parts.len() ==> #[trigger] contribution_views(parts)[i] == parts[i]@,
{
}

/// What an alert says is what its fields hold.
pub proof fn law_alert_contents(alert: Alert, alerts: Seq<Alert>)
    ensures
        alert@.origin == alert.origin@,
        alert@.score == alert.score,
        alert@.reasons == texts(alert.reasons@),
        alert@.ts_ms == alert.ts_ms,
        alert_views(alerts).len() == alerts.len(),
        forall|i: int| 0 <= i < alerts.len() ==> #[trigger] alert_views(alerts)[i] == alerts[i]@,
{
}

/// What a snapshot shows is what its fields hold.
pub proof fn law_snapshot_contents(
    snapshot: DashboardSnapshot,
    origin: OriginSnapshot,
    origins: Seq<OriginSnapshot>,
    i: int,
)
    ensures
        snapshot@.now_ms == snapshot.now_ms,
        snapshot@.cpu_pct == snapshot.cpu_pct,
        snapshot@.cpu_high == snapshot.cpu_high,
        snapshot@.cpu_high_active == snapshot.cpu_high_active,
        snapshot@.active_origin == optional_text(snapshot.active_origin),
        snapshot@.origins == origin_views(snapshot.origins@),
        snapshot@.last_events.len() == snapshot.last_events@.len(),
        0 <= i < snapshot.last_events@.len() ==> snapshot@.last_events[i]
            == snapshot.last_events@[i]@,
        origin@.origin == origin.origin@,
        origin@.score == origin.score,
        origin@.reasons == texts(origin.reasons@),
        origin@.contributions == contribution_views(origin.contributions@),
        origin@.last_visibility == optional_text(origin.last_visibility),
        origin@.last_compute_ms == origin.last_compute_ms,
        origin_views(origins).len() == origins.len(),
        forall|k: int| 0 <= k < origins.len() ==> #[trigger] origin_views(origins)[k] == origins[k]@,
{
}

/// A count of milliseconds that fits into 64 bits is its own time stamp; one that does not
/// starts over. Before the epoch every time stamp is zero.
pub proof fn law_stamp(elapsed_ms: u128)
    ensures
        elapsed_ms <= u64::MAX ==> stamp(Some(elapsed_ms)) == elapsed_ms,
        elapsed_ms >= 0x1_0000_0000_0000_0000 ==> stamp(Some(elapsed_ms)) == stamp(
            Some((elapsed_ms - 0x1_0000_0000_0000_0000) as u128),
        ),
        stamp(None) == 0,
{
}

/// A time stamp and its age make up the present. What lies in the future has no age.
pub proof fn law_age(ts_ms: u64, now_ms: u64)
    ensures
        ts_ms <= now_ms ==> ts_ms + age_ms(ts_ms, now_ms) == now_ms,
        ts_ms > now_ms ==> age_ms(ts_ms, now_ms) == 0,
{
}

} // verus!
