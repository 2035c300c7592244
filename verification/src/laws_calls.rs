//! What callers get from the monitor's functions, in terms of what they hand in.
use serde_json::Value;
use vstd::arithmetic::power2::pow2;
use vstd::prelude::*;

use crate::alert::{alert_views, alerts_of_walk, evaluate_alerts, evaluate_walk, noted, Alert};
use crate::clock::{epoch_ms, is_recent};
use crate::correlate::{handle_event, record_event, recorded, with_state};
use crate::cpu::{
    browser_load, chrome_cpu_pct, cpu_high, is_browser, record_sample, sample_cpu, sampled,
    ProcessLoad,
};
use crate::event::{details_state, text_members, BrowserEventV1, EventSummary};
use crate::ingest::{ingest, IngestReply};
use crate::laws::{steps, Input};
use crate::laws_alerts::{
    alerted_lately, has_alert, law_alerts_have_cause, law_suspects_are_alerted_on, lemma_terms,
    load_is_high, speaks_for, suspect,
};
use crate::laws_events::grows_by;
use crate::laws_load::{is_chrome, law_names_of_the_browser};
use crate::laws_text::{law_decimal, number_in};
use crate::ranking::{describes, leaders, rank_tabs, tab_ids, walk_tabs, Leader};
use crate::record::{alert_record, load_record, AlertRecord, LoadRecord};
use crate::schema::{
    compiles, event_schema, minus_zero, objections, parsed, patterned, refers, repeatable, EventSchema,
    SchemaFault,
};
use crate::score::{decayed, decayed_weight, score_tab, tab_score, texts, OriginScore};
use crate::single::{
    is_nearest, law_results_are_nearest, magnitude, minus, of_u64, over, plus, plus_signed,
    signed_product, signed_sum, times, times_signed, Single,
};
use crate::snapshot::{
    build_snapshot, origins_of_walk, shows, snapshot_walk, snapshot_with, DashboardSnapshot,
};
use crate::state::{remember, CorrelationState, StateView, TabState};
use crate::terminal::{
    dashboard_lines, decimal_text, format_reasons, reasons_text, terminal_lines,
};
use crate::text::{copy_optional, occurs, occurs_in, optional_reads, optional_text, reads};

verus! {

/// The record of an alert says what the alert says, under the name of alerts.
pub proof fn law_alert_record(alert: Alert, record: AlertRecord)
    requires
        call_ensures(alert_record, (alert,), record),
    ensures
        record.event_type@ == "alert_suspicious_compute"@,
        record.ts_ms == alert.ts_ms,
        record.origin@ == alert.origin@,
        record.score == alert.score,
        texts(record.reasons@) == texts(alert.reasons@),
{
}

/// The record of a sample says how high the load was, and when.
pub proof fn law_load_record(cpu_pct: u32, ts_ms: u64, record: LoadRecord)
    requires
        call_ensures(load_record, (cpu_pct, ts_ms), record),
    ensures
        record.event_type@ == "cpu_sample"@,
        record.process@ == "chrome"@,
        record.ts_ms == ts_ms,
        record.cpu_pct == cpu_pct,
{
}

/// The score of a tab is the one that its contents call for.
pub proof fn law_score_tab(
    tab: &TabState,
    now_ms: u64,
    cpu_high: bool,
    active: bool,
    seen_recent: bool,
    details: OriginScore,
)
    requires
        call_ensures(score_tab, (tab, now_ms, cpu_high, active, seen_recent), details),
    ensures
        details@ == tab_score(tab@, now_ms, cpu_high, active, seen_recent),
{
}

/// What is left of a weight is what is left by the time that has passed.
pub proof fn law_decayed_weight(
    ts_ms: Option<u64>,
    now_ms: u64,
    window_ms: u64,
    weight: Single,
    left: Single,
)
    requires
        call_ensures(decayed_weight, (ts_ms, now_ms, window_ms, weight), left),
    ensures
        left == decayed(ts_ms, now_ms, window_ms, weight),
{
}

/// Who asks for alerts gets one on each origin with a tab that computes unwatched while the
/// load is high, but for those alerted on in the last 30 seconds. Each is of this moment, and
/// gives the reasons of the best such tab. They are noted, and nothing else changes.
pub proof fn law_evaluate_alerts(
    state: &mut CorrelationState,
    now_ms: u64,
    alerts: Vec<Alert>,
    origin: Seq<char>,
)
    requires
        call_ensures(evaluate_alerts, (state, now_ms), alerts),
    ensures
        has_alert(alert_views(alerts@), origin) <==> load_is_high(old(state)@, now_ms)
            && !alerted_lately(old(state)@.last_alert_ms, origin, now_ms) && exists|id: u32|
            suspect(old(state)@, id, origin, now_ms),
        forall|i: int|
            0 <= i < alerts@.len() ==> (#[trigger] alert_views(alerts@)[i]).ts_ms == now_ms
                && alert_views(alerts@)[i].score == 0x3f80_0000 && exists|id: u32|
                speaks_for(old(state)@, id, alert_views(alerts@)[i], now_ms),
        final(state)@ == noted(old(state)@, alert_views(alerts@), now_ms),
{
    let views = alert_views(alerts@);
    let start = old(state)@;
    if has_alert(views, origin) {
        let i = choose|i: int| 0 <= i < views.len() && (#[trigger] views[i]).origin == origin;
        law_alerts_have_cause(start, views, now_ms, i);
        let id = choose|id: u32| speaks_for(start, id, views[i], now_ms);
        assert(suspect(start, id, origin, now_ms));
    } else if load_is_high(start, now_ms) && exists|id: u32| suspect(start, id, origin, now_ms) {
        let id = choose|id: u32| suspect(start, id, origin, now_ms);
        law_suspects_are_alerted_on(start, views, now_ms, id, origin);
    }
    assert forall|i: int| 0 <= i < alerts@.len() implies (#[trigger] views[i]).ts_ms == now_ms
        && views[i].score == 0x3f80_0000 && exists|id: u32|
        speaks_for(start, id, views[i], now_ms) by {
        law_alerts_have_cause(start, views, now_ms, i);
    }
}

/// The alerts on a walk of the tabs are those of the walk.
pub proof fn law_evaluate_walk(
    state: &mut CorrelationState,
    walk: &Vec<u32>,
    now_ms: u64,
    alerts: Vec<Alert>,
)
    requires
        call_ensures(evaluate_walk, (state, walk, now_ms), alerts),
    ensures
        alert_views(alerts@) == alerts_of_walk(old(state)@, walk@, now_ms),
        final(state)@ == noted(old(state)@, alert_views(alerts@), now_ms),
{
}

/// An event takes the monitor one step further.
pub proof fn law_handle_event(
    payload: &BrowserEventV1,
    state: &mut CorrelationState,
    alerts: Vec<Alert>,
)
    requires
        call_ensures(handle_event, (payload, state), alerts),
    ensures
        steps(old(state)@, Input::Event(payload@), alert_views(alerts@), final(state)@),
{
}

/// A sample of the load takes the monitor one step further.
pub proof fn law_sample_cpu(
    state: &mut CorrelationState,
    cpu_pct: u32,
    ts_ms: u64,
    alerts: Vec<Alert>,
)
    requires
        call_ensures(sample_cpu, (state, cpu_pct, ts_ms), alerts),
    ensures
        steps(old(state)@, Input::Load { cpu_pct, ts_ms }, alert_views(alerts@), final(state)@),
{
}

/// Recording an event does all of that step but for the alerts, and tells whether they are
/// called for: exactly by an event in a tab that stays open.
pub proof fn law_record_event(
    event: &BrowserEventV1,
    state_value: Option<String>,
    state: &mut CorrelationState,
    look: bool,
)
    requires
        call_ensures(record_event, (event, state_value, state), look),
    ensures
        final(state)@ == recorded(old(state)@, with_state(event@, optional_text(state_value))),
        look <==> event.tab_id is Some && event.event_type@ != "tab_closed"@,
        with_state(event@, optional_text(state_value)).state == optional_text(state_value),
        with_state(event@, optional_text(state_value)).event_type == event.event_type@,
        with_state(event@, optional_text(state_value)).ts_ms == event.ts_ms,
        with_state(event@, optional_text(state_value)).tab_id == event.tab_id,
        with_state(event@, optional_text(state_value)).origin == optional_text(event.origin),
{
}

/// Recording a sample does all of that step but for the alerts.
pub proof fn law_record_sample(state: &mut CorrelationState, cpu_pct: u32, ts_ms: u64)
    requires
        call_ensures(record_sample, (state, cpu_pct, ts_ms), ()),
    ensures
        final(state)@ == sampled(old(state)@, cpu_pct, ts_ms),
{
}

/// Remembering an event adds it to the history, and changes nothing else.
pub proof fn law_remember(state: &mut CorrelationState, event: EventSummary)
    requires
        call_ensures(remember, (state, event), ()),
        old(state)@.events.len() <= 50,
    ensures
        grows_by(old(state)@.events, final(state)@.events, event@),
        final(state)@ == (StateView { events: final(state)@.events, ..old(state)@ }),
{
}

/// An event that comes with its JSON value is accepted, and named in the answer; what the
/// schema objects to is handed out. One without is refused, and changes nothing.
pub proof fn law_ingest(
    payload: &BrowserEventV1,
    value: Option<&Value>,
    schema: &EventSchema,
    state: &mut CorrelationState,
    answer: (IngestReply, Vec<String>, Vec<Alert>),
)
    requires
        call_ensures(ingest, (payload, value, schema, state), answer),
    ensures
        value is Some ==> {
            &&& answer.0 matches IngestReply::Accepted { received_event_type, ts_ms }
            &&& received_event_type@ == payload.event_type@
            &&& ts_ms == payload.ts_ms
            &&& repeatable(schema.document(), *value->0) ==> texts(answer.1@) == objections(
                schema.document(),
                *value->0,
            )
            &&& steps(old(state)@, Input::Event(payload@), alert_views(answer.2@), final(state)@)
        },
        value is None ==> {
            &&& answer.0 matches IngestReply::Refused { error }
            &&& error@ == "serialize_failed"@
            &&& answer.1@.len() == 0
            &&& answer.2@.len() == 0
            &&& final(state)@ == old(state)@
        },
{
}

/// The load is high exactly after 10 seconds of high samples.
pub proof fn law_cpu_high(state: &CorrelationState, now_ms: u64, high: bool)
    requires
        call_ensures(cpu_high, (state, now_ms), high),
    ensures
        high <==> load_is_high(state@, now_ms),
{
    lemma_terms(state@, 0, Seq::empty(), now_ms);
}

/// A process belongs to the browser exactly by its name.
pub proof fn law_is_browser(name: &str, is: bool)
    requires
        call_ensures(is_browser, (name,), is),
    ensures
        is <==> is_chrome(name@),
{
    law_names_of_the_browser(name@);
}

/// The load of the browser is that of its processes.
pub proof fn law_chrome_cpu_pct(processes: &Vec<ProcessLoad>, cpu_pct: u32)
    requires
        call_ensures(chrome_cpu_pct, (processes,), cpu_pct),
    ensures
        cpu_pct == browser_load(processes@),
{
}

/// A snapshot shows the state, and the origins of the open tabs.
pub proof fn law_build_snapshot(
    state: &CorrelationState,
    now_ms: u64,
    snapshot: DashboardSnapshot,
)
    requires
        call_ensures(build_snapshot, (state, now_ms), snapshot),
    ensures
        shows(state@, snapshot@.origins, now_ms),
        snapshot@ == snapshot_with(state@, snapshot@.origins, now_ms),
{
}

/// A snapshot by a walk of the tabs shows the origins of the walk.
pub proof fn law_snapshot_walk(
    state: &CorrelationState,
    walk: &Vec<u32>,
    now_ms: u64,
    snapshot: DashboardSnapshot,
)
    requires
        call_ensures(snapshot_walk, (state, walk, now_ms), snapshot),
    ensures
        snapshot@ == snapshot_with(state@, origins_of_walk(state@, walk@, now_ms), now_ms),
{
}

/// A ranking is that of the walk.
pub proof fn law_ranking(
    state: &CorrelationState,
    walk: &Vec<u32>,
    now_ms: u64,
    suspicious_only: bool,
    ranked: Vec<Leader>,
)
    requires
        call_ensures(rank_tabs, (state, walk, now_ms, suspicious_only), ranked),
    ensures
        tab_ids(ranked@) == leaders(state@, walk@, now_ms, suspicious_only),
        tab_ids(ranked@).len() == ranked@.len(),
        forall|i: int| 0 <= i < ranked@.len() ==> #[trigger] tab_ids(ranked@)[i] == ranked@[i].tab_id,
        describes(state@, ranked@, now_ms),
{
}

/// A walk of the tabs visits each open tab once, and nothing else.
pub proof fn law_walk_tabs(state: &CorrelationState, walk: Vec<u32>, id: u32)
    requires
        call_ensures(walk_tabs, (state,), walk),
    ensures
        walk@.contains(id) <==> state@.tabs.contains_key(id),
        walk@.no_duplicates(),
{
}

/// The terminal shows the lines of the snapshot.
pub proof fn law_terminal_lines(
    snapshot: &DashboardSnapshot,
    cpu_text: &str,
    score_texts: &Vec<String>,
    lines: Vec<String>,
)
    requires
        call_ensures(terminal_lines, (snapshot, cpu_text, score_texts), lines),
    ensures
        texts(lines@) == dashboard_lines(snapshot@, cpu_text@, texts(score_texts@)),
{
}

/// A number is written in digits that stand for it, and reasons are written one after the
/// other.
pub proof fn law_number_and_reasons_as_text(
    n: u64,
    number: String,
    reasons: &Vec<String>,
    listed: String,
)
    requires
        call_ensures(decimal_text, (n,), number),
        call_ensures(format_reasons, (reasons,), listed),
    ensures
        number_in(number@) == n,
        listed@ == reasons_text(texts(reasons@)),
{
    law_decimal(n as nat);
}

/// A time stamp is recent as long as its window has not passed, and a clock gives the count of
/// milliseconds, or zero before the epoch.
pub proof fn law_clock_calls(
    ts_ms: u64,
    now_ms: u64,
    window_ms: u64,
    recent: bool,
    elapsed_ms: Option<u128>,
    now: u64,
)
    requires
        call_ensures(is_recent, (ts_ms, now_ms, window_ms), recent),
        call_ensures(epoch_ms, (elapsed_ms,), now),
    ensures
        recent <==> now_ms <= ts_ms + window_ms,
        elapsed_ms is None ==> now == 0,
        elapsed_ms matches Some(ms) ==> (ms <= u64::MAX ==> now == ms),
{
}

/// The state that details give is their member "state", where that is a text.
pub proof fn law_details_state(details: &Value, state: Option<String>)
    requires
        call_ensures(details_state, (details,), state),
    ensures
        text_members(*details).contains_key("state"@) ==> optional_text(state) == Some(
            text_members(*details)["state"@],
        ),
        !text_members(*details).contains_key("state"@) ==> state is None,
{
}

/// The results of arithmetic are the numbers nearest to the true ones.
pub proof fn law_arithmetic(
    a: Single,
    b: Single,
    n: u64,
    added: Single,
    taken: Single,
    multiplied: Single,
    divided: Single,
    counted: Single,
)
    requires
        a < 0x7f80_0000,
        0 < b < 0x7f80_0000,
        b <= a,
        call_ensures(plus, (a, b), added),
        call_ensures(minus, (a, b), taken),
        call_ensures(times, (a, b), multiplied),
        call_ensures(over, (a, b), divided),
        call_ensures(of_u64, (n,), counted),
    ensures
        is_nearest(added, magnitude(a as int) + magnitude(b as int), 1),
        is_nearest(taken, (magnitude(a as int) - magnitude(b as int)) as nat, 1),
        is_nearest(multiplied, magnitude(a as int) * magnitude(b as int), pow2(149)),
        is_nearest(divided, magnitude(a as int) * pow2(149), magnitude(b as int)),
        is_nearest(counted, n as nat * pow2(149), 1),
{
    law_results_are_nearest(a, b, n as nat);
}

/// So are those with signs.
pub proof fn law_signed_arithmetic(a: u32, b: u32, share: Single, added: u32, multiplied: u32)
    requires
        share < 0x7f80_0000,
        call_ensures(plus_signed, (a, b), added),
        call_ensures(times_signed, (a, share), multiplied),
    ensures
        added == signed_sum(a, b),
        multiplied == signed_product(a, share),
{
}

/// Texts are compared letter by letter, copied whole, and searched from end to end.
pub proof fn law_text_calls(
    text: &str,
    other: &str,
    same: bool,
    found: bool,
    optional: &Option<String>,
    optional_same: bool,
    copy: Option<String>,
)
    requires
        call_ensures(reads, (text, other), same),
        call_ensures(occurs_in, (text, other), found),
        call_ensures(optional_reads, (optional, other), optional_same),
        call_ensures(copy_optional, (optional,), copy),
    ensures
        same <==> text@ == other@,
        found <==> occurs(text@, other@),
        optional_same <==> optional_text(*optional) == Some(other@),
        optional_text(copy) == optional_text(*optional),
{
}

/// A document becomes a schema, unless it may hold references or regular expressions, or does
/// not compile. The schema is that of the document, and objects to what that calls for.
pub proof fn law_schema_calls(
    document: &Value,
    schema: Result<EventSchema, SchemaFault>,
    value: &Value,
    errors: Vec<String>,
)
    requires
        call_ensures(EventSchema::compile, (document,), schema),
        schema matches Ok(found) ==> call_ensures(EventSchema::validate, (&found, value), errors),
    ensures
        schema == Err::<EventSchema, SchemaFault>(SchemaFault::Refers) <==> refers(*document),
        schema == Err::<EventSchema, SchemaFault>(SchemaFault::Patterned) <==> !refers(*document)
            && patterned(*document),
        !refers(*document) && !patterned(*document) && !minus_zero(*document) ==> (schema is Ok
            <==> compiles(*document)),
        schema matches Ok(found) ==> found.document() == *document && (repeatable(
            *document,
            *value,
        ) ==> texts(errors@) == objections(*document, *value)),
{
}

/// A text becomes the schema of the document that it stands for; where it stands for none, it
/// is no JSON.
pub proof fn law_event_schema(text: &str, schema: Result<EventSchema, SchemaFault>)
    requires
        call_ensures(event_schema, (text,), schema),
    ensures
        schema == Err::<EventSchema, SchemaFault>(SchemaFault::NotJson) <==> parsed(text@) is None,
        schema matches Ok(found) ==> parsed(text@) == Some(found.document()),
        parsed(text@) matches Some(document) ==> {
            &&& schema == Err::<EventSchema, SchemaFault>(SchemaFault::Refers) <==> refers(document)
            &&& schema == Err::<EventSchema, SchemaFault>(SchemaFault::Patterned) <==> !refers(
                document,
            ) && patterned(document)
            &&& !refers(document) && !patterned(document) && !minus_zero(document) ==> (schema is Ok
                <==> compiles(document))
        },
{
}

} // verus!
