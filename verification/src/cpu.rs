//! CPU load of the browser.
use vstd::prelude::*;

use crate::alert::{alert_views, answers, evaluate_alerts, noted, Alert, AlertView};
use crate::clock::age_ms;
use crate::event::{EventSummary, SummaryView};
use crate::single::{plus_signed, signed_sum, INFINITY, NEGATIVE_ZERO};
use crate::state::{remember, remembered, CorrelationState, StateView};
use crate::text::{contains, lowercase, lowercase_chars, occurs};

verus! {

/// For how many seconds the load has to be high before it counts as high.
pub const CPU_HIGH_MIN_SECS: u64 = 10;

/// Whether the load has been high for long enough.
pub open spec fn cpu_is_high(state: StateView, now_ms: u64) -> bool {
    match state.cpu_high_since_ms {
        Some(ts_ms) => age_ms(ts_ms, now_ms) >= CPU_HIGH_MIN_SECS * 1000,
        None => false,
    }
}

/// Whether the load has been high for long enough.
pub fn cpu_high(state: &CorrelationState, now_ms: u64) -> (high: bool)
    ensures
        high == cpu_is_high(state@, now_ms),
{
    match state.cpu_high_since_ms {
        Some(ts_ms) => now_ms.saturating_sub(ts_ms) >= CPU_HIGH_MIN_SECS * 1000,
        None => false,
    }
}

/// From which load in percent on a sample is high: 25.
pub const CPU_HIGH_THRESHOLD_PCT: u32 = 0x41c8_0000;

/// Whether a sample of the load is high. Patterns above `INFINITY` are negative, or no
/// number.
pub open spec fn sample_is_high(cpu_pct: u32) -> bool {
    CPU_HIGH_THRESHOLD_PCT <= cpu_pct <= INFINITY
}

/// The state after a sample of the load, before any alert.
pub open spec fn sampled(state: StateView, cpu_pct: u32, ts_ms: u64) -> StateView {
    StateView {
        last_cpu_pct: cpu_pct,
        cpu_high_since_ms: if !sample_is_high(cpu_pct) {
            None
        } else if state.cpu_high_since_ms is Some {
            state.cpu_high_since_ms
        } else {
            Some(ts_ms)
        },
        events: remembered(
            state.events,
            SummaryView { ts_ms, event_type: "cpu_sample"@, origin: None },
        ),
        ..state
    }
}

/// Records a sample of the load.
pub fn record_sample(state: &mut CorrelationState, cpu_pct: u32, ts_ms: u64)
    ensures
        final(state)@ == sampled(old(state)@, cpu_pct, ts_ms),
{
    state.last_cpu_pct = cpu_pct;
    if CPU_HIGH_THRESHOLD_PCT <= cpu_pct && cpu_pct <= INFINITY {
        if state.cpu_high_since_ms.is_none() {
            state.cpu_high_since_ms = Some(ts_ms);
        }
    } else {
        state.cpu_high_since_ms = None;
    }
    let entry = EventSummary { ts_ms, event_type: "cpu_sample".to_owned(), origin: None };
    assert(entry@ == SummaryView { ts_ms, event_type: "cpu_sample"@, origin: None });
    remember(state, entry);
}

/// Whether this is what comes of a sample: it is recorded, and the alerts that are due are
/// given and noted.
pub open spec fn load_handled(
    before: StateView,
    cpu_pct: u32,
    ts_ms: u64,
    alerts: Seq<AlertView>,
    after: StateView,
) -> bool {
    let state = sampled(before, cpu_pct, ts_ms);
    answers(state, alerts, ts_ms) && after == noted(state, alerts, ts_ms)
}

/// Takes in a sample of the load (the bit pattern of a single-precision number), and alerts
/// on the origins that are due.
pub fn sample_cpu(state: &mut CorrelationState, cpu_pct: u32, ts_ms: u64) -> (alerts: Vec<Alert>)
    ensures
        load_handled(old(state)@, cpu_pct, ts_ms, alert_views(alerts@), final(state)@),
{
    record_sample(state, cpu_pct, ts_ms);
    evaluate_alerts(state, ts_ms)
}

/// A process and its load in percent (the bit pattern of a single-precision number).
#[derive(Debug)]
pub struct ProcessLoad {
    pub name: String,
    pub cpu_usage: u32,
}

/// Whether a process belongs to the browser, by its name.
pub open spec fn names_browser(name: Seq<char>) -> bool {
    let lowered = name.map_values(|c: char| lowercase(c));
    occurs(lowered, "chrome"@) || occurs(lowered, "chromium"@)
}

/// The single-precision sum of the loads of the browser's processes, from the first to the
/// last, starting from minus zero.
pub open spec fn browser_load(processes: Seq<ProcessLoad>) -> u32
    decreases processes.len(),
{
    if processes.len() == 0 {
        NEGATIVE_ZERO
    } else {
        let before = browser_load(processes.drop_last());
        if names_browser(processes.last().name@) {
            signed_sum(before, processes.last().cpu_usage)
        } else {
            before
        }
    }
}

/// Whether a process belongs to the browser, by its name.
pub fn is_browser(name: &str) -> (is: bool)
    ensures
        is == names_browser(name@),
{
    let lowered = lowercase_chars(name);
    contains(&lowered, "chrome") || contains(&lowered, "chromium")
}

/// The load of the browser: the sum over its processes.
pub fn chrome_cpu_pct(processes: &Vec<ProcessLoad>) -> (cpu_pct: u32)
    ensures
        cpu_pct == browser_load(processes@),
{
    let mut cpu_pct: u32 = NEGATIVE_ZERO;
    let mut i: usize = 0;
    while i < processes.len()
        invariant
            i <= processes.len(),
            cpu_pct == browser_load(processes@.take(i as int)),
        decreases processes.len() - i,
    {
        assert(processes@.take(i + 1).drop_last() =~= processes@.take(i as int));
        if is_browser(processes[i].name.as_str()) {
            cpu_pct = plus_signed(cpu_pct, processes[i].cpu_usage);
        }
        i = i + 1;
    }
    assert(processes@.take(i as int) =~= processes@);
    cpu_pct
}

} // verus!
