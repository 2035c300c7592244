use security_monitor::alert::{evaluate_alerts, evaluate_walk, Alert};
use security_monitor::correlate::handle_event;
use security_monitor::cpu::sample_cpu;
use security_monitor::event::BrowserEventV1;
use security_monitor::score::score_tab;
use security_monitor::single::ONE;
use security_monitor::snapshot::{build_snapshot, snapshot_walk};
use security_monitor::state::{CorrelationState, TabState};
use serde_json::Value;

fn event(event_type: &str, ts_ms: u64, origin: &str, tab_id: u32, details: &str) -> BrowserEventV1 {
    BrowserEventV1 {
        schema_version: "1.0".to_string(),
        event_type: event_type.to_string(),
        ts_ms,
        url: None,
        origin: Some(origin.to_string()),
        tab_id: Some(tab_id),
        details: if details.is_empty() {
            Value::Null
        } else {
            serde_json::from_str(details).unwrap()
        },
    }
}

/// A state in which the load has been high since time zero.
fn loaded() -> CorrelationState {
    let mut state = CorrelationState::default();
    assert!(sample_cpu(&mut state, 80.0f32.to_bits(), 0).is_empty());
    state
}

fn worker_tab(origin: &str, worker_ms: u64) -> TabState {
    let mut tab = TabState::default();
    tab.origin = Some(origin.to_string());
    tab.last_worker_ms = Some(worker_ms);
    tab.last_seen_ms = Some(worker_ms);
    tab
}

fn origins(alerts: &Vec<Alert>) -> Vec<String> {
    let mut origins: Vec<String> = alerts.iter().map(|alert| alert.origin.clone()).collect();
    origins.sort();
    origins
}

#[test]
fn worker_in_a_hidden_tab_under_load() {
    let mut state = loaded();
    let hidden = event("tab_visibility", 11_000, "mine.example", 1, r#"{"state":"hidden"}"#);
    assert!(handle_event(&hidden, &mut state).is_empty());
    let alerts = handle_event(&event("worker_created", 12_000, "mine.example", 1, ""), &mut state);
    assert_eq!(alerts.len(), 1);
    assert_eq!(alerts[0].origin, "mine.example");
    assert_eq!(alerts[0].score, ONE);
    assert_eq!(alerts[0].ts_ms, 12_000);
    assert_eq!(
        alerts[0].reasons,
        vec!["tab_hidden", "worker_created", "idle", "cpu_high_global", "correlation_bonus"]
    );
}

#[test]
fn no_alert_while_load_is_low() {
    let mut state = CorrelationState::default();
    state.tabs.insert(1, worker_tab("a.com", 5_000));
    assert!(evaluate_alerts(&mut state, 6_000).is_empty());
    sample_cpu(&mut state, 80.0f32.to_bits(), 6_000);
    assert!(evaluate_alerts(&mut state, 15_999).is_empty());
    assert_eq!(origins(&evaluate_alerts(&mut state, 16_000)), vec!["a.com"]);
}

#[test]
fn no_alert_on_the_tab_in_use() {
    let mut state = loaded();
    state.tabs.insert(1, worker_tab("a.com", 20_000));
    state.active_tab_id = Some(1);
    assert!(evaluate_alerts(&mut state, 20_000).is_empty());
    // A tab that is reported both active and hidden is alerted on.
    state.tabs.get_mut(&1).unwrap().last_hidden_ms = Some(20_000);
    let alerts = evaluate_alerts(&mut state, 20_000);
    assert_eq!(
        alerts[0].reasons,
        vec!["tab_hidden", "worker_created", "cpu_high_active", "correlation_bonus"]
    );
}

#[test]
fn no_alert_without_computation_or_origin() {
    let mut state = loaded();
    let mut still = TabState::default();
    still.origin = Some("a.com".to_string());
    still.last_seen_ms = Some(20_000);
    still.last_hidden_ms = Some(20_000);
    state.tabs.insert(1, still);
    let mut nameless = worker_tab("", 20_000);
    nameless.origin = None;
    state.tabs.insert(2, nameless);
    assert!(evaluate_alerts(&mut state, 20_000).is_empty());
}

#[test]
fn alerts_on_an_origin_lie_apart() {
    let mut state = loaded();
    state.tabs.insert(1, worker_tab("a.com", 20_000));
    assert_eq!(evaluate_alerts(&mut state, 20_000).len(), 1);
    for now in [20_000u64, 20_001, 49_999, 50_000, 19_000] {
        state.tabs.insert(1, worker_tab("a.com", now));
        assert!(evaluate_alerts(&mut state, now).is_empty());
    }
    state.tabs.insert(1, worker_tab("a.com", 50_001));
    assert_eq!(evaluate_alerts(&mut state, 50_001).len(), 1);
    assert!(evaluate_alerts(&mut state, 50_002).is_empty());
}

#[test]
fn cooldown_is_kept_per_origin() {
    let mut state = loaded();
    state.tabs.insert(1, worker_tab("a.com", 20_000));
    assert_eq!(origins(&evaluate_alerts(&mut state, 20_000)), vec!["a.com"]);
    state.tabs.insert(2, worker_tab("b.com", 21_000));
    state.tabs.insert(3, worker_tab("c.com", 21_000));
    assert_eq!(origins(&evaluate_alerts(&mut state, 21_000)), vec!["b.com", "c.com"]);
}

#[test]
fn cooldown_outlives_the_tab() {
    let mut state = loaded();
    state.tabs.insert(1, worker_tab("a.com", 20_000));
    assert_eq!(evaluate_alerts(&mut state, 20_000).len(), 1);
    handle_event(&event("tab_closed", 21_000, "a.com", 1, ""), &mut state);
    assert!(handle_event(&event("worker_created", 22_000, "a.com", 2, ""), &mut state).is_empty());
}

#[test]
fn one_alert_for_several_tabs_of_an_origin() {
    let mut state = loaded();
    state.tabs.insert(1, worker_tab("a.com", 20_000));
    let mut stronger = worker_tab("a.com", 20_000);
    stronger.last_wasm_ms = Some(20_000);
    state.tabs.insert(2, stronger);
    state.tabs.insert(3, worker_tab("a.com", 15_000));
    let alerts = evaluate_alerts(&mut state, 20_000);
    assert_eq!(alerts.len(), 1);
    assert_eq!(
        alerts[0].reasons,
        vec!["worker_created", "wasm_instantiate", "idle", "cpu_high_global"]
    );
}

#[test]
fn the_first_of_equal_tabs_gives_its_reasons() {
    // What is left of the module's 0.5 after a fifth of its time is the worker's 0.4.
    let worker = worker_tab("a.com", 20_000);
    let mut wasm = TabState::default();
    wasm.origin = Some("a.com".to_string());
    wasm.last_wasm_ms = Some(14_000);
    wasm.last_seen_ms = Some(14_000);
    assert_eq!(
        score_tab(&worker, 20_000, true, false, true).score,
        score_tab(&wasm, 20_000, true, false, true).score
    );

    for (walk, signal) in [
        (vec![1, 3, 2, 99], "worker_created"),
        (vec![2, 3, 1, 99], "wasm_instantiate"),
    ] {
        let mut state = loaded();
        state.tabs.insert(1, worker_tab("a.com", 20_000));
        let mut wasm = TabState::default();
        wasm.origin = Some("a.com".to_string());
        wasm.last_wasm_ms = Some(14_000);
        wasm.last_seen_ms = Some(14_000);
        state.tabs.insert(2, wasm);
        state.tabs.insert(3, worker_tab("b.com", 20_000));
        let snapshot = snapshot_walk(&state, &walk, 20_000);
        assert_eq!(snapshot.origins.len(), 2);
        for origin in &snapshot.origins {
            if origin.origin == "a.com" {
                assert_eq!(origin.reasons, vec![signal, "idle", "cpu_high_global"]);
            }
        }
        let alerts = evaluate_walk(&mut state, &walk, 20_000);
        assert_eq!(alerts.len(), 2);
        assert_eq!(alerts[0].origin, "a.com");
        assert_eq!(alerts[0].reasons, vec![signal, "idle", "cpu_high_global"]);
        assert_eq!(alerts[1].origin, "b.com");
        assert_eq!(alerts[1].reasons, vec!["worker_created", "idle", "cpu_high_global"]);
        assert_eq!(state.last_alert_ms.get("a.com"), Some(&20_000));
        assert_eq!(state.last_alert_ms.get("b.com"), Some(&20_000));
        assert_eq!(state.last_alert_ms.get("c.com"), None);
    }
}

#[test]
fn samples_give_alerts_too() {
    let mut state = CorrelationState::default();
    let mut now = 0;
    while now < 10_000 {
        assert!(sample_cpu(&mut state, 60.0f32.to_bits(), now).is_empty());
        now += 2_000;
    }
    assert!(handle_event(&event("wasm_instantiate", 9_000, "burn.example", 4, ""), &mut state).is_empty());
    let alerts = sample_cpu(&mut state, 60.0f32.to_bits(), now);
    assert_eq!(origins(&alerts), vec!["burn.example"]);
    assert_eq!(alerts[0].reasons, vec!["wasm_instantiate", "idle", "cpu_high_global"]);
}

#[test]
fn signals_expire() {
    let mut state = loaded();
    state.tabs.insert(1, worker_tab("a.com", 20_000));
    assert!(evaluate_alerts(&mut state, 50_000).is_empty());
    assert_eq!(evaluate_alerts(&mut state, 49_999).len(), 1);
}

#[test]
fn the_order_of_the_walk_decides_no_alert() {
    let mut found = Vec::new();
    for walk in [vec![1, 2, 3, 4], vec![4, 3, 2, 1], vec![2, 4, 1, 3]] {
        let mut state = loaded();
        state.tabs.insert(1, worker_tab("a.com", 20_000));
        state.tabs.insert(2, worker_tab("b.com", 19_000));
        state.tabs.insert(3, worker_tab("a.com", 18_000));
        state.tabs.insert(4, worker_tab("b.com", 20_000));
        let alerts = evaluate_walk(&mut state, &walk, 20_000);
        found.push(origins(&alerts));
        assert_eq!(state.last_alert_ms.len(), 2);
        let snapshot = snapshot_walk(&state, &walk, 20_000);
        assert_eq!(snapshot.origins.len(), 2);
        assert_eq!(snapshot.origins[0].score, snapshot.origins[1].score);
    }
    assert_eq!(found[0], vec!["a.com", "b.com"]);
    assert_eq!(found[1], found[0]);
    assert_eq!(found[2], found[0]);
}

#[test]
fn alerted_origin_is_shown() {
    let mut state = loaded();
    state.tabs.insert(1, worker_tab("a.com", 20_000));
    state.tabs.insert(2, worker_tab("b.com", 1_000));
    let alerts = evaluate_alerts(&mut state, 20_000);
    assert_eq!(alerts.len(), 2);
    let snapshot = build_snapshot(&state, 20_000);
    for alert in &alerts {
        assert!(snapshot
            .origins
            .iter()
            .any(|origin| origin.origin == alert.origin && origin.score > 0));
    }
}

#[test]
fn a_known_origin_stays_known() {
    let mut state = CorrelationState::default();
    handle_event(&event("page_load", 1, "a.com", 1, ""), &mut state);
    let mut nameless = event("user_activity", 2, "", 1, "");
    nameless.origin = None;
    handle_event(&nameless, &mut state);
    assert_eq!(state.tabs[&1].origin.as_deref(), Some("a.com"));
    handle_event(&event("page_load", 3, "b.com", 1, ""), &mut state);
    assert_eq!(state.tabs[&1].origin.as_deref(), Some("b.com"));
}
