use security_monitor::correlate::handle_event;
use security_monitor::cpu::sample_cpu;
use security_monitor::event::BrowserEventV1;
use security_monitor::snapshot::{build_snapshot, snapshot_walk};
use security_monitor::state::{CorrelationState, TabState};
use serde_json::Value;

fn event(event_type: &str, ts_ms: u64, origin: Option<&str>, tab_id: Option<u32>) -> BrowserEventV1 {
    BrowserEventV1 {
        schema_version: "1.0".to_string(),
        event_type: event_type.to_string(),
        ts_ms,
        url: None,
        origin: origin.map(|origin| origin.to_string()),
        tab_id,
        details: Value::Null,
    }
}

#[test]
fn empty_state() {
    let snapshot = build_snapshot(&CorrelationState::default(), 77);
    assert_eq!(snapshot.now_ms, 77);
    assert_eq!(snapshot.cpu_pct, 0);
    assert!(!snapshot.cpu_high && !snapshot.cpu_high_active);
    assert_eq!(snapshot.active_origin, None);
    assert!(snapshot.origins.is_empty());
    assert!(snapshot.last_events.is_empty());
}

#[test]
fn active_origin_under_load() {
    let mut state = CorrelationState::default();
    sample_cpu(&mut state, 55.5f32.to_bits(), 0);
    let before = build_snapshot(&state, 10_000);
    assert!(before.cpu_high && !before.cpu_high_active);
    handle_event(&event("tab_active", 1_000, Some("a.com"), Some(1)), &mut state);
    let snapshot = build_snapshot(&state, 10_000);
    assert_eq!(snapshot.cpu_pct, 55.5f32.to_bits());
    assert!(snapshot.cpu_high && snapshot.cpu_high_active);
    assert_eq!(snapshot.active_origin.as_deref(), Some("a.com"));
    assert!(!build_snapshot(&state, 9_999).cpu_high_active);
    assert_eq!(snapshot.last_events.len(), 2);
    assert_eq!(snapshot.last_events[0].event_type, "cpu_sample");
    assert_eq!(snapshot.last_events[1].event_type, "tab_active");
}

#[test]
fn origins_by_falling_score() {
    let mut state = CorrelationState::default();
    handle_event(&event("worker_created", 1_000, Some("worker.com"), Some(1)), &mut state);
    handle_event(&event("wasm_instantiate", 1_000, Some("wasm.com"), Some(2)), &mut state);
    handle_event(&event("media_playing", 1_000, Some("media.com"), Some(3)), &mut state);
    handle_event(&event("page_load", 1_000, Some("still.com"), Some(4)), &mut state);
    handle_event(&event("worker_created", 1_000, None, Some(5)), &mut state);
    let snapshot = build_snapshot(&state, 1_000);
    let shown: Vec<&str> = snapshot.origins.iter().map(|origin| origin.origin.as_str()).collect();
    assert_eq!(shown, vec!["wasm.com", "worker.com", "media.com", "still.com"]);
    assert_eq!(snapshot.origins[0].score, (0.5f32 + 0.1).to_bits());
    assert_eq!(snapshot.origins[0].reasons, vec!["wasm_instantiate", "idle"]);
    assert_eq!(snapshot.origins[0].contributions[1].name, "idle");
    assert_eq!(snapshot.origins[0].contributions[1].weight, 0.1f32.to_bits());
    assert_eq!(snapshot.origins[3].score, 0);
    assert!(snapshot.origins[3].reasons.is_empty());
}

#[test]
fn an_origin_is_shown_once_by_its_best_tab() {
    let mut state = CorrelationState::default();
    let mut weak = TabState::default();
    weak.origin = Some("a.com".to_string());
    weak.last_worker_ms = Some(500);
    weak.last_visibility = Some("visible".to_string());
    state.tabs.insert(1, weak);
    let mut strong = TabState::default();
    strong.origin = Some("a.com".to_string());
    strong.last_worker_ms = Some(900);
    strong.last_wasm_ms = Some(800);
    strong.last_media_ms = Some(950);
    strong.last_visibility = Some("hidden".to_string());
    state.tabs.insert(2, strong);
    for walk in [vec![1, 2], vec![2, 1], vec![7, 2, 8, 1]] {
        let snapshot = snapshot_walk(&state, &walk, 1_000);
        assert_eq!(snapshot.origins.len(), 1);
        assert_eq!(snapshot.origins[0].last_visibility.as_deref(), Some("hidden"));
        assert_eq!(snapshot.origins[0].last_compute_ms, Some(950));
    }
    assert_eq!(build_snapshot(&state, 1_000).origins.len(), 1);
}

#[test]
fn latest_computation_as_far_as_known() {
    let mut state = CorrelationState::default();
    for (id, worker, wasm, media, latest) in [
        (1, None, None, None, None),
        (2, Some(5), None, None, Some(5)),
        (3, None, Some(6), None, Some(6)),
        (4, None, None, Some(7), Some(7)),
        (5, Some(9), Some(8), Some(7), Some(9)),
        (6, Some(1), Some(8), Some(7), Some(8)),
    ] {
        let mut tab = TabState::default();
        tab.origin = Some("a.com".to_string());
        tab.last_worker_ms = worker;
        tab.last_wasm_ms = wasm;
        tab.last_media_ms = media;
        state.tabs.insert(id, tab);
        let snapshot = snapshot_walk(&state, &vec![id], 100_000);
        assert_eq!(snapshot.origins[0].last_compute_ms, latest);
    }
}

#[test]
fn equal_scores_keep_the_order_of_the_walk() {
    let mut state = CorrelationState::default();
    for (id, origin) in [(1, "a.com"), (2, "b.com"), (3, "c.com")] {
        let mut tab = TabState::default();
        tab.origin = Some(origin.to_string());
        if id == 3 {
            tab.last_worker_ms = Some(0);
        }
        state.tabs.insert(id, tab);
    }
    let snapshot = snapshot_walk(&state, &vec![2, 1, 3], 0);
    let shown: Vec<&str> = snapshot.origins.iter().map(|origin| origin.origin.as_str()).collect();
    assert_eq!(shown, vec!["c.com", "b.com", "a.com"]);
}
