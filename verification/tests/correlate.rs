use security_monitor::correlate::{handle_event, record_event};
use security_monitor::event::{details_state, BrowserEventV1};
use security_monitor::state::CorrelationState;
use serde_json::Value;

fn json(text: &str) -> Value {
    serde_json::from_str(text).unwrap()
}

fn event(event_type: &str, ts_ms: u64, origin: Option<&str>, tab_id: Option<u32>) -> BrowserEventV1 {
    BrowserEventV1 {
        schema_version: "1.0".to_string(),
        event_type: event_type.to_string(),
        ts_ms,
        url: None,
        origin: origin.map(|origin| origin.to_string()),
        tab_id,
        details: Value::Null,
    }
}

fn with_details(mut event: BrowserEventV1, details: &str) -> BrowserEventV1 {
    event.details = json(details);
    event
}

#[test]
fn state_is_read_from_details() {
    assert_eq!(details_state(&json(r#"{"state":"hidden"}"#)), Some("hidden".to_string()));
    assert_eq!(details_state(&json(r#"{"other":1,"state":""}"#)), Some(String::new()));
    assert_eq!(details_state(&json(r#"{"state":7}"#)), None);
    assert_eq!(details_state(&json(r#"{"state":null}"#)), None);
    assert_eq!(details_state(&json(r#"{"State":"hidden"}"#)), None);
    assert_eq!(details_state(&json(r#"["state"]"#)), None);
    assert_eq!(details_state(&json(r#""state""#)), None);
    assert_eq!(details_state(&Value::Null), None);
}

#[test]
fn events_set_their_time_stamps() {
    let mut state = CorrelationState::default();
    handle_event(&event("worker_created", 10, Some("a.com"), Some(1)), &mut state);
    handle_event(&event("wasm_instantiate", 20, None, Some(1)), &mut state);
    handle_event(&event("user_activity", 30, None, Some(1)), &mut state);
    let tab = &state.tabs[&1];
    assert_eq!(tab.origin.as_deref(), Some("a.com"));
    assert_eq!(tab.last_worker_ms, Some(10));
    assert_eq!(tab.last_wasm_ms, Some(20));
    assert_eq!(tab.last_user_activity_ms, Some(30));
    assert_eq!(tab.last_seen_ms, Some(30));
    assert_eq!(tab.last_media_ms, None);
    assert_eq!(tab.last_hidden_ms, None);
    assert_eq!(tab.last_visibility, None);
}

#[test]
fn visibility_takes_its_state_from_the_details() {
    let mut state = CorrelationState::default();
    handle_event(
        &with_details(event("tab_visibility", 10, None, Some(1)), r#"{"state":"hidden"}"#),
        &mut state,
    );
    assert_eq!(state.tabs[&1].last_visibility.as_deref(), Some("hidden"));
    assert_eq!(state.tabs[&1].last_hidden_ms, Some(10));
    handle_event(
        &with_details(event("tab_visibility", 20, None, Some(1)), r#"{"state":"visible"}"#),
        &mut state,
    );
    assert_eq!(state.tabs[&1].last_visibility.as_deref(), Some("visible"));
    assert_eq!(state.tabs[&1].last_hidden_ms, Some(10));
    handle_event(&event("tab_visibility", 30, None, Some(1)), &mut state);
    assert_eq!(state.tabs[&1].last_visibility.as_deref(), Some("visible"));
    assert_eq!(state.tabs[&1].last_seen_ms, Some(30));
}

#[test]
fn media_plays_unless_the_details_say_otherwise() {
    let mut state = CorrelationState::default();
    handle_event(&event("media_playing", 10, None, Some(1)), &mut state);
    assert_eq!(state.tabs[&1].last_media_state.as_deref(), Some("playing"));
    handle_event(
        &with_details(event("media_playing", 20, None, Some(1)), r#"{"state":"paused"}"#),
        &mut state,
    );
    assert_eq!(state.tabs[&1].last_media_state.as_deref(), Some("paused"));
    assert_eq!(state.tabs[&1].last_media_ms, Some(20));
}

#[test]
fn unknown_event_only_tells_the_origin() {
    let mut state = CorrelationState::default();
    handle_event(&event("page_load", 10, Some("a.com"), Some(3)), &mut state);
    let tab = &state.tabs[&3];
    assert_eq!(tab.origin.as_deref(), Some("a.com"));
    assert_eq!(tab.last_seen_ms, None);
    assert_eq!(state.active_tab_id, None);
}

#[test]
fn activation() {
    let mut state = CorrelationState::default();
    handle_event(&event("tab_active", 10, None, Some(1)), &mut state);
    assert_eq!(state.active_tab_id, None);
    assert_eq!(state.tabs[&1].last_seen_ms, Some(10));
    handle_event(&event("tab_active", 20, Some("a.com"), Some(1)), &mut state);
    assert_eq!(state.active_tab_id, Some(1));
    handle_event(&event("tab_active", 30, None, Some(2)), &mut state);
    assert_eq!(state.active_tab_id, Some(1));
    handle_event(&event("tab_active", 40, Some("b.com"), Some(2)), &mut state);
    assert_eq!(state.active_tab_id, Some(2));
    handle_event(&event("tab_active", 50, Some("127.0.0.1"), Some(3)), &mut state);
    assert_eq!(state.active_tab_id, None);
    assert_eq!(state.tabs[&3].origin.as_deref(), Some("127.0.0.1"));
}

#[test]
fn closing_a_tab_forgets_it() {
    let mut state = CorrelationState::default();
    handle_event(&event("tab_active", 10, Some("a.com"), Some(1)), &mut state);
    handle_event(&event("worker_created", 10, Some("b.com"), Some(2)), &mut state);
    handle_event(&event("tab_closed", 20, None, Some(2)), &mut state);
    assert!(!state.tabs.contains_key(&2));
    assert_eq!(state.active_tab_id, Some(1));
    handle_event(&event("tab_closed", 30, None, Some(9)), &mut state);
    assert!(state.tabs.contains_key(&1));
    handle_event(&event("tab_closed", 40, None, Some(1)), &mut state);
    assert!(state.tabs.is_empty());
    assert_eq!(state.active_tab_id, None);
    handle_event(&event("tab_closed", 50, None, None), &mut state);
    assert_eq!(state.events.len(), 6);
}

#[test]
fn event_without_a_tab_is_only_remembered() {
    let mut state = CorrelationState::default();
    let look = record_event(&event("tab_active", 10, Some("a.com"), None), None, &mut state);
    assert!(!look);
    assert!(state.tabs.is_empty());
    assert_eq!(state.active_tab_id, None);
    assert_eq!(state.events.len(), 1);
    assert_eq!(state.events[0].origin.as_deref(), Some("a.com"));
    assert_eq!(state.events[0].event_type, "tab_active");
}

#[test]
fn recording_takes_the_state_as_given() {
    let mut state = CorrelationState::default();
    let look = record_event(
        &event("tab_visibility", 10, None, Some(1)),
        Some("hidden".to_string()),
        &mut state,
    );
    assert!(look);
    assert_eq!(state.tabs[&1].last_hidden_ms, Some(10));
    assert!(!record_event(&event("tab_closed", 20, None, Some(1)), None, &mut state));
}

#[test]
fn other_tabs_are_left_alone() {
    let mut state = CorrelationState::default();
    handle_event(&event("worker_created", 10, Some("a.com"), Some(1)), &mut state);
    handle_event(&event("wasm_instantiate", 20, Some("b.com"), Some(2)), &mut state);
    assert_eq!(state.tabs[&1].origin.as_deref(), Some("a.com"));
    assert_eq!(state.tabs[&1].last_wasm_ms, None);
    assert_eq!(state.tabs[&1].last_seen_ms, Some(10));
}

#[test]
fn history_holds_the_latest_fifty() {
    let mut state = CorrelationState::default();
    for ts_ms in 0..73 {
        handle_event(&event("tab_active", ts_ms, None, None), &mut state);
        assert!(state.events.len() <= 50);
    }
    assert_eq!(state.events.len(), 50);
    for i in 0..50 {
        assert_eq!(state.events[i].ts_ms, 23 + i as u64);
    }
}
