use security_monitor::alert::Alert;
use security_monitor::event::{BrowserEventV1, EventSummary};
use security_monitor::ingest::{ingest, IngestReply};
use security_monitor::record::{alert_record, load_record};
use security_monitor::schema::{event_schema, EventSchema};
use security_monitor::single::ONE;
use security_monitor::snapshot::{DashboardSnapshot, OriginSnapshot};
use security_monitor::state::CorrelationState;
use security_monitor::terminal::{decimal_text, format_reasons, terminal_lines};
use serde_json::Value;

fn payload() -> BrowserEventV1 {
    BrowserEventV1 {
        schema_version: "1.0".to_string(),
        event_type: "worker_created".to_string(),
        ts_ms: 1_234,
        url: Some("https://a.com/".to_string()),
        origin: Some("a.com".to_string()),
        tab_id: Some(1),
        details: Value::Null,
    }
}

fn schema() -> EventSchema {
    event_schema(
        r#"{
            "type": "object",
            "required": ["schema_version", "event_type", "ts_ms"],
            "properties": {
                "schema_version": { "const": "1.0" },
                "event_type": { "type": "string" },
                "ts_ms": { "type": "integer", "minimum": 0 },
                "tab_id": { "type": ["integer", "null"] }
            }
        }"#,
    )
    .unwrap()
}

fn json(text: &str) -> Value {
    serde_json::from_str(text).unwrap()
}

fn origin(name: &str, reasons: Vec<&str>) -> OriginSnapshot {
    OriginSnapshot {
        origin: name.to_string(),
        score: 0,
        reasons: reasons.into_iter().map(|reason| reason.to_string()).collect(),
        contributions: Vec::new(),
        last_visibility: None,
        last_compute_ms: None,
    }
}

#[test]
fn accepted_event_is_acknowledged() {
    let mut state = CorrelationState::default();
    let value = json(r#"{"schema_version":"1.0","event_type":"worker_created","ts_ms":1234,"tab_id":1}"#);
    let (reply, errors, alerts) = ingest(&payload(), Some(&value), &schema(), &mut state);
    match reply {
        IngestReply::Accepted { received_event_type, ts_ms } => {
            assert_eq!(received_event_type, "worker_created");
            assert_eq!(ts_ms, 1_234);
        }
        IngestReply::Refused { error } => panic!("{}", error),
    }
    assert!(errors.is_empty());
    assert!(alerts.is_empty());
    assert_eq!(state.tabs[&1].last_worker_ms, Some(1_234));
}

#[test]
fn objections_keep_no_event_out() {
    let mut state = CorrelationState::default();
    let value = json(r#"{"schema_version":"2.0","event_type":7,"tab_id":1}"#);
    let (reply, errors, alerts) = ingest(&payload(), Some(&value), &schema(), &mut state);
    assert!(matches!(reply, IngestReply::Accepted { .. }));
    assert_eq!(
        errors,
        vec![
            "7 is not of type \"string\"",
            "\"1.0\" was expected",
            "\"ts_ms\" is a required property",
        ]
    );
    assert!(alerts.is_empty());
    assert_eq!(state.tabs[&1].last_worker_ms, Some(1_234));
    // The same value is objected to in the same way again.
    let (_, again, _) = ingest(&payload(), Some(&value), &schema(), &mut state);
    assert_eq!(again, errors);
}

#[test]
fn refused_event_changes_nothing() {
    let mut state = CorrelationState::default();
    let (reply, errors, alerts) = ingest(&payload(), None, &schema(), &mut state);
    match reply {
        IngestReply::Refused { error } => assert_eq!(error, "serialize_failed"),
        IngestReply::Accepted { .. } => panic!("accepted"),
    }
    assert!(errors.is_empty());
    assert!(alerts.is_empty());
    assert!(state.tabs.is_empty());
    assert!(state.events.is_empty());
}

#[test]
fn records_carry_what_happened() {
    let record = alert_record(Alert {
        origin: "a.com".to_string(),
        score: ONE,
        reasons: vec!["idle".to_string(), "cpu_high_global".to_string()],
        ts_ms: 9,
    });
    assert_eq!(record.event_type, "alert_suspicious_compute");
    assert_eq!(record.ts_ms, 9);
    assert_eq!(record.origin, "a.com");
    assert_eq!(record.score, ONE);
    assert_eq!(record.reasons, vec!["idle", "cpu_high_global"]);
    let record = load_record(31.0f32.to_bits(), 10);
    assert_eq!(record.event_type, "cpu_sample");
    assert_eq!(record.process, "chrome");
    assert_eq!(record.ts_ms, 10);
    assert_eq!(record.cpu_pct, 31.0f32.to_bits());
}

#[test]
fn numbers_in_decimal_notation() {
    for n in [0, 7, 10, 99, 100, 1_700_000_000_123, u64::MAX] {
        assert_eq!(decimal_text(n), n.to_string());
    }
}

#[test]
fn reasons_are_joined() {
    assert_eq!(format_reasons(&Vec::new()), "none");
    assert_eq!(format_reasons(&vec!["a".to_string()]), "a");
    let three = vec!["a".to_string(), "b".to_string(), "c".to_string()];
    assert_eq!(format_reasons(&three), "a, b, c");
}

#[test]
fn terminal_without_anything_to_show() {
    let snapshot = DashboardSnapshot {
        now_ms: 5,
        cpu_pct: 0,
        cpu_high: false,
        cpu_high_active: false,
        active_origin: None,
        origins: Vec::new(),
        last_events: Vec::new(),
    };
    assert_eq!(
        terminal_lines(&snapshot, "0.0", &Vec::new()),
        vec![
            "---- Hybrid Security Monitor ----",
            "CPU: 0.0% | Global High: false | Active High: false | Now: 5",
            "No origins tracked yet.",
            "Last events:",
        ]
    );
}

#[test]
fn terminal_shows_the_first_five() {
    let mut origins = vec![origin("a.com", vec!["idle", "wasm_instantiate"])];
    for name in ["b.com", "c.com", "d.com", "e.com", "f.com"] {
        origins.push(origin(name, Vec::new()));
    }
    let mut last_events = Vec::new();
    for i in 0..7u64 {
        last_events.push(EventSummary {
            ts_ms: i,
            event_type: format!("event{}", i),
            origin: if i % 2 == 0 { Some("x.com".to_string()) } else { None },
        });
    }
    let snapshot = DashboardSnapshot {
        now_ms: 1_000,
        cpu_pct: 0,
        cpu_high: true,
        cpu_high_active: true,
        active_origin: Some("a.com".to_string()),
        origins,
        last_events,
    };
    let scores: Vec<String> = (0..6).map(|i| format!("{}.0", i)).collect();
    assert_eq!(
        terminal_lines(&snapshot, "42.5", &scores),
        vec![
            "---- Hybrid Security Monitor ----",
            "CPU: 42.5% | Global High: true | Active High: true | Now: 1000",
            "Active origin: a.com",
            "Origin: a.com | Score: 0.0 | Reasons: idle, wasm_instantiate",
            "Origin: b.com | Score: 1.0 | Reasons: none",
            "Origin: c.com | Score: 2.0 | Reasons: none",
            "Origin: d.com | Score: 3.0 | Reasons: none",
            "Origin: e.com | Score: 4.0 | Reasons: none",
            "Last events:",
            " - event6 @ x.com",
            " - event5 @ system",
            " - event4 @ x.com",
            " - event3 @ system",
            " - event2 @ x.com",
        ]
    );
}
