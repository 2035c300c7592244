//! Correlation of browser events with CPU load.
pub mod alert;
pub mod clock;
pub mod correlate;
pub mod cpu;
pub mod event;
pub mod ingest;
pub mod laws;
pub mod laws_alerts;
pub mod laws_calls;
pub mod laws_events;
pub mod laws_load;
pub mod laws_score;
pub mod laws_snapshot;
pub mod laws_text;
pub mod laws_views;
pub mod laws_walk;
pub mod ranking;
pub mod record;
pub mod schema;
pub mod score;
pub mod single;
pub mod snapshot;
pub mod state;
pub mod terminal;
pub mod text;
