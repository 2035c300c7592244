//! The records that the monitor writes to its log.
use vstd::prelude::*;

use crate::alert::Alert;
use crate::score::texts;
use crate::single::Single;

verus! {

/// The record of an alert.
#[derive(Debug)]
pub struct AlertRecord {
    pub event_type: String,
    pub ts_ms: u64,
    pub origin: String,
    pub score: Single,
    pub reasons: Vec<String>,
}

/// The record of a sample of the CPU load.
#[derive(Debug)]
pub struct LoadRecord {
    pub event_type: String,
    pub ts_ms: u64,
    pub process: String,
    pub cpu_pct: u32,
}

/// The record of an alert.
pub fn alert_record(alert: Alert) -> (record: AlertRecord)
    ensures
        record.event_type@ == "alert_suspicious_compute"@,
        record.ts_ms == alert.ts_ms,
        record.origin@ == alert.origin@,
        record.score == alert.score,
        texts(record.reasons@) == texts(alert.reasons@),
{
    AlertRecord {
        event_type: "alert_suspicious_compute".to_owned(),
        ts_ms: alert.ts_ms,
        origin: alert.origin,
        score: alert.score,
        reasons: alert.reasons,
    }
}

/// The record of a sample of the browser's CPU load.
pub fn load_record(cpu_pct: u32, ts_ms: u64) -> (record: LoadRecord)
    ensures
        record.event_type@ == "cpu_sample"@,
        record.ts_ms == ts_ms,
        record.process@ == "chrome"@,
        record.cpu_pct == cpu_pct,
{
    LoadRecord {
        event_type: "cpu_sample".to_owned(),
        ts_ms,
        process: "chrome".to_owned(),
        cpu_pct,
    }
}

} // verus!
