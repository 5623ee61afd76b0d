use axil_core::detectors::{
    baseline_data, detect_embedding_drift, detect_slow_query_patterns, detect_stale_sessions,
    detect_storage_growth, growth_since, run_all_detectors, Growth,
};
use axil_core::json::{Number, Value};
use axil_core::record::Record;
use axil_core::time::Timestamp;

const NOW: Timestamp = Timestamp { secs: 1_760_000_000, nanos: 0 };

fn convert(v: &serde_json::Value) -> Value {
    match v {
        serde_json::Value::Null => Value::Null,
        serde_json::Value::Bool(b) => Value::Bool(*b),
        serde_json::Value::Number(n) => Value::Number(if let Some(u) = n.as_u64() {
            Number::PosInt(u)
        } else if let Some(i) = n.as_i64() {
            Number::NegInt(i)
        } else {
            Number::Float(n.as_f64().unwrap().to_bits())
        }),
        serde_json::Value::String(s) => Value::Text(s.clone()),
        serde_json::Value::Array(a) => Value::Array(a.iter().map(convert).collect()),
        serde_json::Value::Object(o) => {
            Value::Object(o.iter().map(|(k, v)| (k.clone(), convert(v))).collect())
        }
    }
}

fn json(text: &str) -> Value {
    convert(&serde_json::from_str(text).unwrap())
}

fn record(table: &str, data: &str) -> Record {
    Record::new(table, json(data), NOW)
}

#[test]
fn stale_sessions_detects_old_active() {
    let mut old_session =
        record("_sessions", r#"{"status": "active", "started_at": "2026-01-01T00:00:00Z"}"#);
    old_session.created_at = Timestamp { secs: NOW.secs - 48 * 3600, nanos: 0 };
    let result = detect_stale_sessions(Some(&vec![old_session]), NOW);
    assert!(result.triggered);
    assert_eq!(result.severity, "warning");
    assert_eq!(result.detail, "1 session(s) active for >24h (oldest: 2025-10-07 08:53)");
}

#[test]
fn stale_sessions_ignores_recent() {
    let session = record("_sessions", r#"{"status": "active", "started_at": "now"}"#);
    let result = detect_stale_sessions(Some(&vec![session]), NOW);
    assert!(!result.triggered);
    assert_eq!(result.detail, "no stale sessions");
}

#[test]
fn sessions_that_ended_are_not_stale() {
    let mut done = record("_sessions", r#"{"status": "done"}"#);
    done.created_at = Timestamp { secs: 0, nanos: 0 };
    assert!(!detect_stale_sessions(Some(&vec![done]), NOW).triggered);
    assert_eq!(detect_stale_sessions(None, NOW).detail, "no sessions table");
}

#[test]
fn storage_growth_first_measurement() {
    let growth = growth_since(&vec![], 123, NOW);
    assert_eq!(growth, None);
    let result = detect_storage_growth(123, growth, false, "");
    assert!(!result.triggered);
    assert!(result.detail.contains("first measurement"));
    assert_eq!(result.detail, "first measurement: 123 bytes");
}

#[test]
fn storage_growth_stable() {
    let first = Record::new("_detector_baselines", baseline_data(100, NOW), NOW);
    let growth = growth_since(&vec![first], 110, NOW);
    assert_eq!(growth, Some(Growth { previous: 100, bytes: 10, hours: 1 }));
    let g = growth.unwrap();
    let rate = (g.bytes as f64 / 1_048_576.0) / (g.hours as f64 / 24.0);
    let result = detect_storage_growth(110, growth, rate > 10.0, &format!("{rate:.2}"));
    assert!(!result.triggered);
    assert!(result.detail.contains("growth rate"));
    assert_eq!(result.detail, "growth rate: 0.00 MB/day (110 bytes total)");
}

#[test]
fn fast_growth_is_a_warning() {
    let growth = Some(Growth { previous: 1, bytes: 50_000_000, hours: 2 });
    let result = detect_storage_growth(50_000_001, growth, true, "572.2");
    assert!(result.triggered);
    assert_eq!(result.severity, "warning");
    assert_eq!(result.detail, "growing at 572.2 MB/day (1 → 50000001 bytes in 2h)");
}

#[test]
fn growth_counts_from_the_latest_baseline() {
    let early = Timestamp { secs: NOW.secs - 50 * 3600, nanos: 0 };
    let late = Timestamp { secs: NOW.secs - 3 * 3600 - 10, nanos: 0 };
    let rows = vec![
        Record::new("_detector_baselines", baseline_data(500, late), late),
        Record::new("_detector_baselines", baseline_data(100, early), early),
        record("_detector_baselines", r#"{"detector": "other", "size_bytes": 1}"#),
    ];
    assert_eq!(
        growth_since(&rows, 400, NOW),
        Some(Growth { previous: 500, bytes: 0, hours: 3 })
    );
}

#[test]
fn slow_query_detection_empty() {
    let result = detect_slow_query_patterns(0, "0");
    assert!(!result.triggered);
    assert_eq!(result.severity, "info");
}

#[test]
fn many_slow_queries_are_a_warning() {
    let result = detect_slow_query_patterns(10, "250");
    assert!(result.triggered);
    assert_eq!(result.severity, "warning");
    assert_eq!(result.detail, "10 slow queries recorded (worst: 250ms)");
}

#[test]
fn drift_compares_the_models() {
    assert!(detect_embedding_drift(false, &vec![]).is_none());
    let none = detect_embedding_drift(true, &vec![]).unwrap();
    assert!(!none.triggered);
    assert_eq!(none.detail, "no model metadata stored (run `axil doctor` to check)");
    let a = record("_config", r#"{"key": "embedding_model", "value": "m1"}"#);
    let b = record("_config", r#"{"key": "current_embedding_model", "value": "m2"}"#);
    let drift = detect_embedding_drift(true, &vec![a, b]).unwrap();
    assert_eq!(drift.severity, "error");
    assert_eq!(drift.detail, "vectors indexed with 'm1' but current model is 'm2'");
    let a = record("_config", r#"{"key": "embedding_model", "value": "m1"}"#);
    let b = record("_config", r#"{"key": "current_embedding_model", "value": "m1"}"#);
    assert_eq!(
        detect_embedding_drift(true, &vec![a, b]).unwrap().detail,
        "model consistent: 'm1'"
    );
}

#[test]
fn run_all_returns_results() {
    let results = run_all_detectors(
        detect_stale_sessions(Some(&vec![]), NOW),
        detect_slow_query_patterns(0, "0"),
        detect_storage_growth(1, None, false, ""),
        detect_embedding_drift(false, &vec![]),
    );
    assert!(results.len() >= 3);
    assert_eq!(results[2].name, "storage_growth");
}
