use axil_core::importance::{
    compute_importance, compute_importance_breakdown, is_highly_important, is_pinned,
    DEFAULT_IMPORTANCE,
};
use axil_core::json::{Number, Value};

fn convert(v: &serde_json::Value) -> Value {
    match v {
        serde_json::Value::Null => Value::Null,
        serde_json::Value::Bool(b) => Value::Bool(*b),
        serde_json::Value::Number(n) => Value::Number(if let Some(u) = n.as_u64() {
            Number::PosInt(u)
        } else if let Some(i) = n.as_i64() {
            Number::NegInt(i)
        } else {
            Number::Float(n.as_f64().unwrap().to_bits())
        }),
        serde_json::Value::String(s) => Value::Text(s.clone()),
        serde_json::Value::Array(a) => Value::Array(a.iter().map(convert).collect()),
        serde_json::Value::Object(o) => {
            Value::Object(o.iter().map(|(k, v)| (k.clone(), convert(v))).collect())
        }
    }
}

fn json(text: &str) -> Value {
    convert(&serde_json::from_str(text).unwrap())
}

/// The texts that a value holds, with a space between them.
fn texts(v: &Value) -> String {
    match v {
        Value::Text(s) => s.clone(),
        Value::Array(a) => a.iter().map(texts).collect::<Vec<_>>().join(" "),
        Value::Object(o) => o.iter().map(|(_, v)| texts(v)).collect::<Vec<_>>().join(" "),
        _ => String::new(),
    }
}

fn score(text: &str) -> i32 {
    let data = json(text);
    compute_importance(&data, &texts(&data))
}

#[test]
fn empty_data_gets_default() {
    assert!((score("{}") - DEFAULT_IMPORTANCE).abs() < 15);
}

#[test]
fn decision_scores_higher() {
    let decision = r#"{
        "type": "decision",
        "summary": "Use JWT for auth tokens instead of sessions",
        "reason": "Stateless, scales horizontally, easy to revoke via short TTL"
    }"#;
    let plain = r#"{"summary": "Updated readme file"}"#;
    assert!(score(decision) > score(plain));
}

#[test]
fn entity_rich_text_scores_higher() {
    let rich =
        r#"{"summary": "Fixed `AuthModule` timeout in `LoginService` affecting `UserController`"}"#;
    let plain = r#"{"summary": "Fixed a bug"}"#;
    assert!(score(rich) > score(plain));
}

#[test]
fn debug_text_scores_lower() {
    let debug = r#"{"summary": "debug output from tmp test"}"#;
    let normal = r#"{"summary": "Implemented caching layer"}"#;
    assert!(score(debug) < score(normal));
}

#[test]
fn pinned_check() {
    assert!(!is_pinned(&json("{}")));
    assert!(!is_pinned(&json(r#"{"_importance_pinned": false}"#)));
    assert!(is_pinned(&json(r#"{"_importance_pinned": true}"#)));
}

#[test]
fn breakdown_matches_score() {
    let data = json(
        r#"{
        "type": "error",
        "summary": "Connection pool exhausted under load in `AuthModule`",
        "root_cause": "Default pool size too small",
        "fix": "Increased pool to 50"
    }"#,
    );
    let breakdown = compute_importance_breakdown(&data, &texts(&data));
    assert_eq!(breakdown.score, compute_importance(&data, &texts(&data)));
}

#[test]
fn score_clamped_to_range() {
    let max = r#"{
        "type": "decision",
        "summary": "Critical architecture decision about `AuthModule` security vulnerability in `LoginService` migration with breaking change",
        "reason": "Root cause was a security fix",
        "impact": "High",
        "files": ["a.rs", "b.rs"]
    }"#;
    let s = score(max);
    assert!(s <= 100);
    assert!(s >= 5);
}

#[test]
fn high_importance_starts_at_eight_tenths() {
    assert!(is_highly_important(&json(r#"{"_importance": 0.8}"#)));
    assert!(is_highly_important(&json(r#"{"_importance": 1}"#)));
    assert!(!is_highly_important(&json(r#"{"_importance": 0.79}"#)));
    assert!(!is_highly_important(&json("{}")));
}
