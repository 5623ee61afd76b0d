use axil_core::event_log::kind;
use axil_core::event_log::{
    agent_id_of, capture_semantic_event, classify, classify_transition, delta_scan_limit,
    recall_delta, DeltaPage, EventCursor, SemanticEvent, BELIEFS_TABLE, CHECKPOINT_TABLE,
    ERRORS_TABLE,
};
use axil_core::json::{Number, Value};
use axil_core::record::Record;
use axil_core::time::Timestamp;

const NOW: Timestamp = Timestamp { secs: 1_760_000_000, nanos: 0 };

fn convert(v: &serde_json::Value) -> Value {
    match v {
        serde_json::Value::Null => Value::Null,
        serde_json::Value::Bool(b) => Value::Bool(*b),
        serde_json::Value::Number(n) => Value::Number(if let Some(u) = n.as_u64() {
            Number::PosInt(u)
        } else if let Some(i) = n.as_i64() {
            Number::NegInt(i)
        } else {
            Number::Float(n.as_f64().unwrap().to_bits())
        }),
        serde_json::Value::String(s) => Value::Text(s.clone()),
        serde_json::Value::Array(a) => Value::Array(a.iter().map(convert).collect()),
        serde_json::Value::Object(o) => {
            Value::Object(o.iter().map(|(k, v)| (k.clone(), convert(v))).collect())
        }
    }
}

fn json(text: &str) -> Value {
    convert(&serde_json::from_str(text).unwrap())
}

fn record(table: &str, data: &str) -> Record {
    Record::new(table, json(data), NOW)
}

#[test]
fn cursor_is_monotonic_within_same_millisecond() {
    let mut cursor = EventCursor::new();
    let mut prev = cursor.next();
    for _ in 0..1000 {
        let next = cursor.next();
        assert!(next > prev, "cursor not monotonic: {next} should be > {prev}");
        prev = next;
    }
}

#[test]
fn classify_checkpoint_insert() {
    let rec = record(CHECKPOINT_TABLE, r#"{"goal": "ship T14"}"#);
    assert_eq!(classify("insert", &rec), Some(kind::CHECKPOINT_WRITTEN));
    assert_eq!(classify("update", &rec), None);
}

#[test]
fn classify_belief_revision() {
    let doubted = record(BELIEFS_TABLE, r#"{"doubted": true}"#);
    assert_eq!(classify("update", &doubted), Some(kind::BELIEF_REVISED));
    let fresh = record(BELIEFS_TABLE, r#"{"statement": "x is y"}"#);
    assert_eq!(classify("insert", &fresh), None);
}

#[test]
fn classify_decision_superseded() {
    let rec = record("decisions", r#"{"_superseded": true, "summary": "old"}"#);
    assert_eq!(classify("update", &rec), Some(kind::DECISION_SUPERSEDED));
}

#[test]
fn classify_error_fixed() {
    let fixed = record(ERRORS_TABLE, r#"{"error": "boom", "fix": "patch"}"#);
    assert_eq!(classify("insert", &fixed), Some(kind::ERROR_FIXED));
    let open = record(ERRORS_TABLE, r#"{"error": "boom", "fix": ""}"#);
    assert_eq!(classify("insert", &open), None);
}

#[test]
fn transition_ignores_repeat_updates_of_the_same_state() {
    let mut fixed = record(ERRORS_TABLE, r#"{"error": "boom", "fix": "patch"}"#);
    let mut annotated = fixed.copy();
    annotated.data.set("_near_duplicate_of", Value::text("01OTHER"));
    assert_eq!(classify_transition("update", Some(&fixed), &annotated), None);

    let open = record(ERRORS_TABLE, r#"{"error": "boom"}"#);
    assert_eq!(
        classify_transition("update", Some(&open), &fixed),
        Some(kind::ERROR_FIXED)
    );
    let before = fixed.copy();
    fixed.data.set("fix", Value::text("better patch"));
    assert_eq!(
        classify_transition("update", Some(&before), &fixed),
        Some(kind::ERROR_FIXED)
    );

    let live = record("decisions", r#"{"summary": "old"}"#);
    let mut dead = live.copy();
    dead.data.set("_superseded", Value::Bool(true));
    assert_eq!(
        classify_transition("update", Some(&live), &dead),
        Some(kind::DECISION_SUPERSEDED)
    );
    let mut touched = dead.copy();
    touched.data.set("_access_count", Value::count(3));
    assert_eq!(classify_transition("update", Some(&dead), &touched), None);

    let mut dead_error = record(ERRORS_TABLE, r#"{"error": "x", "_superseded": true}"#);
    let before = dead_error.copy();
    dead_error.data.set("fix", Value::text("patch"));
    assert_eq!(
        classify_transition("update", Some(&before), &dead_error),
        Some(kind::ERROR_FIXED)
    );

    let belief = record(BELIEFS_TABLE, r#"{"doubted": true, "confidence": 0.3}"#);
    let mut read = belief.copy();
    read.data.set("_access_count", Value::count(1));
    assert_eq!(classify_transition("update", Some(&belief), &read), None);
    let mut revised = belief.copy();
    revised.data.set("confidence", json("0.1"));
    assert_eq!(
        classify_transition("update", Some(&belief), &revised),
        Some(kind::BELIEF_REVISED)
    );

    assert_eq!(
        classify_transition("insert", None, &fixed),
        classify("insert", &fixed)
    );
}

#[test]
fn classify_ignores_ordinary_writes() {
    let rec = record("notes", r#"{"text": "hello"}"#);
    assert_eq!(classify("insert", &rec), None);
}

#[test]
fn agent_id_extracted_from_record() {
    let rec = record("decisions", r#"{"summary": "x", "_agent_id": "agent-7"}"#);
    assert_eq!(agent_id_of(&rec), Some("agent-7".to_string()));
    let untagged = record("decisions", r#"{"summary": "x"}"#);
    assert_eq!(agent_id_of(&untagged), None);
}

/// A log that captures writes as a host does: each with the next cursor.
struct Log {
    cursor: EventCursor,
    events: Vec<SemanticEvent>,
}

impl Log {
    fn new() -> Self {
        Log {
            cursor: EventCursor::new(),
            events: Vec::new(),
        }
    }

    fn write(&mut self, op: &str, record: &Record) {
        let cursor = self.cursor.next();
        if let Some(e) = capture_semantic_event(op, record, cursor) {
            self.events.push(e);
        }
    }

    fn delta(&self, after: Option<&str>, exclude: Option<&str>, limit: usize) -> Vec<SemanticEvent> {
        let entries: Vec<Option<SemanticEvent>> = self
            .events
            .iter()
            .filter(|e| after.map_or(true, |a| e.cursor.as_str() > a))
            .take(delta_scan_limit(limit, exclude.is_some()))
            .map(|e| Some(e.clone()))
            .collect();
        recall_delta(&entries, exclude, limit)
    }
}

#[test]
fn captures_allowlisted_underscore_table_events() {
    let mut log = Log::new();
    log.write("insert", &record("_checkpoint_records", r#"{"goal": "ship T14"}"#));
    log.write("insert", &record("_beliefs", r#"{"statement": "x", "doubted": true}"#));
    log.write("insert", &record("notes", r#"{"text": "noise"}"#));

    let events = log.delta(None, None, 50);
    let kinds: Vec<&str> = events.iter().map(|e| e.kind.as_str()).collect();
    assert!(kinds.contains(&kind::CHECKPOINT_WRITTEN));
    assert!(kinds.contains(&kind::BELIEF_REVISED));
    assert_eq!(events.len(), 2, "ordinary `notes` write must not be captured");
}

#[test]
fn captures_decision_superseded_and_error_fixed() {
    let mut log = Log::new();
    log.write("insert", &record("decisions", r#"{"summary": "old"}"#));
    log.write("update", &record("decisions", r#"{"summary": "old", "_superseded": true}"#));
    log.write("insert", &record("errors", r#"{"error": "boom", "fix": "patch"}"#));

    let events = log.delta(None, None, 50);
    let kinds: Vec<&str> = events.iter().map(|e| e.kind.as_str()).collect();
    assert!(kinds.contains(&kind::DECISION_SUPERSEDED));
    assert!(kinds.contains(&kind::ERROR_FIXED));
}

#[test]
fn recall_delta_returns_only_post_cursor_events() {
    let mut log = Log::new();
    for i in 0..5 {
        log.write("insert", &record("errors", &format!(r#"{{"error": "e{i}", "fix": "f"}}"#)));
    }
    let all = log.delta(None, None, 50);
    assert_eq!(all.len(), 5);
    let cursor = all[1].cursor.clone();
    let rest = log.delta(Some(&cursor), None, 50);
    assert_eq!(rest.len(), 3);
    assert_eq!(rest[0].cursor, all[2].cursor);
    for e in &rest {
        assert!(e.cursor > cursor);
    }
}

#[test]
fn recall_delta_respects_exclude_agent() {
    let mut log = Log::new();
    for (error, agent) in [("a", "agent-a"), ("b", "agent-b"), ("c", "agent-a")] {
        log.write(
            "insert",
            &record(
                "errors",
                &format!(r#"{{"error": "{error}", "fix": "f", "_agent_id": "{agent}"}}"#),
            ),
        );
    }
    let filtered = log.delta(None, Some("agent-a"), 50);
    assert_eq!(filtered.len(), 1);
    assert_eq!(filtered[0].agent_id.as_deref(), Some("agent-b"));
    assert_eq!(log.delta(None, None, 50).len(), 3);
}

#[test]
fn cursor_is_monotonic_across_same_millisecond_writes() {
    let mut log = Log::new();
    for i in 0..200 {
        log.write("insert", &record("errors", &format!(r#"{{"error": "e{i}", "fix": "f"}}"#)));
    }
    let events = log.delta(None, None, 1000);
    assert_eq!(events.len(), 200);
    for w in events.windows(2) {
        assert!(w[0].cursor < w[1].cursor);
    }
}

#[test]
fn pages_of_events_join_to_the_whole() {
    let mut log = Log::new();
    for i in 0..7 {
        log.write("insert", &record("errors", &format!(r#"{{"error": "e{i}", "fix": "f"}}"#)));
    }
    let mut seen: Vec<String> = Vec::new();
    let mut after: Option<String> = None;
    loop {
        let rest: Vec<&SemanticEvent> = log
            .events
            .iter()
            .filter(|e| after.as_ref().map_or(true, |a| &e.cursor > a))
            .take(delta_scan_limit(3, false))
            .collect();
        let positions: Vec<String> = rest.iter().map(|e| e.cursor.clone()).collect();
        let entries: Vec<Option<SemanticEvent>> = rest.iter().map(|e| Some((*e).clone())).collect();
        let page = DeltaPage::collect(&positions, &entries, None, 3);
        if page.events.is_empty() {
            break;
        }
        seen.extend(page.events.iter().map(|e| e.cursor.clone()));
        match page.next_cursor {
            Some(c) => after = Some(c),
            None => break,
        }
    }
    let all: Vec<String> = log.events.iter().map(|e| e.cursor.clone()).collect();
    assert_eq!(seen, all);
}

#[test]
fn internal_tables_supersede_in_silence() {
    let rec = record("_entities", r#"{"_superseded": true, "name": "x"}"#);
    assert_eq!(classify("update", &rec), None);
    let live = record("_entities", r#"{"name": "x"}"#);
    assert_eq!(classify_transition("update", Some(&live), &rec), None);
}
