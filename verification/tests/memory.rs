use axil_core::db::entities::{bridge_key, AliasStep, EdgeMove};
use axil_core::db::link::{
    entity_type_value, mention_properties, pick_file_hint, superseded_data, Compared, Rival,
    Similar, Verdict,
};
use axil_core::db::consolidate::{
    consolidation_request, fact_conflict, ConflictResult, ConsolidatedFact, DatedFact,
};
use axil_core::db::write::doubt_beliefs;
use axil_core::db::{is_expired_record, is_superseded_record, Axil};
use axil_core::entity::{extract_entities, EntityType};
use axil_core::error::AxilError;
use axil_core::json::{Number, Value};
use axil_core::plugin::EdgeInfo;
use axil_core::record::{Record, RecordId};
use axil_core::time::Timestamp;

const NOW: Timestamp = Timestamp { secs: 1_760_000_000, nanos: 0 };

fn convert(v: &serde_json::Value) -> Value {
    match v {
        serde_json::Value::Null => Value::Null,
        serde_json::Value::Bool(b) => Value::Bool(*b),
        serde_json::Value::Number(n) => Value::Number(if let Some(u) = n.as_u64() {
            Number::PosInt(u)
        } else if let Some(i) = n.as_i64() {
            Number::NegInt(i)
        } else {
            Number::Float(n.as_f64().unwrap().to_bits())
        }),
        serde_json::Value::String(s) => Value::Text(s.clone()),
        serde_json::Value::Array(a) => Value::Array(a.iter().map(convert).collect()),
        serde_json::Value::Object(o) => {
            Value::Object(o.iter().map(|(k, v)| (k.clone(), convert(v))).collect())
        }
    }
}

fn json(text: &str) -> Value {
    convert(&serde_json::from_str(text).unwrap())
}

fn record(table: &str, data: &str) -> Record {
    Record::new(table, json(data), NOW)
}

fn edge(from: &RecordId, to: &RecordId, properties: &str) -> EdgeInfo {
    EdgeInfo {
        id: RecordId::new(),
        from: from.copy(),
        to: to.copy(),
        edge_type: "mentions".to_string(),
        properties: json(properties),
        created_at: String::new(),
    }
}

fn key(score: f32) -> i32 {
    score.to_bits() as i32
}

fn full() -> Axil {
    Axil {
        vector_index: true,
        embedder: true,
        graph_index: true,
        timeseries_index: true,
        fts_index: true,
        audit_enabled: true,
    }
}

#[test]
fn code_symbol_serializes_as_snake_case() {
    let v = entity_type_value(&EntityType::CodeSymbol {
        lang_hint: Some("rust".to_string()),
    });
    let inner = v.get("code_symbol").expect("expected `code_symbol` key");
    assert_eq!(inner.get_str("lang_hint"), Some("rust"));
    assert_eq!(entity_type_value(&EntityType::File).as_str(), Some("file"));
    assert!(mention_properties(&EntityType::Code).get("strength").unwrap().same(&json("1.0")));
}

#[test]
fn entities_are_linked_once() {
    let data = json(r#"{"summary": "`AuthModule` uses `AuthModule` and `LoginService`"}"#);
    let entities = extract_entities("`AuthModule` uses `AuthModule` and `LoginService`");
    let plan = Axil::auto_link(&entities, &data, &vec![], &vec![], NOW);
    assert_eq!(plan.targets.len(), entities.len());
    assert_eq!(plan.rows.len(), plan.created.len());
    assert_eq!(plan.rows[0].table, "_entities");
    // With the rows there, nothing is made again.
    let again = Axil::auto_link(&entities, &data, &plan.rows, &vec![], NOW);
    assert!(again.rows.is_empty());
    assert!(again.targets[0].same(&plan.targets[0]));
    // And with the links there, no edge is.
    let linked: Vec<RecordId> = plan.targets.iter().map(|t| t.copy()).collect();
    let quiet = Axil::auto_link(&entities, &data, &plan.rows, &linked, NOW);
    assert!(quiet.edges.is_empty());
    assert_eq!(pick_file_hint(&json(r#"{"file": "src/a.rs"}"#)).as_deref(), Some("src/a.rs"));
}

#[test]
fn only_close_records_are_linked() {
    let r = record("notes", "{}");
    let other = record("notes", "{}");
    let similar = vec![
        Similar { id: r.id.copy(), score: key(1.0), record: Some(r.copy()) },
        Similar { id: other.id.copy(), score: key(0.9), record: Some(other.copy()) },
        Similar { id: RecordId::new(), score: key(0.2), record: None },
    ];
    assert!(Axil::similarity_links(&r, &similar, key(0.85), &vec![]).is_empty());
    let mut earlier = other.copy();
    earlier.created_at = Timestamp { secs: NOW.secs - 7200, nanos: 0 };
    let mut similar = similar;
    similar[1].record = Some(earlier);
    assert_eq!(Axil::similarity_links(&r, &similar, key(0.85), &vec![]), vec![1]);
    assert!(Axil::similarity_links(&r, &similar, key(0.95), &vec![]).is_empty());
    assert!(Axil::similarity_links(&r, &similar, key(0.85), &vec![other.id.copy()]).is_empty());
}

#[test]
fn newer_records_supersede_older_ones() {
    let new = record("notes", r#"{"summary": "now"}"#);
    let mut old = record("notes", r#"{"summary": "then"}"#);
    old.created_at = Timestamp { secs: NOW.secs - 100, nanos: 0 };
    let mut later = record("notes", r#"{"summary": "later"}"#);
    later.created_at = Timestamp { secs: NOW.secs + 100, nanos: 0 };
    let rivals = vec![
        Rival { record: old, score: key(0.99) },
        Rival { record: later, score: key(0.99) },
    ];
    let out = Axil::auto_supersede_with_vector(&new, &rivals);
    assert!(!out.contains(&1), "a later record is never superseded");
    let data = superseded_data(&json(r#"{"a": 1}"#), &new.id);
    assert!(data.flag("_superseded"));
    assert_eq!(data.get_u64("a"), Some(1));
    let dead = Record::new("notes", data, NOW);
    assert!(is_superseded_record(&dead));
    assert!(!is_superseded_record(&new));
}

#[test]
fn records_expire() {
    let r = record("notes", r#"{"valid_until": "2020-01-01T00:00:00Z"}"#);
    assert!(is_expired_record(&r, NOW));
    assert!(!is_expired_record(&r, Timestamp { secs: 0, nanos: 0 }));
    assert!(!is_expired_record(&record("notes", "{}"), NOW));
}

#[test]
fn conflicts_are_told_apart() {
    let me = RecordId::new();
    let compared = vec![
        Compared { id: RecordId::new(), verdict: Verdict::Novel },
        Compared { id: RecordId::new(), verdict: Verdict::Contradicts },
        Compared { id: RecordId::new(), verdict: Verdict::Supersedes },
        Compared { id: me.copy(), verdict: Verdict::Supersedes },
    ];
    let steps = Axil::detect_conflicts(&me, &compared);
    assert_eq!(steps.iter().map(|s| s.at).collect::<Vec<_>>(), vec![1, 2]);
    assert!(!steps[0].supersedes && steps[1].supersedes);
}

#[test]
fn facts_show_their_conflicts() {
    let a = RecordId::new();
    let b = RecordId::new();
    let e = || edge(&a, &b, r#"{"similarity": 0.9}"#);
    assert!(matches!(fact_conflict(&vec![], &vec![]), ConflictResult::Novel));
    assert!(matches!(fact_conflict(&vec![], &vec![e()]), ConflictResult::Contradicts { .. }));
    match fact_conflict(&vec![e()], &vec![e()]) {
        ConflictResult::Supersedes { old_record_id, .. } => assert!(old_record_id.same(&b)),
        _ => panic!("superseding comes first"),
    }
}

#[test]
fn aliases_are_known_once_registered() {
    match Axil::register_entity_alias(&vec![], "login", "file:a", "canon") {
        AliasStep::Insert(data) => {
            let rows = vec![Record::new("_entity_aliases", data, NOW)];
            assert!(matches!(
                Axil::register_entity_alias(&rows, "login", "file:a", "canon"),
                AliasStep::Known(_)
            ));
            let scopes = vec!["file:b".to_string(), "file:a".to_string()];
            assert_eq!(
                Axil::resolve_entity_alias(&rows, "login", &scopes).as_deref(),
                Some("canon")
            );
            assert_eq!(Axil::resolve_entity_alias(&rows, "logout", &scopes), None);
        }
        AliasStep::Known(_) => panic!("nothing is known yet"),
    }
}

#[test]
fn merged_entities_hand_over_their_edges() {
    let from = record("_entities", r#"{"canonical_id": "a", "name": "A"}"#);
    let to = record("_entities", r#"{"canonical_id": "b", "name": "B"}"#);
    let x = RecordId::new();
    let rows = vec![from.copy(), to.copy()];
    let plan = Axil::merge_entities(&rows, &vec![], "a", "b").unwrap().unwrap();
    assert!(plan.from.same(&from.id) && plan.to.same(&to.id));
    assert_eq!(plan.tombstone.get_str("_merged_into"), Some("b"));
    assert!(matches!(Axil::merge_entities(&rows, &vec![], "a", "a"), Ok(None)));
    assert!(Axil::merge_entities(&rows, &vec![], "nobody", "b").is_err());
    let arriving = vec![edge(&x, &from.id, r#"{"w": 2}"#), edge(&from.id, &from.id, "{}")];
    let moves = Axil::merge_incoming(&arriving, &from.id, &to.id);
    match &moves[0] {
        EdgeMove::Replace { from: f, edge_type, to: t, properties } => {
            assert!(f.same(&x) && t.same(&to.id));
            assert_eq!(edge_type, "mentions");
            assert!(properties.same(&json(r#"{"w": 2}"#)));
        }
        EdgeMove::Drop => panic!("an edge of another record is kept"),
    }
    assert!(matches!(moves[1], EdgeMove::Drop), "an edge to itself is not carried on");
    let out = Axil::merge_outgoing(&vec![edge(&from.id, &x, "{}")], &to.id);
    match &out[0] {
        EdgeMove::Replace { from: f, to: t, .. } => assert!(f.same(&to.id) && t.same(&x)),
        EdgeMove::Drop => panic!("an edge to another record is kept"),
    }
    let alias = record(
        "_scip_aliases",
        r#"{"alias": "aa", "scope": "s", "canonical_id": "a"}"#,
    );
    let plan = Axil::merge_entities(&rows, &vec![alias], "a", "b").unwrap().unwrap();
    assert_eq!(Axil::merged_total(&plan.aliases, &moves, &out), 3);
    assert_eq!(Axil::merged_total(&vec![], &moves, &vec![]), 1);
}

#[test]
fn bridges_are_verified() {
    let bridge = json(
        r#"{"local_canonical": "a", "remote_workspace_id": "w", "remote_member_id": "m", "remote_canonical": "b"}"#,
    );
    assert_eq!(bridge_key(&bridge), Some(("a", "w", "m", "b")));
    assert_eq!(bridge_key(&json("{}")), None);
    let row = Record::new("_bridges", bridge.copy(), NOW);
    let replaced = Axil::upsert_bridge(&bridge, &vec![row.copy()]).unwrap();
    assert_eq!(replaced.len(), 1);
    assert!(replaced[0].same(&row.id));
    assert!(Axil::upsert_bridge(&json("{}"), &vec![]).is_err());
    let other = json(
        r#"{"local_canonical": "a|w", "remote_workspace_id": "m", "remote_member_id": "b", "remote_canonical": "c"}"#,
    );
    let alike = json(
        r#"{"local_canonical": "a", "remote_workspace_id": "w|m", "remote_member_id": "b", "remote_canonical": "c"}"#,
    );
    let rows = vec![Record::new("_bridges", other, NOW)];
    assert!(Axil::upsert_bridge(&alike, &rows).unwrap().is_empty());
    assert!(Axil::list_bridges(&row, Some("a"), Some("m")));
    assert!(!Axil::list_bridges(&row, Some("x"), None));

    let gone = Axil::verify_bridges(&vec![row.copy()], &vec![]);
    assert_eq!((gone.verified, gone.dangling, gone.updates.len()), (0, 1, 1));
    assert!(gone.updates[0].data.flag("dangling"));
    let known = record("_entities", r#"{"canonical_id": "a"}"#);
    let here = Axil::verify_bridges(&vec![row], &vec![known]);
    assert_eq!((here.verified, here.dangling, here.updates.len()), (1, 0, 0));
}

#[test]
fn migrations_fill_in_what_is_missing() {
    let rows = vec![
        record("_entities", r#"{"name": "Ada"}"#),
        record("_entities", r#"{"name": "Bob", "canonical_id": "bob"}"#),
    ];
    let updates = Axil::migrate_entity_canonical_id(&rows);
    assert_eq!(updates.len(), 1);
    assert!(updates[0].id.same(&rows[0].id));
    assert_eq!(updates[0].data.get_str("canonical_id"), Some("Ada"));
}

#[test]
fn consent_defaults_are_kept() {
    let (row, stale) =
        Axil::set_consent_default(&vec![], "notes", Some(json(r#""all""#)), None, NOW);
    assert!(stale.is_empty());
    let rows = vec![Record::new("_consent_defaults", row, NOW)];
    let (read, write) = Axil::consent_default(&rows, "notes");
    assert_eq!(read.unwrap().as_str(), Some("all"));
    assert!(write.is_none());
    let (row, stale) =
        Axil::set_consent_default(&rows, "notes", None, Some(json(r#""none""#)), NOW);
    assert_eq!(stale.len(), 1);
    assert_eq!(row.get_str("read"), Some("all"));
    assert_eq!(row.get_str("write"), Some("none"));
    let entry =
        Axil::set_record_consent(&rows[0].id, Some(&rows[0]), json("1"), json("2"), NOW).unwrap();
    assert_eq!(entry.get_str("table"), Some("_consent_defaults"));
    assert!(matches!(
        Axil::set_record_consent(&rows[0].id, None, json("1"), json("2"), NOW),
        Err(AxilError::NotFound(_))
    ));
}

#[test]
fn facts_are_consolidated() {
    let fact = |text: &str, day: &str| DatedFact { text: text.to_string(), day: day.to_string() };
    assert_eq!(
        Axil::consolidate_entity_enhanced("Ada", &vec![], None),
        "No known facts about 'Ada'."
    );
    let facts = vec![fact("new", "2025-10-09"), fact("old", "2025-10-01"), fact("older", "2025-09-01")];
    assert_eq!(
        Axil::consolidate_entity_enhanced("Ada", &facts, None),
        "new (latest: 2025-10-09). 2 prior facts."
    );
    assert_eq!(Axil::consolidate_entity_enhanced("Ada", &facts, Some(" said \n")), "said");
    assert!(consolidation_request("Ada", &facts).unwrap().contains("1. 'new' (2025-10-09)\n2. 'old'"));
    assert!(consolidation_request("Ada", &vec![fact("new", "2025-10-09")]).is_none());
    let whole = ConsolidatedFact {
        entity: "Ada".to_string(),
        summary: "sum".to_string(),
        source_ids: vec![RecordId::new()],
        latest_at: NOW,
    };
    let plan = Axil::consolidate_entity("Ada", &whole, &vec![], NOW);
    assert!(plan.stale.is_empty());
    assert_eq!(plan.record.data.get_str("summary"), Some("sum"));
}

#[test]
fn history_shows_what_was_superseded() {
    let mut old = record("notes", r#"{"_superseded": true}"#);
    old.created_at = Timestamp { secs: 1, nanos: 0 };
    let new = record("notes", "{}");
    let h = Axil::entity_history(&vec![old, new]);
    assert_eq!(h.len(), 2);
    assert!(h.iter().any(|e| e.superseded) && h.iter().any(|e| !e.superseded));
    assert_ne!(h[0].status(), h[1].status());
}

#[test]
fn writes_follow_the_table() {
    let user = record("notes", r#"{"text": "long enough"}"#);
    let plan = full().insert_record_inner(&user, "long enough");
    assert!(plan.score && plan.vector && plan.fts && plan.timeseries && plan.embed && plan.audit);
    let internal = record("_beliefs", r#"{"text": "long enough"}"#);
    let plan = full().insert_record_inner(&internal, "long enough");
    assert!(!plan.score && !plan.vector && !plan.fts && !plan.embed && !plan.audit);
    assert!(!plan.timeseries);
    let summary = record("_summaries", "{}");
    assert!(full().insert_record_inner(&summary, "").timeseries);
    assert!(!full().insert_record_inner(&user, "tiny").embed);
    let updated = full().update(&user, "long enough");
    assert!(updated.embed && updated.audit);
    let deleted = full().delete(Some(&user));
    assert!(deleted.vector && deleted.audit);
}

#[test]
fn batches_are_planned_together() {
    let records: Vec<Record> = (0..3).map(|_| record("notes", "{}")).collect();
    let texts = vec!["long enough".to_string(), "no".to_string(), "also long".to_string()];
    let plan = full().insert_batch_records(&records, &texts, true);
    assert_eq!(plan.embeddable, vec![0, 2]);
    assert_eq!(plan.batches, vec![(0, 2)]);
    assert_eq!(plan.audited, vec![0, 1, 2]);
    let made = Axil::insert_batch_at(
        "notes",
        vec![(json("{}"), NOW), (json(r#"{"_importance": 0.1}"#), NOW)],
        vec![json("0.5"), json("0.6")],
    );
    assert!(made[0].data.get("_importance").unwrap().same(&json("0.5")));
    assert!(made[1].data.get("_importance").unwrap().same(&json("0.1")));
    let internal = Axil::scored_record("_x", json("{}"), json("0.5"), NOW);
    assert!(internal.data.get("_importance").is_none());
}

#[test]
fn beliefs_are_doubted_with_their_evidence() {
    let gone = RecordId::new();
    let beliefs = vec![
        record("_beliefs", r#"{"source": "consolidated"}"#),
        record("_beliefs", r#"{"source": "consolidated", "doubted": true}"#),
        record("_beliefs", r#"{"source": "told"}"#),
    ];
    let updates = doubt_beliefs(&beliefs, &gone);
    assert_eq!(updates.len(), 1);
    assert!(updates[0].id.same(&beliefs[0].id));
    assert!(updates[0].data.flag("doubted"));
    assert!(updates[0].data.get("confidence").unwrap().same(&json("0.3")));
    assert_eq!(
        updates[0].data.get_str("_doubt_reason"),
        Some(format!("source entity fact {} deleted", gone.as_str()).as_str())
    );
}
