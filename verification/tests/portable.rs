use axil_core::error::AxilError;
use axil_core::json::{Number, Value};
use axil_core::plugin::EdgeInfo;
use axil_core::portable::import::{EdgePlan, ImportOptions, Importer, LineKind, RecordPlan};
use axil_core::portable::{
    build_record, canonical_value, content_hash_of, edge_line, export_edges, export_header,
    export_records, export_tables, is_rebuilt_index_table, record_line, table_selected,
    EdgeLine, EmbeddingVerification, ExportOptions, RecordLine, FORMAT, FORMAT_VERSION,
};
use axil_core::record::{Record, RecordId};
use axil_core::time::Timestamp;

const NOW: Timestamp = Timestamp { secs: 1_760_000_000, nanos: 0 };

fn convert(v: &serde_json::Value) -> Value {
    match v {
        serde_json::Value::Null => Value::Null,
        serde_json::Value::Bool(b) => Value::Bool(*b),
        serde_json::Value::Number(n) => Value::Number(if let Some(u) = n.as_u64() {
            Number::PosInt(u)
        } else if let Some(i) = n.as_i64() {
            Number::NegInt(i)
        } else {
            Number::Float(n.as_f64().unwrap().to_bits())
        }),
        serde_json::Value::String(s) => Value::Text(s.clone()),
        serde_json::Value::Array(a) => Value::Array(a.iter().map(convert).collect()),
        serde_json::Value::Object(o) => {
            Value::Object(o.iter().map(|(k, v)| (k.clone(), convert(v))).collect())
        }
    }
}

fn json(text: &str) -> Value {
    convert(&serde_json::from_str(text).unwrap())
}

fn record(table: &str, data: &str) -> Record {
    Record::new(table, json(data), NOW)
}

/// A value written in its layout.
fn write(v: &Value) -> String {
    match v {
        Value::Null => "null".to_string(),
        Value::Bool(b) => b.to_string(),
        Value::Number(Number::PosInt(n)) => n.to_string(),
        Value::Number(Number::NegInt(n)) => n.to_string(),
        Value::Number(Number::Float(b)) => f64::from_bits(*b).to_string(),
        Value::Text(s) => serde_json::to_string(s).unwrap(),
        Value::Array(a) => format!("[{}]", a.iter().map(write).collect::<Vec<_>>().join(",")),
        Value::Object(o) => format!(
            "{{{}}}",
            o.iter()
                .map(|(k, v)| format!("{}:{}", serde_json::to_string(k).unwrap(), write(v)))
                .collect::<Vec<_>>()
                .join(",")
        ),
    }
}

fn content_hash(v: &Value) -> String {
    content_hash_of(write(&canonical_value(v, true)).as_bytes())
}

fn everything() -> ExportOptions {
    ExportOptions {
        tables: None,
        since: None,
        include_system: false,
    }
}

#[test]
fn rebuilt_index_tables_are_recognized() {
    assert!(is_rebuilt_index_table("_idx_code_refs"));
    assert!(is_rebuilt_index_table("_idx_code_proxies"));
    assert!(!is_rebuilt_index_table("_entities"));
    assert!(!is_rebuilt_index_table("decisions"));
}

#[test]
fn table_selection_default_excludes_system_and_indexes() {
    let opts = everything();
    assert!(table_selected("decisions", &opts));
    assert!(!table_selected("_entities", &opts));
    assert!(!table_selected("_idx_code_refs", &opts));
}

#[test]
fn table_selection_include_system_keeps_underscore_but_not_index() {
    let opts = ExportOptions {
        include_system: true,
        ..everything()
    };
    assert!(table_selected("_entities", &opts));
    assert!(table_selected("decisions", &opts));
    assert!(!table_selected("_idx_code_refs", &opts));
}

#[test]
fn explicit_allowlist_overrides_heuristic() {
    let opts = ExportOptions {
        tables: Some(vec!["decisions".to_string(), "_entities".to_string()]),
        ..everything()
    };
    assert!(table_selected("decisions", &opts));
    assert!(table_selected("_entities", &opts));
    assert!(!table_selected("errors", &opts));
    let opts2 = ExportOptions {
        tables: Some(vec!["_idx_code_refs".to_string()]),
        ..everything()
    };
    assert!(!table_selected("_idx_code_refs", &opts2));
}

#[test]
fn content_hash_ignores_internal_fields_and_key_order() {
    let a = json(r#"{"summary": "x", "reason": "y", "_importance": 0.9}"#);
    let b = Value::Object(vec![
        ("reason".to_string(), Value::text("y")),
        ("summary".to_string(), Value::text("x")),
        ("_importance".to_string(), json("0.2")),
    ]);
    assert_eq!(content_hash(&a), content_hash(&b));

    let c = json(r#"{"summary": "different", "reason": "y"}"#);
    assert_ne!(content_hash(&a), content_hash(&c));
}

#[test]
fn content_hash_is_that_of_the_canonical_text() {
    // SHA-256 of `{}`.
    let hash = content_hash(&json("{}"));
    assert!("44136fa355b3678a1146ad16f7e8649e94fb4fc21fe77e8310c060f61caaff8a".starts_with(&hash));
    assert!(!hash.is_empty());
}

#[test]
fn canonical_value_sorts_nested_keys() {
    let v = Value::Object(vec![
        (
            "b".to_string(),
            Value::Object(vec![
                ("z".to_string(), Value::count(1)),
                ("a".to_string(), Value::count(2)),
            ]),
        ),
        ("a".to_string(), Value::count(3)),
    ]);
    let canon = canonical_value(&v, false);
    assert_eq!(write(&canon), r#"{"a":3,"b":{"a":2,"z":1}}"#);
}

fn edge(from: &RecordId, to: &RecordId) -> EdgeInfo {
    EdgeInfo {
        id: RecordId::new(),
        from: from.copy(),
        to: to.copy(),
        edge_type: "mentions".to_string(),
        properties: Value::object(),
        created_at: "2025-10-09T08:53:20+00:00".to_string(),
    }
}

#[test]
fn exports_hold_whole_edges_only() {
    let tables = vec!["notes".to_string(), "_entities".to_string(), "decisions".to_string()];
    assert_eq!(export_tables(tables, &everything()), vec!["decisions", "notes"]);
    let a = record("notes", r#"{"text": "a"}"#);
    let b = record("notes", r#"{"text": "b"}"#);
    let outside = RecordId::new();
    let inner = edge(&a.id, &b.id);
    let dangling = edge(&a.id, &outside);
    let kept = inner.id.copy();
    let records = export_records(vec![b, a], &everything());
    let edges = export_edges(&records, vec![dangling, inner]);
    assert_eq!(edges.len(), 1);
    assert!(edges[0].id.same(&kept));
    let header = export_header(records.len(), edges.len(), "1.2.3");
    assert_eq!(header.format, FORMAT);
    assert_eq!(header.format_version, FORMAT_VERSION);
    assert_eq!((header.record_count, header.edge_count), (2, 1));
    let line = edge_line(&edges[0]);
    assert_eq!(line.edge_type, "mentions");
}

#[test]
fn exports_since_a_time_leave_older_records_out() {
    let old = Record::new("notes", json("{}"), Timestamp { secs: 1, nanos: 0 });
    let new = record("notes", "{}");
    let opts = ExportOptions {
        since: Some(Timestamp { secs: 100, nanos: 0 }),
        ..everything()
    };
    let kept = export_records(vec![old, new], &opts);
    assert_eq!(kept.len(), 1);
    assert_eq!(kept[0].created_at, NOW);
}

#[test]
fn records_come_back_from_their_lines() {
    let r = record("notes", r#"{"text": "hello", "n": 3}"#);
    let line = record_line(&r);
    let back = build_record(&line, Timestamp { secs: 5, nanos: 0 }).unwrap();
    assert!(back.id.same(&r.id));
    assert_eq!(back.table, "notes");
    assert!(back.data.same(&r.data));
    assert_eq!(back.created_at, NOW);
    assert_eq!(back.updated_at, NOW);
}

#[test]
fn lines_with_bad_ids_are_refused_and_bad_times_are_now() {
    let r = record("notes", "{}");
    let mut line = record_line(&r);
    line.id = "nonsense".to_string();
    assert!(build_record(&line, NOW).is_err());
    let mut line = record_line(&r);
    line.created_at = "yesterday".to_string();
    line.updated_at = None;
    let later = Timestamp { secs: NOW.secs + 7, nanos: 0 };
    let back = build_record(&line, later).unwrap();
    assert_eq!(back.created_at, later);
    assert_eq!(back.updated_at, later);
}

fn started(dry_run: bool, dedup: bool) -> Importer {
    let mut i = Importer::new(ImportOptions { dedup, dry_run });
    i.accept_header(FORMAT, FORMAT_VERSION).unwrap();
    i
}

#[test]
fn imports_begin_with_the_header() {
    let mut i = Importer::new(ImportOptions { dedup: false, dry_run: false });
    assert!(i.begin_line("record", 1).is_err());
    assert!(i.begin_line("nonsense", 1).is_err());
    assert!(matches!(i.begin_line("header", 1), Ok(LineKind::Header)));
    assert!(i.accept_header("something-else", FORMAT_VERSION).is_err());
    assert!(i.accept_header(FORMAT, FORMAT_VERSION + 1).is_err());
    assert!(i.accept_header(FORMAT, FORMAT_VERSION).is_ok());
    assert!(matches!(i.begin_line("record", 2), Ok(LineKind::Record)));
    assert!(matches!(i.begin_line("edge", 3), Ok(LineKind::Edge)));
}

fn import(i: &mut Importer, line: &RecordLine) -> bool {
    let hash = content_hash(&line.data);
    match i.plan_record(line, &hash, NOW).unwrap() {
        RecordPlan::Done => false,
        RecordPlan::Insert(_) => {
            i.record_inserted(line, &hash, 0, true);
            true
        }
    }
}

#[test]
fn importing_twice_with_dedup_skips_the_second_time() {
    let mut i = started(false, true);
    let line = record_line(&record("notes", r#"{"text": "hello"}"#));
    assert!(import(&mut i, &line));
    assert!(!import(&mut i, &line));
    let n = i.embeddable_ids().len();
    assert_eq!(n, 1);
    let report = i.finish(true, &vec![true; n]).unwrap();
    assert_eq!((report.imported, report.skipped_id), (1, 1));
    assert!(matches!(
        report.embeddings,
        Some(EmbeddingVerification::Verified { expected: 1, indexed: 1, missing: 0 })
    ));
}

#[test]
fn importing_twice_without_dedup_overwrites() {
    let mut i = started(false, false);
    let line = record_line(&record("notes", r#"{"text": "hello"}"#));
    assert!(import(&mut i, &line));
    assert!(import(&mut i, &line));
    let n = i.embeddable_ids().len();
    let report = i.finish(true, &vec![false; n]).unwrap();
    assert_eq!((report.imported, report.overwritten), (1, 1));
    assert!(matches!(
        report.embeddings,
        Some(EmbeddingVerification::Verified { expected: 2, indexed: 0, missing: 2 })
    ));
}

#[test]
fn files_without_a_header_are_refused() {
    let i = Importer::new(ImportOptions { dedup: false, dry_run: false });
    match i.finish(true, &vec![]) {
        Err(AxilError::InvalidQuery(m)) => {
            assert_eq!(m, "missing export header — is this an axil export file?")
        }
        _ => panic!("a file without a header is no export"),
    }
}

#[test]
fn imports_with_dedup_skip_known_content_and_follow_it() {
    let mut i = started(false, true);
    let held = RecordId::new();
    let data = json(r#"{"text": "hello"}"#);
    i.note_existing("notes", held.as_str(), &content_hash(&data));
    let a = Record::new("notes", data, NOW);
    let b = record("notes", r#"{"text": "other"}"#);
    assert!(!import(&mut i, &record_line(&a)));
    assert!(import(&mut i, &record_line(&b)));
    i.add_edge(EdgeLine {
        kind: "edge".to_string(),
        from: b.id.as_str().to_string(),
        edge_type: "mentions".to_string(),
        to: a.id.as_str().to_string(),
        props: Value::object(),
        created_at: None,
    });
    let edges = i.take_edges();
    assert_eq!(edges.len(), 1);
    let (from, to) = i.edge_ends(&edges[0]).unwrap().unwrap();
    assert!(from.same(&b.id));
    assert!(to.same(&held), "the edge leads to the record that is kept");
    match i.plan_edge(&edges[0], from, to, Some(&vec![])) {
        EdgePlan::Relate { .. } => i.edge_related(&edges[0], true),
        EdgePlan::Done => panic!("a new edge is related"),
    }
    let n = i.embeddable_ids().len();
    let report = i.finish(false, &vec![false; n]).unwrap();
    assert_eq!((report.skipped_dup, report.imported), (1, 1));
    assert_eq!((report.edges_created, report.edges_remapped), (1, 1));
    assert!(matches!(
        report.embeddings,
        Some(EmbeddingVerification::EngineUnavailable { affected: 1 })
    ));
}

#[test]
fn dry_runs_insert_nothing() {
    let mut i = started(true, false);
    let line = record_line(&record("notes", r#"{"text": "hello"}"#));
    assert!(!import(&mut i, &line));
    let n = i.embeddable_ids().len();
    let report = i.finish(true, &vec![false; n]).unwrap();
    assert_eq!(report.imported, 1);
    assert!(matches!(report.embeddings, Some(EmbeddingVerification::SkippedDryRun)));
}

#[test]
fn failures_after_a_write_carry_what_was_written() {
    let i = Importer::new(ImportOptions { dedup: false, dry_run: false });
    assert!(matches!(i.fail(AxilError::Busy), AxilError::Busy));
    let mut j = started(false, false);
    assert!(import(&mut j, &record_line(&record("notes", r#"{"text": "hello"}"#))));
    match j.fail(AxilError::plugin("boom")) {
        AxilError::ImportInterrupted { report, source } => {
            assert_eq!(report.imported, 1);
            assert_eq!(source, "plugin error: boom");
        }
        other => panic!("{}", other.message()),
    }
}

#[test]
fn edges_of_missing_records_are_skipped() {
    let mut i = started(false, false);
    let line = EdgeLine {
        kind: "edge".to_string(),
        from: RecordId::new().as_str().to_string(),
        edge_type: "mentions".to_string(),
        to: RecordId::new().as_str().to_string(),
        props: Value::object(),
        created_at: None,
    };
    assert!(i.edge_ends(&line).unwrap().is_none());
    let report = i.finish(true, &vec![]).unwrap();
    assert_eq!(report.edges_skipped, 1);
}

fn edge_of(from: &Record, to: &Record) -> EdgeLine {
    EdgeLine {
        kind: "edge".to_string(),
        from: from.id.as_str().to_string(),
        edge_type: "mentions".to_string(),
        to: to.id.as_str().to_string(),
        props: Value::object(),
        created_at: None,
    }
}

/// Imports edge lines into a graph that holds edges, or into none.
fn import_edges(i: &mut Importer, lines: &[EdgeLine], graph: Option<Vec<EdgeInfo>>) {
    let mut graph = graph;
    for line in lines {
        let Some((from, to)) = i.edge_ends(line).unwrap() else {
            continue;
        };
        let existing: Option<Vec<EdgeInfo>> = graph.as_ref().map(|g| {
            g.iter()
                .filter(|e| e.from.same(&from) && e.edge_type == line.edge_type)
                .map(info)
                .collect()
        });
        if let EdgePlan::Relate { from, to, props } = i.plan_edge(line, from, to, existing.as_ref()) {
            let held = graph.as_mut().unwrap();
            held.push(EdgeInfo {
                id: RecordId::new(),
                from,
                to,
                edge_type: line.edge_type.clone(),
                properties: props.unwrap_or(Value::Null),
                created_at: String::new(),
            });
            i.edge_related(line, true);
        }
    }
}

fn info(e: &EdgeInfo) -> EdgeInfo {
    EdgeInfo {
        id: e.id.copy(),
        from: e.from.copy(),
        to: e.to.copy(),
        edge_type: e.edge_type.clone(),
        properties: e.properties.copy(),
        created_at: e.created_at.clone(),
    }
}

#[test]
fn dry_runs_refuse_malformed_ids_too() {
    let mut line = record_line(&record("notes", r#"{"text": "hello"}"#));
    line.id = "not-an-id".to_string();
    let hash = content_hash(&line.data);
    for dry in [false, true] {
        for dedup in [false, true] {
            let mut i = started(dry, dedup);
            let r = i.plan_record(&line, &hash, NOW);
            assert!(
                matches!(r, Err(AxilError::InvalidQuery(m)) if m == "invalid record id: not-an-id")
            );
            let n = i.embeddable_ids().len();
            assert_eq!(i.finish(true, &vec![false; n]).unwrap().imported, 0);
        }
    }
    // A line that is skipped is not looked at that closely.
    let mut i = started(true, true);
    i.note_existing("notes", "not-an-id", "other");
    assert!(matches!(i.plan_record(&line, &hash, NOW), Ok(RecordPlan::Done)));
}

#[test]
fn dry_runs_predict_edges() {
    let a = record("notes", r#"{"text": "one"}"#);
    let b = record("notes", r#"{"text": "two"}"#);
    // The same edge twice, and one to a record that is not there.
    let lines = [edge_of(&a, &b), edge_of(&a, &b), edge_of(&a, &record("notes", "{}"))];
    for graph in [false, true] {
        let mut counts = Vec::new();
        for dry in [false, true] {
            let mut i = started(dry, false);
            import(&mut i, &record_line(&a));
            import(&mut i, &record_line(&b));
            import_edges(&mut i, &lines, if graph { Some(vec![]) } else { None });
            let n = i.embeddable_ids().len();
            let r = i.finish(true, &vec![true; n]).unwrap();
            counts.push((r.imported, r.edges_created, r.edges_skipped));
        }
        assert_eq!(counts[0], counts[1]);
        assert_eq!(counts[0], if graph { (2, 1, 2) } else { (2, 0, 3) });
    }
}

#[test]
fn exports_come_back_to_nothing_new() {
    let a = record("notes", r#"{"text": "one"}"#);
    let b = record("notes", r#"{"text": "two"}"#);
    let mut i = started(false, true);
    for r in [&a, &b] {
        i.note_existing("notes", r.id.as_str(), &content_hash(&r.data));
    }
    let edge = EdgeInfo {
        id: RecordId::new(),
        from: a.id.copy(),
        to: b.id.copy(),
        edge_type: "mentions".to_string(),
        properties: Value::object(),
        created_at: String::new(),
    };
    let opts = ExportOptions::default();
    let records = export_records(vec![a.copy(), b.copy()], &opts);
    let edges = export_edges(&records, vec![info(&edge)]);
    for r in &records {
        assert!(!import(&mut i, &record_line(r)));
    }
    let lines: Vec<EdgeLine> = edges.iter().map(edge_line).collect();
    import_edges(&mut i, &lines, Some(vec![edge]));
    let r = i.finish(true, &vec![]).unwrap();
    assert_eq!((r.skipped_id, r.edges_skipped), (2, 1));
    assert_eq!((r.imported, r.overwritten, r.skipped_dup, r.superseded), (0, 0, 0, 0));
    assert_eq!((r.edges_created, r.edges_remapped, r.id_remapped), (0, 0, 0));
}
