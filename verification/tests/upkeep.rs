use axil_core::db::health::{DoctorFacts, GraphFacts, ProblemFacts, TableCount, VectorFacts};
use axil_core::db::log::{
    audit_log, log_limit, slow_query_wanted, AuditFilter, LogKeys, MAX_AUDIT_ENTRIES, SLOW_QUERY_MS,
};
use axil_core::db::repair::{restored, EdgeEnds, HealRun, ScannedRecord};
use axil_core::db::report::ReportFacts;
use axil_core::db::stats::StatsFacts;
use axil_core::db::summary::{recounted, SummaryItem, SummaryStep};
use axil_core::db::Axil;
use axil_core::diagnostics::{
    human_bytes, CheckResult, DoctorReport, IndexStats, Severity,
};
use axil_core::json::{Number, Value};
use axil_core::record::{Record, RecordId};
use axil_core::time::Timestamp;

const NOW: Timestamp = Timestamp { secs: 1_760_000_000, nanos: 0 };

fn convert(v: &serde_json::Value) -> Value {
    match v {
        serde_json::Value::Null => Value::Null,
        serde_json::Value::Bool(b) => Value::Bool(*b),
        serde_json::Value::Number(n) => Value::Number(if let Some(u) = n.as_u64() {
            Number::PosInt(u)
        } else if let Some(i) = n.as_i64() {
            Number::NegInt(i)
        } else {
            Number::Float(n.as_f64().unwrap().to_bits())
        }),
        serde_json::Value::String(s) => Value::Text(s.clone()),
        serde_json::Value::Array(a) => Value::Array(a.iter().map(convert).collect()),
        serde_json::Value::Object(o) => {
            Value::Object(o.iter().map(|(k, v)| (k.clone(), convert(v))).collect())
        }
    }
}

fn json(text: &str) -> Value {
    convert(&serde_json::from_str(text).unwrap())
}

fn record(table: &str, data: &str) -> Record {
    Record::new(table, json(data), NOW)
}

fn full() -> Axil {
    Axil {
        vector_index: true,
        embedder: true,
        graph_index: true,
        timeseries_index: true,
        fts_index: true,
        audit_enabled: true,
    }
}

fn table(name: &str, count: usize) -> TableCount {
    TableCount { name: name.to_string(), count, percent: "100".to_string() }
}

#[test]
fn doctors_look_at_everything() {
    let mut facts = DoctorFacts {
        total: Ok(3),
        tables: vec![table("a", 1), table("b", 2)],
        vector: Some(VectorFacts {
            count: 3,
            deleted: 0,
            dimensions: 4,
            deleted_percent: "0".to_string(),
        }),
        missing_embeddings: 1,
        graph: Some(GraphFacts { edges: 5, orphaned: 2 }),
        timeseries: Some(3),
        missing_fts: Some(0),
        total_size: 2048,
    };
    let report = Axil::doctor(&facts);
    let details: Vec<&str> = report.checks.iter().map(|c| c.detail.as_str()).collect();
    assert_eq!(
        details,
        vec![
            "database file valid, 3 records",
            "3 records verified across 2 tables",
            "3 vectors indexed, dimensions=4; 1 record(s) missing an embedding",
            "2 orphaned edges found (of 5 total)",
            "3 time entries indexed",
            "FTS index present",
            "2.0 KB total, 3 records",
        ]
    );
    assert!(matches!(report.status, Severity::Warning));
    assert_eq!(report.exit_code(), 1);
    facts.total = Err("broken".to_string());
    let report = Axil::doctor(&facts);
    assert_eq!(report.checks[0].detail, "database read error: broken");
    assert!(matches!(report.status, Severity::Error));
    assert_eq!(report.exit_code(), 2);
}

#[test]
fn reports_are_as_bad_as_their_worst_check() {
    let check = |status| CheckResult {
        name: "x".to_string(),
        status,
        detail: String::new(),
        fix: None,
    };
    let mut r = DoctorReport::from_checks(vec![check(Severity::Fine)]);
    assert_eq!(r.exit_code(), 0);
    r.add_check(check(Severity::Warning));
    assert_eq!(r.exit_code(), 1);
    r.add_check(check(Severity::Fine));
    assert_eq!(r.exit_code(), 1);
}

fn sound() -> ProblemFacts {
    ProblemFacts {
        tables: vec![table("a", 5), table("b", 5)],
        total: 10,
        vector: None,
        embedder: false,
        missing_embeddings: 0,
        missing_fts: 0,
        orphaned_edges: 0,
        expired: 0,
        superseded: 0,
        file_size: 1000,
    }
}

#[test]
fn problems_are_found() {
    assert!(Axil::detect_problems_with(&sound()).is_empty());
    let mut facts = sound();
    facts.orphaned_edges = 3;
    facts.missing_fts = 2;
    let found = Axil::detect_problems_with(&facts);
    assert_eq!(found.len(), 2);
    assert!(found.iter().all(|p| p.auto_fixable));
}

#[test]
fn sound_databases_score_a_hundred() {
    let facts = |problems: ProblemFacts| ReportFacts {
        now: NOW,
        problems,
        total_records: 10,
        total_size: 1000,
        table_count: 2,
        edge_count: 0,
        slow_queries: 0,
    };
    let good = Axil::report(&facts(sound()));
    assert_eq!(good.score, 100);
    assert!(good.recommendations.is_empty());
    let mut bad = sound();
    bad.orphaned_edges = 3;
    let worse = Axil::report(&facts(bad));
    assert!(worse.score < 100);
    assert!(!worse.recommendations.is_empty());
}

#[test]
fn compaction_spares_what_is_pinned() {
    let dead = record("notes", r#"{"_superseded": true}"#);
    let pinned = record("notes", r#"{"_superseded": true, "_importance_pinned": true}"#);
    let old = record("notes", r#"{"valid_until": "2020-01-01T00:00:00Z"}"#);
    let live = record("notes", "{}");
    let records = vec![dead, pinned, old, live];
    let plan = Axil::compact(&records, NOW);
    assert_eq!(plan.superseded.len(), 1);
    assert!(plan.superseded[0].same(&records[0].id));
    assert_eq!(plan.expired.len(), 1);
    assert!(plan.expired[0].same(&records[2].id));
    let (expired, superseded) = Axil::count_dead_records(&records, NOW);
    assert_eq!((expired, superseded), (1, 2));
    let report = Axil::compact_report(1, 1, 0, 0, 0, 500, 200);
    assert!(report.compacted);
    assert_eq!(report.freed_estimate_bytes, 300);
}

#[test]
fn orphans_are_found() {
    let a = RecordId::new();
    let gone = RecordId::new();
    let edges = vec![
        EdgeEnds { id: RecordId::new(), from: a.copy(), to: a.copy() },
        EdgeEnds { id: RecordId::new(), from: a.copy(), to: gone.copy() },
    ];
    let found = Axil::orphaned_edges(&edges, &vec![a.copy()]);
    assert_eq!(found.len(), 1);
    assert!(found[0].same(&edges[1].id));
    let entries = Axil::orphaned_entries(&vec![gone.copy(), a.copy()], &vec![a.copy()]);
    assert_eq!(entries.len(), 1);
    assert!(entries[0].same(&gone));
    let scanned = vec![ScannedRecord {
        id: a.copy(),
        table: "notes".to_string(),
        searchable: "long enough".to_string(),
        has_text: true,
    }];
    assert_eq!(full().missing_embeddings(&scanned, &vec![]).len(), 1);
    assert_eq!(full().missing_embeddings(&scanned, &vec![a.copy()]).len(), 0);
    assert_eq!(full().missing_fts(&scanned, &vec![]).len(), 1);
    assert!(!Axil::needs_compaction(0, (0, 0), 1, 1, false));
}

#[test]
fn repairs_are_reported() {
    let done = HealRun::Done {
        compacted: Axil::compact_report(2, 1, 0, 0, 0, 10, 5),
        rebuilt: None,
        reembedded: 3,
        reindexed: 4,
    };
    let report = Axil::heal_all(&done);
    assert!(report.healed);
    assert!(report.actions.iter().any(|a| a.result.starts_with("purged 2 expired, 1 superseded")));
    assert_eq!(restored(3, 4), "restored 3 missing embeddings, 4 missing FTS docs");
    let preview = HealRun::Preview { problems: Axil::detect_problems_with(&sound()) };
    assert!(!Axil::heal_all(&preview).healed);
    let rebuilt = Axil::vector_rebuild_report(10, 8, 2);
    assert_eq!(rebuilt.reason, "deletion_ratio_exceeded");
    assert_eq!(Axil::vector_rebuild_report(8, 8, 0).reason, "manual");
    let report = Axil::heal((1, 2), (3, 4));
    assert_eq!(report.daily_summaries_purged, 4);
}

fn item(table: &str, period: &str) -> SummaryItem {
    SummaryItem {
        id: RecordId::new(),
        table: table.to_string(),
        period: period.to_string(),
        weight: 1,
    }
}

#[test]
fn days_are_summed_up() {
    let items = vec![
        item("notes", "2025-10-01"),
        item("notes", "2025-10-02"),
        item("notes", "2025-10-01"),
    ];
    let plan = Axil::downsample(&items, &vec![], true);
    assert_eq!(plan.created, 2);
    assert_eq!(plan.groups.iter().map(|g| g.total).sum::<u64>(), 3);
    assert!(plan.steps.iter().all(|s| matches!(s, SummaryStep::Create)));
    let rows: Vec<Record> = plan
        .groups
        .iter()
        .map(|g| Record::new("_summaries", g.daily_data(), NOW))
        .collect();
    let stored = Axil::stored_dailies(&rows);
    assert_eq!(stored.len(), 2);
    // Without purging, summing up again changes nothing.
    let again = Axil::downsample(&items, &stored, false);
    assert_eq!(again.created, 0);
    assert!(again.steps.iter().all(|s| matches!(s, SummaryStep::Keep)));
}

#[test]
fn weeks_start_on_mondays() {
    // 2025-10-09 is a Thursday, 2025-10-06 the Monday before.
    let row = record(
        "_summaries",
        r#"{"type": "daily_summary", "table": "notes", "date": "2025-10-09", "count": 2}"#,
    );
    let dailies = Axil::old_dailies(&vec![row], i64::MAX / 4);
    let items = Axil::weekly_items(&dailies);
    assert_eq!(items.len(), 1);
    assert_eq!(items[0].period, "2025-10-06");
    assert_eq!(items[0].weight, 2);
}

#[test]
fn cutoffs_reach_back() {
    let day = 86_400_000_000i64;
    assert_eq!(Axil::retention_cutoff(10 * day, 3), 7 * day);
}

#[test]
fn sizes_are_shown_in_units() {
    assert_eq!(human_bytes(0), "0 B");
    assert_eq!(human_bytes(1536), "1.5 KB");
    assert_eq!(human_bytes(5 * 1_048_576), "5.0 MB");
}

#[test]
fn log_keys_grow() {
    let mut keys = LogKeys::new();
    let a = keys.log_key(NOW);
    let b = keys.log_key(NOW);
    assert_eq!(a, "2025-10-09T08:53:20.000000Z:000000");
    assert!(a < b);
}

#[test]
fn audits_leave_internal_tables_out() {
    let id = RecordId::new();
    let db = full();
    assert!(db.audit("insert", &id, "_x", NOW).is_none());
    let e = db.audit("insert", &id, "notes", NOW).unwrap();
    assert_eq!(e.timestamp, "2025-10-09T08:53:20+00:00");
    assert_eq!(e.record_id, id.as_str());
    let heal = db.audit_heal_action("compact", "done", NOW).unwrap();
    assert_eq!(heal.operation, "heal:compact");
    let bulk = db.audit_inserts(&vec![record("_entities", "{}")], NOW);
    assert_eq!(bulk.len(), 1);
    assert_eq!(bulk[0].table, "_entities");
    let all = vec![e, heal];
    let filter = AuditFilter { after: None, table: Some("notes".to_string()), op: None };
    assert_eq!(audit_log(all, &filter).len(), 1);
    assert_eq!(log_limit(None, MAX_AUDIT_ENTRIES), 10_000);
    assert_eq!(log_limit(Some(3), MAX_AUDIT_ENTRIES), 3);
}

#[test]
fn slow_queries_take_more_than_a_tenth_of_a_second() {
    let slow = |ms: f64| {
        Axil::record_slow_query(SLOW_QUERY_MS, "recall", ms.to_bits(), 1, NOW).is_some()
    };
    assert!(!slow(100.0));
    assert!(slow(100.001));
    assert!(slow(5000.0));
    assert!(!slow(99.999));
    assert!(!slow(0.0));
    assert!(!slow(-3.0));
    assert!(slow_query_wanted("b", Some("a")));
    assert!(!slow_query_wanted("a", Some("a")));
    assert!(slow_query_wanted("a", None));
}

#[test]
fn another_threshold_can_be_set_for_slow_queries() {
    let slow = |threshold: f64, ms: f64| {
        let entry = Axil::record_slow_query(threshold.to_bits(), "recall", ms.to_bits(), 7, NOW);
        assert_eq!(entry.is_some(), ms > threshold);
        if let Some(e) = &entry {
            assert_eq!((e.command.as_str(), e.duration_ms, e.result_count), ("recall", ms.to_bits(), 7));
        }
        entry.is_some()
    };
    assert!(!slow(5.0, 5.0));
    assert!(slow(5.0, 5.5));
    assert!(!slow(5.0, 4.5));
    assert!(!slow(0.0, -0.0));
    assert!(!slow(-0.0, 0.0));
    assert!(!slow(0.0, -1.0));
    assert!(slow(-2.0, -1.0));
    assert!(!slow(-1.0, -2.0));
    assert!(!slow(f64::INFINITY, 1e300));
    assert!(slow(f64::NEG_INFINITY, -1e300));
    assert!(!slow(f64::NAN, 1.0));
    assert!(!slow(100.0, f64::NAN));
}

#[test]
fn statistics_name_the_tables() {
    let facts = StatsFacts {
        path: "m.axil".to_string(),
        total_size: 1536,
        total_records: 3,
        tables: vec![("a".to_string(), 1), ("b".to_string(), 2)],
        indexes: IndexStats {
            vectors: 0,
            vector_dimensions: 0,
            fts_enabled: false,
            edges: 0,
            timeseries_entries: 0,
        },
        created: None,
        last_write: None,
        last_read: None,
    };
    let s = Axil::stats(facts, None);
    assert_eq!(s.database.size_human, "1.5 KB");
    assert_eq!(s.tables.get_u64("b"), Some(2));
    let m = Axil::snapshot_metrics(NOW, 10, (1, 2), 5, 0, 0);
    assert_eq!((m.live_ratio.part, m.live_ratio.whole), (7, 10));
}

#[test]
fn trends_span_their_window() {
    // The newest comes first.
    let stamps = vec![
        "2025-10-09T00:00:00+00:00".to_string(),
        "2025-10-08T00:00:00+00:00".to_string(),
        "2020-01-01T00:00:00+00:00".to_string(),
    ];
    let w = Axil::trends(&stamps, NOW, 7);
    assert_eq!(w.kept, vec![0, 1]);
    assert_eq!(w.ends, Some((1, 0)), "the oldest, then the newest");
    assert_eq!(w.period, "7d");
    assert_eq!(Axil::trend_alert(0.69f64.to_bits()), Some("compact recommended"));
    assert_eq!(Axil::trend_alert(0.7f64.to_bits()), None);
    assert_eq!(Axil::trend_alert(1.0f64.to_bits()), None);
    assert_eq!(Axil::trend_alert((-0.5f64).to_bits()), Some("compact recommended"));
    assert_eq!(Axil::trend_alert(f64::NAN.to_bits()), None);
}

#[test]
fn benches_run_what_is_there() {
    let steps = full().bench(1000, 10);
    assert!(!steps.is_empty());
    assert!(steps.iter().all(|s| s.iterations > 0));
}

#[test]
fn backfills_page_through_tables() {
    assert_eq!(Axil::backfill_next(0, 1000), Some(1000));
    assert_eq!(Axil::backfill_next(1000, 999), None);
    assert_eq!(Axil::backfill_next(1000, 0), None);
}

#[test]
fn purging_keeps_the_counts() {
    let first = vec![item("notes", "2025-10-01"), item("notes", "2025-10-01")];
    let plan = Axil::downsample(&first, &vec![], true);
    assert_eq!(plan.created, 1);
    let rows: Vec<Record> = plan
        .groups
        .iter()
        .map(|g| Record::new("_summaries", g.daily_data(), NOW))
        .collect();
    let stored = Axil::stored_dailies(&rows);
    let more = vec![
        item("notes", "2025-10-01"),
        item("tasks", "2025-10-01"),
        item("notes", "2025-10-01"),
    ];
    let plan = Axil::downsample(&more, &stored, true);
    assert_eq!(plan.created, 1);
    assert_eq!(plan.groups.iter().map(|g| g.ids.len()).sum::<usize>(), 3);
    let mut count = 0;
    for (group, step) in plan.groups.iter().zip(&plan.steps) {
        count += match step {
            SummaryStep::Create => group.total,
            SummaryStep::Update { count, .. } => *count,
            SummaryStep::Keep => 0,
        };
    }
    // Five records were purged in all.
    assert_eq!(count, 5);
}

#[test]
fn accesses_are_noted() {
    let r = record("notes", r#"{"text": "x", "_activation": 0.5}"#);
    let activation = Value::Number(Number::Float(1.25f64.to_bits()));
    let data = Axil::bump_activation(&r, activation, "2025-10-09T08:53:20+00:00");
    assert!(data.same(&json(
        r#"{"text": "x", "_activation": 1.25, "_last_accessed": "2025-10-09T08:53:20+00:00"}"#
    )));
}

#[test]
fn vector_indexes_are_rebuilt_when_it_is_due() {
    let db = full();
    assert_eq!(db.compact_vector_index_if_needed(5, 3, true), Some(3));
    assert_eq!(db.compact_vector_index_if_needed(5, 0, true), Some(0), "nothing is reclaimed");
    assert_eq!(db.compact_vector_index_if_needed(5, 3, false), None);
    assert_eq!(db.compact_vector_index_if_needed(0, 0, true), None);
    let db = Axil { vector_index: false, ..full() };
    assert_eq!(db.compact_vector_index_if_needed(5, 3, true), None);
}

#[test]
fn summaries_of_records_are_found_again() {
    let old = vec![record("notes", "{}"), record("notes", "{}"), record("_summaries", "{}")];
    let items = Axil::daily_items(&old);
    assert_eq!(items.len(), 2, "summaries are not summed up");
    assert!(items.iter().all(|i| i.period == "2025-10-09" && i.weight == 1));
    let plan = Axil::downsample(&items, &vec![], true);
    assert_eq!(plan.created, 1);
    let row = Record::new("_summaries", plan.groups[0].daily_data(), NOW);
    let stored = Axil::stored_dailies(&vec![row.copy()]);
    assert_eq!((stored[0].period.as_str(), stored[0].count), ("2025-10-09", 2));
    let later = Record::new("_summaries", recounted(&row.data, 7), NOW);
    assert_eq!(Axil::stored_dailies(&vec![later])[0].count, 7);
    assert!(Axil::stored_weeklies(&vec![row.copy()]).is_empty());
    // The day can be read back, and belongs to the week of the Monday before.
    let dailies = Axil::old_dailies(&vec![row], 739_533);
    let items = Axil::weekly_items(&dailies);
    assert_eq!((items[0].period.as_str(), items[0].weight), ("2025-10-06", 2));
    let plan = Axil::downsample_weekly(&items, &vec![], true);
    let week = Record::new("_summaries", plan.groups[0].weekly_data(), NOW);
    assert_eq!(Axil::stored_weeklies(&vec![week.copy()])[0].count, 2);
    assert!(Axil::stored_dailies(&vec![week]).is_empty());
}
