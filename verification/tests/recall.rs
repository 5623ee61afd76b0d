use axil_core::db::chunks::{
    chunk_by_chars, flat_chunks, micro_batches, persist_recall_chunk_ids, recall_chunk_ids,
    resolve_recall_candidate, ChunkPlan, Resolution,
};
use axil_core::db::recall::{
    collapse_near_duplicates, completeness_redundancy, completeness_widen_target,
    compute_graph_proximity, fetch_count, hamming, order_by_score, Compressed, DedupConfig, Hit,
    PoolItem, RecallFilter,
};
use axil_core::db::search::{check_space_query, check_space_vector, check_vectors, SpaceStep};
use axil_core::db::Axil;
use axil_core::error::AxilError;
use axil_core::json::{Number, Value};
use axil_core::record::{Record, RecordId};
use axil_core::time::Timestamp;

const NOW: Timestamp = Timestamp { secs: 1_760_000_000, nanos: 0 };

fn convert(v: &serde_json::Value) -> Value {
    match v {
        serde_json::Value::Null => Value::Null,
        serde_json::Value::Bool(b) => Value::Bool(*b),
        serde_json::Value::Number(n) => Value::Number(if let Some(u) = n.as_u64() {
            Number::PosInt(u)
        } else if let Some(i) = n.as_i64() {
            Number::NegInt(i)
        } else {
            Number::Float(n.as_f64().unwrap().to_bits())
        }),
        serde_json::Value::String(s) => Value::Text(s.clone()),
        serde_json::Value::Array(a) => Value::Array(a.iter().map(convert).collect()),
        serde_json::Value::Object(o) => {
            Value::Object(o.iter().map(|(k, v)| (k.clone(), convert(v))).collect())
        }
    }
}

fn json(text: &str) -> Value {
    convert(&serde_json::from_str(text).unwrap())
}

fn record(table: &str, data: &str) -> Record {
    Record::new(table, json(data), NOW)
}

fn bare() -> Axil {
    Axil {
        vector_index: false,
        embedder: false,
        graph_index: false,
        timeseries_index: false,
        fts_index: false,
        audit_enabled: false,
    }
}

fn full() -> Axil {
    Axil {
        vector_index: true,
        embedder: true,
        graph_index: true,
        timeseries_index: true,
        fts_index: true,
        audit_enabled: true,
    }
}

/// A number that orders scores that are not negative.
fn key(score: f32) -> i32 {
    score.to_bits() as i32
}

/// A fingerprint that is the same for texts that differ in case, white space and
/// punctuation only.
fn fingerprint(text: &str) -> u64 {
    let mut hash: u64 = 0xcbf29ce484222325;
    for c in text.chars().filter(|c| c.is_alphanumeric()).flat_map(char::to_lowercase) {
        hash = (hash ^ c as u64).wrapping_mul(0x100000001b3);
    }
    hash ^ (hash >> 29)
}

fn rr(summary: &str, score: f32) -> PoolItem {
    PoolItem {
        id: RecordId::new(),
        score: key(score),
        table: "decisions".to_string(),
        data: Value::object(),
        confidence: key(0.5),
        importance: key(0.5),
        text_len: summary.len(),
        fingerprint: fingerprint(summary),
    }
}

const CFG: DedupConfig = DedupConfig {
    hamming_threshold: 3,
    min_text_len: 24,
};

fn collapse(pool: &Vec<PoolItem>, cfg: DedupConfig) -> Vec<usize> {
    collapse_near_duplicates(pool, &(0..pool.len()).collect(), cfg)
}

#[test]
fn collapse_near_duplicates_keeps_top_scored_representative() {
    let results = vec![
        rr("Use RRF fusion for recall because it is rank-based and robust", 0.9),
        rr("use rrf fusion for recall because it is rank-based and robust", 0.7),
        rr("Use RRF  fusion for recall because it is RANK-based and robust.", 0.6),
        rr("Switched the storage backend to redb for ACID single-file durability", 0.5),
    ];
    let kept = collapse(&results, CFG);
    assert_eq!(kept.len(), 2, "expected near-dups collapsed to 2");
    assert_eq!(results[kept[0]].score, key(0.9));
    assert_eq!(results[kept[1]].score, key(0.5));
}

#[test]
fn collapse_near_duplicates_does_not_cross_tables() {
    let text = "Use RRF fusion for recall because it is rank-based and robust";
    let a = rr(text, 0.9);
    let mut b = rr(text, 0.7);
    b.table = "context".to_string();
    assert_eq!(collapse(&vec![a, b], CFG).len(), 2, "cross-table near-dups must not collapse");
}

#[test]
fn collapse_near_duplicates_preserves_distinct_records() {
    let results = vec![
        rr("Implemented SCIP code-graph ingest via prost protobuf parsing", 0.9),
        rr("Dependency doc memory pins versions from the lockfile closure", 0.8),
        rr("Entity extraction writes canonical_id and scoped aliases", 0.7),
    ];
    assert_eq!(collapse(&results, CFG).len(), 3, "distinct records must not collapse");
}

#[test]
fn collapse_near_duplicates_skips_short_text() {
    let a = vec![rr("same text", 0.9), rr("same text", 0.8)];
    assert_eq!(collapse(&a, CFG).len(), 2, "short text must not be collapsed at default min_len");

    let lenient = DedupConfig { min_text_len: 4, ..CFG };
    let b = vec![rr("same text", 0.9), rr("same text", 0.8)];
    assert_eq!(collapse(&b, lenient).len(), 1);
}

const DUP_LINE: &str = "Use RRF fusion for recall because it is rank-based and robust to outliers";
const DIVERSE_A: &str =
    "df9a1c3e-7b20-4f51-a8e2-0c6d9b1f4e77 E_TIMEOUT_4096 commit b3f7e2a quux::Zephyr<'x>";
const DIVERSE_B: &str =
    "zx81 BBC micro 6502 assembly LDA #$FF STA $D020 raster interrupt vblank NMI handler";

fn ratio(c: &Compressed) -> f64 {
    match c.packed {
        Some(n) if c.size > 0 => n as f64 / c.size as f64,
        _ => 1.0,
    }
}

fn widen(texts: &Vec<String>, top_k: usize, threshold: f64) -> Option<usize> {
    let diverse = match completeness_redundancy(texts, top_k) {
        Some(r) => ratio(&r.pool) - ratio(&r.kept) > threshold,
        None => false,
    };
    completeness_widen_target(texts.len(), top_k, diverse)
}

fn texts(t: &[&str]) -> Vec<String> {
    t.iter().map(|s| s.to_string()).collect()
}

#[test]
fn widen_target_fires_when_diverse_cluster_dropped() {
    let texts = texts(&[DUP_LINE, DUP_LINE, DUP_LINE, DIVERSE_A, DIVERSE_B]);
    let new_k = widen(&texts, 3, 0.15);
    assert!(new_k.is_some(), "kept set far more compressible than pool → expected widen");
    let new_k = new_k.unwrap();
    assert!(new_k > 3, "widened k must exceed top_k (got {new_k})");
    assert!(new_k <= 5, "widen stays bounded by ceil(top_k*1.5) and pool size");
}

#[test]
fn widen_glue_retains_diverse_item_via_record_text() {
    let mut kept = texts(&[DUP_LINE, DUP_LINE, DUP_LINE, DIVERSE_A, DIVERSE_B]);
    let k = widen(&kept, 3, 0.15).unwrap_or(3);
    assert!(k > 3, "expected k to widen past the diverse-cluster cut");
    kept.truncate(k);
    assert!(kept.iter().any(|t| t.contains("E_TIMEOUT_4096")));
}

#[test]
fn widen_target_noop_on_already_diverse_results() {
    let texts = texts(&[
        "Implemented SCIP code-graph ingest via prost protobuf parsing and edge emission",
        "Dependency doc memory pins versions from the resolved lockfile closure on disk",
        "Entity extraction writes a canonical id alongside scoped per-language aliases",
        "Session checkpoint records replace the free-text session summary pattern entirely",
    ]);
    assert_eq!(widen(&texts, 3, 0.15), None, "already-diverse top-k must not widen");
}

#[test]
fn widen_target_noop_when_no_extra_candidates() {
    let texts = texts(&[DUP_LINE, DUP_LINE]);
    assert_eq!(widen(&texts, 3, 0.15), None);
    assert_eq!(widen(&texts, 2, 0.15), None);
}

#[test]
fn widen_target_noop_on_short_kept_text() {
    let texts = texts(&[
        "a a a",
        "a a a",
        "a a a",
        "completely distinct longer diverse content sitting just past the cut",
    ]);
    assert_eq!(widen(&texts, 3, 0.15), None);
    assert!(completeness_redundancy(&texts, 3).is_none());
}

#[test]
fn compressed_texts_shrink() {
    let texts = texts(&[DUP_LINE, DUP_LINE, DUP_LINE, DUP_LINE]);
    let r = completeness_redundancy(&texts, 3).unwrap();
    assert_eq!(r.pool.size, 4 * DUP_LINE.len() + 3);
    assert!(r.pool.packed.unwrap() < DUP_LINE.len() * 2);
    assert!(r.kept.packed.unwrap() > 0);
}

#[test]
fn chunk_by_chars_short_text_single_chunk() {
    let chunks = chunk_by_chars("short", 100, 50);
    assert_eq!(chunks, vec!["short".to_string()]);
}

#[test]
fn chunk_by_chars_long_text_overlapping() {
    let text = "a".repeat(250);
    let chunks = chunk_by_chars(&text, 100, 75);
    assert_eq!(chunks.len(), 3);
    assert_eq!(chunks[0].len(), 100);
    assert_eq!(chunks[1].len(), 100);
    assert_eq!(chunks[2].len(), 100);
}

#[test]
fn chunk_by_chars_respects_utf8_boundaries() {
    let text = "ab🦀cd🦀ef🦀gh".repeat(10);
    let chunks = chunk_by_chars(&text, 15, 10);
    assert!(!chunks.is_empty());
    for chunk in &chunks {
        assert!(chunk.chars().count() > 0);
    }
}

#[test]
fn chunk_by_chars_empty_or_zero_max() {
    assert!(chunk_by_chars("", 100, 50).is_empty());
    assert!(chunk_by_chars("hello", 0, 10).is_empty());
}

#[test]
fn chunks_count_characters() {
    assert_eq!(chunk_by_chars("🦀🦀🦀", 4, 4), vec!["🦀🦀🦀".to_string()]);
    assert_eq!(chunk_by_chars("🦀b🦀", 2, 2), vec!["🦀b".to_string(), "🦀".to_string()]);
}

#[test]
fn chunk_ids_are_read_back() {
    let source = record("notes", r#"{"text": "x"}"#);
    let ids = vec![RecordId::new(), RecordId::new()];
    let stored = persist_recall_chunk_ids(&source, &ids);
    let back = recall_chunk_ids(&stored);
    assert_eq!(back.len(), 2);
    assert!(back[0].same(&ids[0]) && back[1].same(&ids[1]));
    assert!(recall_chunk_ids(&source).is_empty());
}

#[test]
fn chunks_lead_to_their_source() {
    let source = record("notes", r#"{"text": "x"}"#);
    assert!(matches!(resolve_recall_candidate(&source), Resolution::Itself));
    let parts = vec!["first part".to_string(), "second part".to_string()];
    let plans = full().batch_sync_recall_chunks(&vec![source.copy()], &vec![parts]);
    assert!(matches!(plans[0], ChunkPlan::Split(_)));
    let chunks = flat_chunks(&plans);
    assert_eq!(chunks.len(), 2);
    match resolve_recall_candidate(&chunks[0]) {
        Resolution::Source(id) => assert!(id.same(&source.id)),
        _ => panic!("a chunk leads to its source"),
    }
    assert_eq!(micro_batches(70, 32), vec![(0, 32), (32, 64), (64, 70)]);
}

/// A filter that every result passes.
fn every() -> RecallFilter {
    RecallFilter { scopes: vec![], min_confidence: None, min_importance: None }
}

#[test]
fn results_are_cut() {
    let pool = vec![rr("a", 0.2), rr("b", 0.9), rr("c", 0.9), rr("d", 0.5)];
    assert_eq!(Axil::recall_with_feedback(&pool, &every(), None, 2, None), vec![1, 2]);
    assert_eq!(Axil::recall_with_feedback(&pool, &every(), None, 2, Some(3)), vec![1, 2, 3]);
    assert!(Axil::recall_with_feedback(&pool, &every(), None, 0, None).is_empty());
    assert!(Axil::recall_with_feedback(&vec![], &every(), None, 5, None).is_empty());
    assert!(Axil::recall_candidates(&vec![], &vec![], 5).is_empty());
}

#[test]
fn results_pass_the_filter() {
    let mut pool = vec![rr("a", 0.9), rr("b", 0.8), rr("c", 0.7), rr("d", 0.6)];
    pool[0].data = json(r#"{"_scope": "global"}"#);
    pool[2].confidence = key(0.2);
    pool[3].importance = key(0.1);
    let f = RecallFilter {
        scopes: vec!["project".to_string()],
        min_confidence: Some(key(0.4)),
        min_importance: None,
    };
    // A record that names no scope is the project's.
    assert_eq!(Axil::recall_with_feedback(&pool, &f, None, 4, None), vec![1, 3]);
    let f = RecallFilter { min_importance: Some(key(0.5)), ..f };
    assert_eq!(Axil::recall_with_feedback(&pool, &f, None, 4, None), vec![1]);
}

#[test]
fn repetitions_leave_room_for_others() {
    let text = "Chose redb as the storage backend";
    let pool = vec![rr(text, 0.9), rr(text, 0.8), rr("Axum serves the requests of the web", 0.7)];
    assert_eq!(Axil::recall_with_feedback(&pool, &every(), Some(CFG), 2, None), vec![0, 2]);
    assert_eq!(Axil::recall_with_feedback(&pool, &every(), None, 2, None), vec![0, 1]);
}

#[test]
fn results_come_best_first() {
    let pool = vec![rr("a", 0.2), rr("b", 0.9), rr("c", 0.9), rr("d", 0.5)];
    assert_eq!(order_by_score(&pool), vec![1, 2, 3, 0]);
    assert_eq!(Axil::recall_order(&pool, &every(), None), vec![1, 2, 3, 0]);
    assert_eq!(Axil::recall_with_feedback(&pool, &every(), None, 9, None), vec![1, 2, 3, 0]);
    assert_eq!(hamming(0b1011, 0b0110), 3);
}

#[test]
fn candidates_keep_their_best_hits() {
    let a = RecordId::new();
    let b = RecordId::new();
    let hit = |id: &RecordId, score: f32| Hit { source: Some(id.copy()), score: key(score) };
    let vector = vec![hit(&a, 0.9), hit(&b, 0.8), hit(&a, 0.7)];
    let fts = vec![hit(&b, 2.0), Hit { source: None, score: key(1.5) }];
    let c = Axil::recall_candidates(&vector, &fts, 5);
    assert_eq!(c.len(), 2);
    let at = |id: &RecordId| c.iter().find(|x| x.id.same(id)).unwrap();
    assert_eq!(at(&a).vector_score, key(0.9));
    assert_eq!(at(&a).vector_ranks, vec![0, 2]);
    assert_eq!(at(&b).fts_score, key(2.0));
    assert!(fetch_count(5) >= 5);
    let resolved = Axil::resolve_scored(&vector);
    assert_eq!(resolved.len(), 2);
    assert!(resolved[0].id.same(&a));
    assert_eq!(resolved[0].rank, 0);
}

#[test]
fn filters_take_what_is_asked_for() {
    let f = RecallFilter {
        scopes: vec![],
        min_confidence: Some(key(0.5)),
        min_importance: None,
    };
    assert!(f.takes(&json("{}"), key(0.5), key(0.0)));
    assert!(!f.takes(&json("{}"), key(0.4), key(1.0)));
}

#[test]
fn proximity_counts_other_candidates() {
    let ids: Vec<RecordId> = (0..3).map(|_| RecordId::new()).collect();
    let copies = |v: &[usize]| v.iter().map(|i| ids[*i].copy()).collect::<Vec<_>>();
    let reached = vec![copies(&[1, 1, 0]), copies(&[]), copies(&[0, 1])];
    let p = compute_graph_proximity(&copies(&[0, 1, 2]), &reached);
    let pair = |i: usize| p[i].map(|r| (r.part, r.whole));
    assert_eq!(pair(0), Some((1, 3)));
    assert_eq!(pair(1), None);
    assert_eq!(pair(2), Some((2, 3)));
}

#[test]
fn no_vector_index_returns_error() {
    let db = bare();
    let r = record("test", r#"{"text": "hello"}"#);
    assert!(db.embed_field(&r.id, Some(&r), "text").is_err());
    assert!(db.require_vector_index().is_err());
}

#[test]
fn engines_that_are_missing_are_named() {
    let db = bare();
    for e in [
        db.require_vector_index(),
        db.require_embedder(),
        db.require_graph_index(),
        db.require_timeseries_index(),
        db.require_fts_index(),
    ] {
        assert!(matches!(e, Err(AxilError::Plugin(_))));
    }
    let r = record("test", r#"{"text": "hello", "n": 1}"#);
    let db = full();
    assert_eq!(db.embed_field(&r.id, Some(&r), "text").unwrap(), "hello");
    assert!(db.embed_field(&r.id, Some(&r), "n").is_err());
    assert!(matches!(db.embed_field(&r.id, None, "text"), Err(AxilError::NotFound(_))));
    assert!(db.relate(&r.id, true, &r.id, true).is_ok());
    assert!(matches!(db.relate(&r.id, true, &r.id, false), Err(AxilError::NotFound(_))));
    assert!(bare().relate(&r.id, true, &r.id, true).is_err());
}

#[test]
fn vectors_of_another_size_are_refused() {
    assert!(check_vectors(3, 3).is_ok());
    assert!(check_vectors(2, 3).is_err());
    assert!(check_space_vector("s", 4, 4).is_ok());
    assert!(check_space_query("s", 4, 4).is_ok());
    match check_space_query("s", 4, 5) {
        Err(AxilError::Plugin(m)) => assert_eq!(
            m,
            "dimension mismatch: vector space 's' holds 4-dimensional vectors, but the query has 5"
        ),
        _ => panic!("another dimension is refused"),
    }
    assert!(check_space_vector("s", 4, 5).is_err());
}

#[test]
fn spaces_are_opened_by_valid_names() {
    assert_eq!(Axil::open_or_create_space("a-1_b", true, false).unwrap(), SpaceStep::Open);
    assert_eq!(Axil::open_or_create_space("a", false, true).unwrap(), SpaceStep::Make);
    assert!(matches!(
        Axil::open_or_create_space("a", false, false),
        Err(AxilError::Plugin(_))
    ));
    assert!(matches!(
        Axil::open_or_create_space("Bad Name", true, true),
        Err(AxilError::InvalidQuery(_))
    ));
    assert!(Axil::open_or_create_space(&"x".repeat(33), true, true).is_err());
}
