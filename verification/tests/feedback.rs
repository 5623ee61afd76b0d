use axil_core::db::Axil;
use axil_core::error::AxilError;
use axil_core::feedback::{FeedbackEntry, FeedbackStore, MAX_FEEDBACK_ENTRIES};
use axil_core::record::RecordId;
use axil_core::time::Timestamp;

const NOW: Timestamp = Timestamp { secs: 1_760_000_000, nanos: 0 };

fn make_embedding(seed: f32) -> Vec<f32> {
    (0..8).map(|i| (seed + i as f32 * 0.1).sin()).collect()
}

fn bits(v: &[f32]) -> Vec<u32> {
    v.iter().map(|f| f.to_bits()).collect()
}

fn cosine_similarity(a: &[f32], b: &[f32]) -> f32 {
    let dot: f32 = a.iter().zip(b).map(|(x, y)| x * y).sum();
    let na: f32 = a.iter().map(|x| x * x).sum::<f32>().sqrt();
    let nb: f32 = b.iter().map(|x| x * x).sum::<f32>().sqrt();
    if na == 0.0 || nb == 0.0 {
        0.0
    } else {
        dot / (na * nb)
    }
}

fn mark(store: &mut FeedbackStore, query: &[f32], id: &RecordId, now: Timestamp) {
    let alike: Vec<bool> = store
        .entries()
        .iter()
        .map(|e| {
            let v: Vec<f32> = e.query_embedding.iter().map(|b| f32::from_bits(*b)).collect();
            cosine_similarity(query, &v) > 0.95
        })
        .collect();
    store.mark_relevant(bits(query), id, &alike, now);
}

#[test]
fn mark_relevant_creates_entry() {
    let mut store = FeedbackStore::new();
    let emb = make_embedding(1.0);
    let rid = RecordId::new();
    mark(&mut store, &emb, &rid, NOW);
    assert_eq!(store.len(), 1);
}

#[test]
fn mark_relevant_increments_count() {
    let mut store = FeedbackStore::new();
    let emb = make_embedding(1.0);
    let rid = RecordId::new();
    mark(&mut store, &emb, &rid, NOW);
    mark(&mut store, &emb, &rid, NOW);
    let entries = store.entries();
    assert_eq!(entries.len(), 1);
    assert_eq!(entries[0].count, 2);
}

#[test]
fn marks_for_other_records_or_queries_are_new_entries() {
    let mut store = FeedbackStore::new();
    let a = RecordId::new();
    let b = RecordId::new();
    mark(&mut store, &make_embedding(1.0), &a, NOW);
    mark(&mut store, &make_embedding(1.0), &b, NOW);
    mark(&mut store, &make_embedding(4.0), &a, NOW);
    assert_eq!(store.len(), 3);
    assert!(store.has_feedback(&a));
    assert!(store.has_feedback(&b));
    assert!(!store.has_feedback(&RecordId::new()));
}

#[test]
fn decay_removes_old_entries() {
    let mut store = FeedbackStore::new();
    let emb = make_embedding(1.0);
    let rid = RecordId::new();
    mark(&mut store, &emb, &rid, NOW);

    let future = Timestamp { secs: NOW.secs + 200 * 86_400, nanos: 0 };
    store.decay(future);
    assert!(store.is_empty());
}

#[test]
fn decay_keeps_entries_for_just_under_150_days() {
    let mut store = FeedbackStore::new();
    mark(&mut store, &make_embedding(1.0), &RecordId::new(), NOW);
    store.decay(Timestamp { secs: NOW.secs + 150 * 86_400 - 1, nanos: 999_999_999 });
    assert_eq!(store.len(), 1);
    store.decay(Timestamp { secs: NOW.secs - 5, nanos: 0 });
    assert_eq!(store.len(), 1);
    store.decay(Timestamp { secs: NOW.secs + 150 * 86_400, nanos: 0 });
    assert_eq!(store.len(), 0);
}

#[test]
fn the_least_recently_used_entry_makes_room() {
    let oldest = RecordId::new();
    let mut entries: Vec<FeedbackEntry> = Vec::new();
    for i in 0..MAX_FEEDBACK_ENTRIES {
        let at = Timestamp { secs: 1000 + i as i64, nanos: 0 };
        entries.push(FeedbackEntry {
            query_embedding: vec![i as u32],
            record_id: if i == 0 { oldest.copy() } else { RecordId::new() },
            count: 1,
            last_used: at,
            created_at: at,
        });
    }
    let mut store = FeedbackStore::from_entries(entries);
    assert!(store.has_feedback(&oldest));
    let newest = RecordId::new();
    let alike = vec![false; store.len()];
    store.mark_relevant(vec![0], &newest, &alike, NOW);
    assert_eq!(store.len(), MAX_FEEDBACK_ENTRIES);
    assert!(!store.has_feedback(&oldest));
    assert!(store.has_feedback(&newest));
}

#[test]
fn feedback_on_a_missing_record_is_refused() {
    let id = RecordId::new();
    assert!(Axil::mark_relevant(&id, true).is_ok());
    match Axil::mark_relevant(&id, false) {
        Err(AxilError::NotFound(m)) => assert_eq!(m, format!("record {}", id.as_str())),
        _ => panic!("a record that is not there takes no feedback"),
    }
}
