use axil_core::prefetch::{
    embedding_hash, hour_distance, mode, PrefetchEngine, QueryCluster, QueryPattern, MAX_QUERY_LOG,
    MIN_PATTERN_COUNT,
};
use axil_core::record::RecordId;
use axil_core::time::Timestamp;

const NOW: Timestamp = Timestamp { secs: 1_760_000_000, nanos: 0 };

fn make_embedding(seed: f32) -> Vec<f32> {
    (0..8).map(|i| (seed + i as f32 * 0.1).sin()).collect()
}

fn bits(v: &[f32]) -> Vec<u32> {
    v.iter().map(|f| f.to_bits()).collect()
}

fn floats(v: &[u32]) -> Vec<f32> {
    v.iter().map(|b| f32::from_bits(*b)).collect()
}

fn cosine_similarity(a: &[f32], b: &[f32]) -> f32 {
    let dot: f32 = a.iter().zip(b).map(|(x, y)| x * y).sum();
    let na: f32 = a.iter().map(|x| x * x).sum::<f32>().sqrt();
    let nb: f32 = b.iter().map(|x| x * x).sum::<f32>().sqrt();
    dot / (na * nb)
}

fn log(engine: &mut PrefetchEngine, embedding: &[f32], results: usize) {
    engine.log_query(bits(embedding), results, NOW);
}

fn centroid(engine: &PrefetchEngine, c: &QueryCluster) -> Vec<f32> {
    let members: Vec<Vec<f32>> =
        c.entries.iter().map(|i| floats(&engine.query_log()[*i].embedding)).collect();
    (0..members[0].len())
        .map(|d| members.iter().map(|m| m[d]).sum::<f32>() / members.len() as f32)
        .collect()
}

fn detect(engine: &mut PrefetchEngine) -> Vec<QueryPattern> {
    let mut clusters: Vec<QueryCluster> = Vec::new();
    for i in 0..engine.query_log_size() {
        let query = floats(&engine.query_log()[i].embedding);
        let alike: Vec<bool> = clusters
            .iter()
            .map(|c| cosine_similarity(&query, &centroid(engine, c)) > 0.85)
            .collect();
        engine.cluster_query(&mut clusters, i, &alike);
    }
    let centroids: Vec<Vec<u32>> = clusters.iter().map(|c| bits(&centroid(engine, c))).collect();
    engine.detect_patterns(&clusters, &centroids)
}

fn cached(engine: &PrefetchEngine, query: &[f32]) -> Option<Vec<RecordId>> {
    let alike: Vec<bool> = engine
        .patterns()
        .iter()
        .map(|p| cosine_similarity(query, &floats(&p.embedding)) > 0.90)
        .collect();
    engine.get_cached(&alike)
}

#[test]
fn log_query_stores_entry() {
    let mut engine = PrefetchEngine::new();
    log(&mut engine, &make_embedding(1.0), 5);
    assert_eq!(engine.query_log_size(), 1);
}

#[test]
fn log_query_enforces_max() {
    let mut engine = PrefetchEngine::new();
    let emb = make_embedding(1.0);
    for _ in 0..MAX_QUERY_LOG + 100 {
        log(&mut engine, &emb, 5);
    }
    assert_eq!(engine.query_log_size(), MAX_QUERY_LOG);
}

#[test]
fn the_oldest_queries_leave_the_log() {
    let mut engine = PrefetchEngine::new();
    for i in 0..MAX_QUERY_LOG + 2 {
        engine.log_query(vec![], i, NOW);
    }
    assert_eq!(engine.query_log()[0].result_count, 2);
}

#[test]
fn logged_queries_know_their_hour_and_day() {
    let mut engine = PrefetchEngine::new();
    // 2025-10-09 is a Thursday; 08:53:20.
    engine.log_query(vec![], 1, NOW);
    assert_eq!(engine.query_log()[0].hour_of_day, 8);
    assert_eq!(engine.query_log()[0].day_of_week, 3);
    // 1969-12-31 is a Wednesday; 23:59:59.
    engine.log_query(vec![], 1, Timestamp { secs: -1, nanos: 0 });
    assert_eq!(engine.query_log()[1].hour_of_day, 23);
    assert_eq!(engine.query_log()[1].day_of_week, 2);
}

#[test]
fn detect_patterns_empty_log() {
    let mut engine = PrefetchEngine::new();
    assert!(detect(&mut engine).is_empty());
}

#[test]
fn detect_patterns_finds_recurring() {
    let mut engine = PrefetchEngine::new();
    let emb = make_embedding(1.0);
    for _ in 0..5 {
        log(&mut engine, &emb, 5);
    }
    let patterns = detect(&mut engine);
    assert!(!patterns.is_empty());
    assert!(patterns[0].occurrence_count >= MIN_PATTERN_COUNT);
    assert_eq!(patterns[0].day_of_week, Some(3));
    assert_eq!(patterns[0].hour_of_day, 8);
    assert_eq!(patterns[0].last_seen, NOW);
}

#[test]
fn queries_on_different_days_are_daily() {
    let mut engine = PrefetchEngine::new();
    let emb = make_embedding(1.0);
    for day in 0..5 {
        engine.log_query(bits(&emb), 5, Timestamp { secs: NOW.secs + day * 86_400, nanos: 0 });
    }
    let patterns = detect(&mut engine);
    assert_eq!(patterns.len(), 1);
    assert_eq!(patterns[0].day_of_week, None);
}

#[test]
fn queries_at_other_hours_are_apart() {
    let mut engine = PrefetchEngine::new();
    let emb = make_embedding(1.0);
    for hour in [0, 0, 0, 6, 6, 6] {
        engine.log_query(bits(&emb), 5, Timestamp { secs: NOW.secs + hour * 3600, nanos: 0 });
    }
    assert_eq!(detect(&mut engine).len(), 2);
}

#[test]
fn cache_and_retrieve() {
    let mut engine = PrefetchEngine::new();
    let emb = make_embedding(1.0);
    for _ in 0..5 {
        log(&mut engine, &emb, 5);
    }
    let patterns = detect(&mut engine);
    assert!(!patterns.is_empty());

    let ids = vec![RecordId::new(), RecordId::new()];
    engine.cache_results(patterns[0].embedding.clone(), ids, NOW);

    let found = cached(&engine, &emb);
    assert!(found.is_some());
    assert_eq!(found.unwrap().len(), 2);
}

#[test]
fn invalidate_clears_cache() {
    let mut engine = PrefetchEngine::new();
    let emb = make_embedding(1.0);
    for _ in 0..5 {
        log(&mut engine, &emb, 5);
    }
    let patterns = detect(&mut engine);
    engine.cache_results(patterns[0].embedding.clone(), vec![RecordId::new()], NOW);
    assert!(cached(&engine, &emb).is_some());

    engine.invalidate_caches();
    assert!(cached(&engine, &emb).is_none());

    engine.cache_results(patterns[0].embedding.clone(), vec![], NOW);
    assert_eq!(cached(&engine, &emb).map(|v| v.len()), Some(0));
}

#[test]
fn hour_distance_wraps() {
    assert_eq!(hour_distance(23, 1), 2);
    assert_eq!(hour_distance(1, 23), 2);
    assert_eq!(hour_distance(10, 14), 4);
}

#[test]
fn modes_are_most_common() {
    assert_eq!(mode(&vec![]), 0);
    assert_eq!(mode(&vec![4, 2, 4, 1]), 4);
    let tied = mode(&vec![1, 2, 2, 1]);
    assert!(tied == 1 || tied == 2);
}

#[test]
fn keys_mix_the_first_sixteen_numbers() {
    assert_eq!(embedding_hash(&vec![]), 0xcbf29ce484222325);
    let one = 1.0f32.to_bits();
    let expected = (0xcbf29ce484222325u64 ^ one as u64).wrapping_mul(0x100000001b3);
    assert_eq!(embedding_hash(&vec![one]), expected);
    let mut long: Vec<u32> = (0..16).collect();
    let key = embedding_hash(&long);
    long.push(99);
    assert_eq!(embedding_hash(&long), key);
    long[15] = 7;
    assert_ne!(embedding_hash(&long), key);
}

#[test]
fn engines_start_with_nothing() {
    let engine = PrefetchEngine::default();
    assert_eq!(engine.query_log_size(), 0);
    assert!(engine.patterns().is_empty());
    assert!(cached(&engine, &make_embedding(1.0)).is_none());
}

#[test]
fn each_query_is_in_exactly_one_cluster() {
    let mut engine = PrefetchEngine::new();
    for hour in [0, 1, 6, 7, 12, 0, 6] {
        let secs = NOW.secs + hour * 3600;
        engine.log_query(bits(&make_embedding(1.0)), 5, Timestamp { secs, nanos: 0 });
    }
    // Whichever clusters a query is like.
    for pattern in 0..8usize {
        let mut clusters: Vec<QueryCluster> = Vec::new();
        for i in 0..engine.query_log_size() {
            let alike = (0..clusters.len()).map(|k| (pattern >> (k % 3)) & 1 == 1).collect();
            engine.cluster_query(&mut clusters, i, &alike);
        }
        let mut all: Vec<usize> = clusters.iter().flat_map(|c| c.entries.clone()).collect();
        all.sort();
        assert_eq!(all, (0..engine.query_log_size()).collect::<Vec<_>>());
    }
}
