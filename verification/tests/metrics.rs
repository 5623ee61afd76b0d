use axil_core::metrics::{Metrics, OpType};

#[test]
fn counters_increment() {
    let mut m = Metrics::new();
    assert_eq!(m.counter(OpType::Insert), 0);
    m.inc(OpType::Insert);
    m.inc(OpType::Insert);
    assert_eq!(m.counter(OpType::Insert), 2);
}

#[test]
fn latency_recording() {
    let mut m = Metrics::new();
    m.record_latency(OpType::Get, 1.0f64.to_bits());
    m.record_latency(OpType::Get, 2.0f64.to_bits());
    m.record_latency(OpType::Get, 3.0f64.to_bits());

    let snap = m.snapshot();
    let (_, lat) = snap.latencies.iter().find(|(name, _)| *name == "gets").unwrap();
    let p50 = f64::from_bits(lat.p50);
    assert!(p50 >= 1.0 && p50 <= 3.0);
    assert_eq!(p50, 2.0);
    assert_eq!(f64::from_bits(lat.p99), 3.0);
}

#[test]
fn finished_operations_are_counted() {
    let mut m = Metrics::new();
    m.finish(OpType::Insert, 1.25f64.to_bits(), 1_760_000_000_000_000);
    assert_eq!(m.counter(OpType::Insert), 1);
    let snap = m.snapshot();
    assert_eq!(snap.last_write_at.as_deref(), Some("2025-10-09T08:53:20+00:00"));
    assert_eq!(snap.last_read_at, None);
}

#[test]
fn snapshot_is_complete() {
    let mut m = Metrics::new();
    m.inc(OpType::Insert);
    m.inc(OpType::Get);
    let snap = m.snapshot();
    let of = |name: &str| snap.counters.iter().find(|(n, _)| *n == name).unwrap().1;
    assert_eq!(of("inserts_total"), 1);
    assert_eq!(of("gets_total"), 1);
    assert_eq!(of("deletes_total"), 0);
}

#[test]
fn old_samples_make_room() {
    let mut m = Metrics::new();
    for i in 0..2500u32 {
        m.record_latency(OpType::Recall, f64::from(i).to_bits());
    }
    let snap = m.snapshot();
    let (_, lat) = snap.latencies.iter().find(|(name, _)| name.contains("recall")).unwrap();
    assert!(f64::from_bits(lat.p50) > 1000.0);
    assert!(f64::from_bits(lat.p50) <= f64::from_bits(lat.p95));
    assert!(f64::from_bits(lat.p95) <= f64::from_bits(lat.p99));
}

#[test]
fn latencies_are_ordered_as_numbers() {
    let mut m = Metrics::new();
    for x in [3.0f64, -1.0, 2.0, -5.0, 0.0] {
        m.record_latency(OpType::Get, x.to_bits());
    }
    let snap = m.snapshot();
    let (_, lat) = snap.latencies.iter().find(|(name, _)| *name == "gets").unwrap();
    assert_eq!(f64::from_bits(lat.p50), 0.0);
    assert_eq!(f64::from_bits(lat.p95), 3.0);
    assert_eq!(f64::from_bits(lat.p99), 3.0);
}
