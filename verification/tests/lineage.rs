use axil_core::json::{Number, Value};
use axil_core::lineage::{select_fields, walk, LineageDirection, LineageWalk};
use axil_core::plugin::{Direction, EdgeInfo};
use axil_core::record::{Record, RecordId};
use axil_core::time::Timestamp;

const NOW: Timestamp = Timestamp { secs: 1_760_000_000, nanos: 0 };

fn convert(v: &serde_json::Value) -> Value {
    match v {
        serde_json::Value::Null => Value::Null,
        serde_json::Value::Bool(b) => Value::Bool(*b),
        serde_json::Value::Number(n) => Value::Number(if let Some(u) = n.as_u64() {
            Number::PosInt(u)
        } else if let Some(i) = n.as_i64() {
            Number::NegInt(i)
        } else {
            Number::Float(n.as_f64().unwrap().to_bits())
        }),
        serde_json::Value::String(s) => Value::Text(s.clone()),
        serde_json::Value::Array(a) => Value::Array(a.iter().map(convert).collect()),
        serde_json::Value::Object(o) => {
            Value::Object(o.iter().map(|(k, v)| (k.clone(), convert(v))).collect())
        }
    }
}

fn json(text: &str) -> Value {
    convert(&serde_json::from_str(text).unwrap())
}

fn record(table: &str, data: &str) -> Record {
    Record::new(table, json(data), NOW)
}

fn edge(from: &RecordId, to: &RecordId) -> EdgeInfo {
    EdgeInfo {
        id: RecordId::new(),
        from: from.copy(),
        to: to.copy(),
        edge_type: "derived_from".to_string(),
        properties: Value::object(),
        created_at: String::new(),
    }
}

fn copy_edge(e: &EdgeInfo) -> EdgeInfo {
    EdgeInfo {
        id: e.id.copy(),
        from: e.from.copy(),
        to: e.to.copy(),
        edge_type: e.edge_type.clone(),
        properties: e.properties.copy(),
        created_at: e.created_at.clone(),
    }
}

fn run(
    root: &RecordId,
    direction: LineageDirection,
    depth: usize,
    records: &[Record],
    edges: &[EdgeInfo],
) -> Vec<(usize, String)> {
    let mut w = LineageWalk::new(root, direction, depth);
    while let Some(id) = w.next() {
        let record = records.iter().find(|r| r.id.same(&id));
        let outgoing: Vec<EdgeInfo> =
            edges.iter().filter(|e| e.from.same(&id)).map(copy_edge).collect();
        let incoming: Vec<EdgeInfo> =
            edges.iter().filter(|e| e.to.same(&id)).map(copy_edge).collect();
        w.visit(record, None, &outgoing, &incoming);
    }
    (0..w.len()).map(|i| (w.hop(i).0.depth, w.hop(i).0.id.as_str().to_string())).collect()
}

#[test]
fn directions_are_parsed() {
    assert_eq!(LineageDirection::parse(" Ancestors "), Ok(LineageDirection::Ancestors));
    assert_eq!(LineageDirection::parse("descendant"), Ok(LineageDirection::Descendants));
    assert_eq!(LineageDirection::parse("BOTH"), Ok(LineageDirection::Both));
    assert_eq!(
        LineageDirection::parse("Sideways"),
        Err("invalid direction 'sideways' (ancestors | descendants | both)".to_string())
    );
    for d in [LineageDirection::Ancestors, LineageDirection::Descendants, LineageDirection::Both] {
        assert_eq!(LineageDirection::parse(d.as_str()), Ok(d));
    }
    assert_eq!(
        LineageDirection::Both.edge_dirs(),
        vec![(Direction::Out, true), (Direction::In, false)]
    );
}

#[test]
fn walks_meet_each_record_once() {
    let r: Vec<Record> = (0..4).map(|i| record("t", &format!(r#"{{"n": {i}}}"#))).collect();
    // A cycle of three with a tail.
    let edges = vec![
        edge(&r[0].id, &r[1].id),
        edge(&r[1].id, &r[2].id),
        edge(&r[2].id, &r[0].id),
        edge(&r[2].id, &r[3].id),
    ];
    let names = |v: Vec<(usize, String)>| v.into_iter().map(|x| x.1).collect::<Vec<_>>();
    let id = |i: usize| r[i].id.as_str().to_string();
    let hops = run(&r[0].id, LineageDirection::Ancestors, 10, &r, &edges);
    assert_eq!(hops.iter().map(|h| h.0).collect::<Vec<_>>(), vec![0, 1, 2, 3]);
    assert_eq!(names(hops), vec![id(0), id(1), id(2), id(3)]);
    let back = run(&r[0].id, LineageDirection::Descendants, 10, &r, &edges);
    assert_eq!(names(back), vec![id(0), id(2), id(1)]);
    let both = run(&r[0].id, LineageDirection::Both, 1, &r, &edges);
    assert_eq!(names(both), vec![id(0), id(1), id(2)]);
    let none = run(&r[0].id, LineageDirection::Ancestors, 0, &r, &edges);
    assert_eq!(names(none), vec![id(0)]);
}

#[test]
fn walks_show_each_record_at_its_shortest_distance() {
    let r: Vec<Record> = (0..5).map(|i| record("t", &format!(r#"{{"n": {i}}}"#))).collect();
    // A long way round to the third record, and a short one that comes later.
    let edges = vec![
        edge(&r[0].id, &r[1].id),
        edge(&r[1].id, &r[2].id),
        edge(&r[2].id, &r[3].id),
        edge(&r[0].id, &r[3].id),
        edge(&r[3].id, &r[4].id),
    ];
    let far = |depth: usize| {
        let hops = run(&r[0].id, LineageDirection::Ancestors, depth, &r, &edges);
        let of = |i: usize| hops.iter().find(|h| h.1 == r[i].id.as_str()).map(|h| h.0);
        (0..5).map(of).collect::<Vec<_>>()
    };
    assert_eq!(far(9), vec![Some(0), Some(1), Some(2), Some(1), Some(2)]);
    assert_eq!(far(1), vec![Some(0), Some(1), None, Some(1), None]);
    assert_eq!(far(0), vec![Some(0), None, None, None, None]);
}

#[test]
fn walks_stop_at_missing_records() {
    let a = record("t", "{}");
    let gone = RecordId::new();
    let far = record("t", "{}");
    let edges = vec![edge(&a.id, &gone), edge(&gone, &far.id)];
    let root = a.id.copy();
    let hops = run(&root, LineageDirection::Ancestors, 5, &[a, far], &edges);
    assert_eq!(hops.len(), 2);
}

#[test]
fn hops_are_shown() {
    let a = record("notes", r#"{"n": 1, "s": "x"}"#);
    let gone = RecordId::new();
    let mut e = edge(&a.id, &gone);
    e.properties.set("why", Value::text("because"));
    let edge_id = e.id.as_str().to_string();
    let mut w = LineageWalk::new(&a.id, LineageDirection::Ancestors, 3);
    let keys = vec!["n".to_string(), "absent".to_string()];
    w.visit(Some(&a), Some(&keys), &vec![e], &vec![]);
    assert!(w.next().unwrap().same(&gone));
    w.visit(None, Some(&keys), &vec![], &vec![]);
    assert!(w.next().is_none());
    let first = w.show(0, Value::object());
    assert!(first.same(&json(&format!(
        r#"{{"depth": 0, "id": "{}", "table": "notes", "fields": {{"n": 1}}, "edge": null, "delta": {{}}}}"#,
        a.id.as_str()
    ))));
    let second = w.show(1, Value::object());
    assert!(second.same(&json(&format!(
        r#"{{"depth": 1, "id": "{}", "missing": true, "edge": {{"edge_id": "{edge_id}", "props": {{"why": "because"}}}}}}"#,
        gone.as_str()
    ))));
    let all = walk(&a.id, "derived_from", LineageDirection::Ancestors, vec![first, second]);
    assert_eq!(all.get_str("direction"), Some("ancestors"));
    assert_eq!(all.get_str("edge_type"), Some("derived_from"));
}

#[test]
fn fields_are_selected() {
    let data = json(r#"{"a": 1, "b": "x"}"#);
    assert!(select_fields(&data, None).same(&data));
    assert!(select_fields(&data, Some(&vec!["b".to_string()])).same(&json(r#"{"b": "x"}"#)));
    assert!(select_fields(&json("[1]"), None).is_empty_object());
}
