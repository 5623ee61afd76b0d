use std::sync::atomic::{AtomicUsize, Ordering};

use axil_core::error::{AxilError, Result};
use axil_core::json::Value;
use axil_core::plugin::{
    parse_path, Capability, Direction, EdgeInfo, Engine, GraphIndex, TraversalStep, MAX_DEPTH,
    MAX_EDGE_TYPE_LEN, MAX_PATH_BYTES,
};
use axil_core::record::{Record, RecordId};

#[test]
fn parse_single_outgoing() {
    let steps = parse_path("->modified").unwrap();
    assert_eq!(steps.len(), 1);
    assert_eq!(steps[0].edge_type, "modified");
    assert_eq!(steps[0].direction, Direction::Out);
}

#[test]
fn parse_multi_hop() {
    let steps = parse_path("->modified->file").unwrap();
    assert_eq!(steps.len(), 2);
    assert_eq!(steps[0].edge_type, "modified");
    assert_eq!(steps[1].edge_type, "file");
}

#[test]
fn parse_incoming() {
    let steps = parse_path("<-authored").unwrap();
    assert_eq!(steps.len(), 1);
    assert_eq!(steps[0].direction, Direction::In);
}

#[test]
fn parse_both_direction() {
    let steps = parse_path("<->related").unwrap();
    assert_eq!(steps.len(), 1);
    assert_eq!(steps[0].edge_type, "related");
    assert_eq!(steps[0].direction, Direction::Both);
}

#[test]
fn parse_bidirectional_after_outgoing() {
    let steps = parse_path("->author<->mentions").unwrap();
    assert_eq!(steps.len(), 2);
    assert_eq!(steps[0].edge_type, "author");
    assert_eq!(steps[0].direction, Direction::Out);
    assert_eq!(steps[1].edge_type, "mentions");
    assert_eq!(steps[1].direction, Direction::Both);
}

#[test]
fn parse_mixed_directions() {
    let steps = parse_path("->modified<-authored").unwrap();
    assert_eq!(steps.len(), 2);
    assert_eq!(steps[0].direction, Direction::Out);
    assert_eq!(steps[1].direction, Direction::In);
}

#[test]
fn parse_hyphenated_edge_type() {
    let steps = parse_path("->depends-on->blocks").unwrap();
    assert_eq!(steps.len(), 2);
    assert_eq!(steps[0].edge_type, "depends-on");
    assert_eq!(steps[1].edge_type, "blocks");
}

#[test]
fn parse_empty_fails() {
    assert!(parse_path("").is_err());
}

#[test]
fn parse_no_arrow_fails() {
    assert!(parse_path("modified").is_err());
}

#[test]
fn parse_empty_edge_type_fails() {
    assert!(parse_path("->").is_err());
}

#[test]
fn parse_at_max_depth() {
    let path = "->x".repeat(MAX_DEPTH);
    let steps = parse_path(&path).unwrap();
    assert_eq!(steps.len(), MAX_DEPTH);
}

#[test]
fn parse_exceeds_max_depth() {
    let path = "->x".repeat(MAX_DEPTH + 1);
    assert!(parse_path(&path).is_err());
}

#[test]
fn parse_exceeds_max_path_bytes() {
    let long_type = "a".repeat(MAX_PATH_BYTES);
    let path = format!("->{long_type}");
    assert!(parse_path(&path).is_err());
}

#[test]
fn parse_exceeds_max_edge_type_len() {
    let long_type = "a".repeat(MAX_EDGE_TYPE_LEN + 1);
    let path = format!("->{long_type}");
    assert!(parse_path(&path).is_err());
}

/// A graph that counts the edges it makes, and refuses those of one type.
struct Counting(AtomicUsize);

impl Engine for Counting {
    fn name(&self) -> &str {
        "counting"
    }

    fn capabilities(&self) -> Vec<Capability> {
        vec![Capability::GraphTraversal]
    }

    fn on_record_insert(&self, _record: &Record) -> Result<()> {
        Ok(())
    }

    fn on_record_delete(&self, _id: &RecordId) -> Result<()> {
        Ok(())
    }
}

impl GraphIndex for Counting {
    fn relate(&self, from: RecordId, t: &str, to: RecordId, _props: Value) -> Result<RecordId> {
        if t == "refused" {
            return Err(AxilError::plugin("refused"));
        }
        self.0.fetch_add(1, Ordering::SeqCst);
        Ok(RecordId(format!("{}-{}-{}", from.as_str(), t, to.as_str())))
    }

    fn unrelate(&self, _edge_id: &RecordId) -> Result<bool> {
        Ok(false)
    }

    fn traverse(&self, _start: RecordId, _path: &[TraversalStep]) -> Result<Vec<RecordId>> {
        Ok(vec![])
    }

    fn neighbors(
        &self,
        _id: RecordId,
        _edge_type: Option<&str>,
        _direction: Direction,
    ) -> Result<Vec<RecordId>> {
        Ok(vec![])
    }

    fn edges(
        &self,
        _id: RecordId,
        _edge_type: Option<&str>,
        _direction: Direction,
    ) -> Result<Vec<EdgeInfo>> {
        Ok(vec![])
    }
}

fn batch(types: &[&str]) -> Vec<(RecordId, String, RecordId, Value)> {
    let id = |s: &str| RecordId(s.to_string());
    types.iter().map(|t| (id("a"), t.to_string(), id("b"), Value::Null)).collect()
}

#[test]
fn batches_stop_at_the_first_edge_that_fails() {
    let graph = Counting(AtomicUsize::new(0));
    let ids = graph.relate_batch(batch(&["x", "y"])).unwrap();
    let ids: Vec<&str> = ids.iter().map(|i| i.as_str()).collect();
    assert_eq!(ids, vec!["a-x-b", "a-y-b"]);
    let graph = Counting(AtomicUsize::new(0));
    let r = graph.relate_batch(batch(&["x", "y", "refused", "z"]));
    assert!(matches!(r, Err(AxilError::Plugin(m)) if m == "refused"));
    assert_eq!(graph.0.load(Ordering::SeqCst), 2, "the edges before it were made");
}
