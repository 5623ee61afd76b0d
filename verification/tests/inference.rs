use axil_core::error::Result;
use axil_core::inference::{
    apply_rule_to, builtin_rules, drop_repeats, neighbor_from_edge, InferenceEngine, InferenceRule,
    InferredFact,
};
use axil_core::json::{Number, Value};
use axil_core::plugin::{Capability, Direction, EdgeInfo, Engine, GraphIndex, TraversalStep};
use axil_core::record::{Record, RecordId};
use axil_core::time::Timestamp;

const NOW: Timestamp = Timestamp { secs: 1_760_000_000, nanos: 0 };

fn convert(v: &serde_json::Value) -> Value {
    match v {
        serde_json::Value::Null => Value::Null,
        serde_json::Value::Bool(b) => Value::Bool(*b),
        serde_json::Value::Number(n) => Value::Number(if let Some(u) = n.as_u64() {
            Number::PosInt(u)
        } else if let Some(i) = n.as_i64() {
            Number::NegInt(i)
        } else {
            Number::Float(n.as_f64().unwrap().to_bits())
        }),
        serde_json::Value::String(s) => Value::Text(s.clone()),
        serde_json::Value::Array(a) => Value::Array(a.iter().map(convert).collect()),
        serde_json::Value::Object(o) => {
            Value::Object(o.iter().map(|(k, v)| (k.clone(), convert(v))).collect())
        }
    }
}

fn json(text: &str) -> Value {
    convert(&serde_json::from_str(text).unwrap())
}

fn record(table: &str, data: &str) -> Record {
    Record::new(table, json(data), NOW)
}

fn id(s: &str) -> RecordId {
    RecordId(s.to_string())
}

fn edge(name: &str, from: &str, edge_type: &str, to: &str) -> EdgeInfo {
    EdgeInfo {
        id: id(name),
        from: id(from),
        to: id(to),
        edge_type: edge_type.to_string(),
        properties: Value::object(),
        created_at: String::new(),
    }
}

/// A graph in memory.
struct Edges(Vec<(&'static str, &'static str, &'static str, &'static str)>);

impl Engine for Edges {
    fn name(&self) -> &str {
        "edges"
    }

    fn capabilities(&self) -> Vec<Capability> {
        vec![Capability::GraphTraversal]
    }

    fn on_record_insert(&self, _record: &Record) -> Result<()> {
        Ok(())
    }

    fn on_record_delete(&self, _id: &RecordId) -> Result<()> {
        Ok(())
    }
}

impl GraphIndex for Edges {
    fn relate(&self, _from: RecordId, _t: &str, _to: RecordId, _props: Value) -> Result<RecordId> {
        Ok(RecordId::new())
    }

    fn unrelate(&self, _edge_id: &RecordId) -> Result<bool> {
        Ok(false)
    }

    fn traverse(&self, _start: RecordId, _path: &[TraversalStep]) -> Result<Vec<RecordId>> {
        Ok(vec![])
    }

    fn neighbors(
        &self,
        _id: RecordId,
        _edge_type: Option<&str>,
        _direction: Direction,
    ) -> Result<Vec<RecordId>> {
        Ok(vec![])
    }

    fn edges(
        &self,
        id: RecordId,
        edge_type: Option<&str>,
        direction: Direction,
    ) -> Result<Vec<EdgeInfo>> {
        Ok(self
            .0
            .iter()
            .filter(|(_, from, t, to)| {
                edge_type.map_or(true, |x| x == *t)
                    && match direction {
                        Direction::Out => *from == id.as_str(),
                        Direction::In => *to == id.as_str(),
                        Direction::Both => *from == id.as_str() || *to == id.as_str(),
                    }
            })
            .map(|(n, from, t, to)| edge(n, from, t, to))
            .collect())
    }
}

#[test]
fn builtin_rules_are_valid() {
    let rules = builtin_rules();
    assert_eq!(rules.len(), 3);
    assert!(rules.iter().any(|r| r.name == "transitive_ownership"));
    assert!(rules.iter().any(|r| r.name == "impact_propagation"));
    assert!(rules.iter().any(|r| r.name == "temporal_superseding"));
    for rule in &rules {
        assert!(!rule.pattern.is_empty());
        assert!(!rule.derived_edge.is_empty());
        let confidence = f64::from_bits(rule.confidence);
        assert!(confidence > 0.0 && confidence <= 1.0);
    }
    assert_eq!(rules[0].confidence, (0.8f32 as f64).to_bits());
    assert_eq!(rules[1].confidence, (0.6f32 as f64).to_bits());
    assert_eq!(rules[2].confidence, (0.9f32 as f64).to_bits());
}

#[test]
fn neighbor_from_edge_returns_other() {
    let e = edge("e1", "a", "test", "b");
    assert_eq!(neighbor_from_edge(&e, &id("a")).as_str(), "b");
    assert_eq!(neighbor_from_edge(&e, &id("b")).as_str(), "a");
}

#[test]
fn engine_no_graph_returns_empty() {
    let engine = InferenceEngine::new();
    let facts = engine.infer::<Edges>(None, &vec![id("a")], &vec![]).unwrap();
    assert!(facts.is_empty());
}

#[test]
fn engine_with_custom_rules() {
    let custom = vec![InferenceRule {
        name: "custom".to_string(),
        pattern: vec![
            ("uses".to_string(), Direction::Out),
            ("provides".to_string(), Direction::Out),
        ],
        derived_edge: "benefits_from".to_string(),
        confidence: 0.5f64.to_bits(),
    }];
    let engine = InferenceEngine::with_rules(custom);
    assert_eq!(engine.rules.len(), 4);
    assert_eq!(engine.rules[3].name, "custom");
}

#[test]
fn why_returns_none_for_non_inferred() {
    let r = record("test", r#"{"hello": "world"}"#);
    assert!(InferenceEngine::why(Some(&r)).is_none());
}

#[test]
fn why_returns_reasoning_for_inferred() {
    let r = record(
        "_entities",
        r#"{
            "_inferred": true,
            "_reasoning": ["rule: test", "A -> B", "B -> C"],
            "source": "inferred",
            "fact": "A related C"
        }"#,
    );
    let chain = InferenceEngine::why(Some(&r)).unwrap();
    assert_eq!(chain.len(), 3);
    assert_eq!(chain[0], "rule: test");
}

#[test]
fn why_returns_none_for_missing_record() {
    assert!(InferenceEngine::why(None).is_none());
}

#[test]
fn paths_of_two_edges_give_facts() {
    let graph = Edges(vec![
        ("e1", "ann", "manages", "team"),
        ("e2", "team", "part_of", "firm"),
        ("e3", "team", "part_of", "ann"),
        ("e4", "new", "supersedes", "old"),
    ]);
    let engine = InferenceEngine::new();
    let facts = engine.infer(Some(&graph), &vec![id("ann"), id("new")], &vec![]).unwrap();
    assert_eq!(facts.len(), 2);
    assert_eq!(facts[0].fact, "ann works_in firm (via transitive_ownership through team)");
    assert_eq!(
        facts[0].reasoning,
        vec![
            "rule: transitive_ownership",
            "ann -[manages]-> team",
            "team -[part_of]-> firm",
            "therefore: ann -[works_in]-> firm",
        ]
    );
    assert_eq!((facts[0].from.as_str(), facts[0].to.as_str()), ("ann", "firm"));
    assert_eq!(facts[1].fact, "old is outdated (superseded by new)");
    assert_eq!(facts[1].reasoning[2], "therefore: old is outdated");
    assert_eq!(facts[1].source, "inferred");
}

#[test]
fn rules_without_a_path_give_nothing() {
    let rule = InferenceRule {
        name: "empty".to_string(),
        pattern: vec![],
        derived_edge: "x".to_string(),
        confidence: 0,
    };
    assert!(apply_rule_to(&id("a"), &rule, &vec![], &vec![]).is_empty());
}

fn fact(from: &str, to: &str) -> InferredFact {
    InferredFact {
        fact: String::new(),
        source: "inferred".to_string(),
        reasoning: vec!["rule: r".to_string()],
        confidence: 0.5f64.to_bits(),
        derived_edge: "e".to_string(),
        from: id(from),
        to: id(to),
    }
}

#[test]
fn repeats_are_dropped() {
    let facts = vec![fact("a", "b"), fact("a", "b"), fact("a", "c"), fact("a", "b")];
    let kept: Vec<String> = drop_repeats(facts).iter().map(|f| f.to.as_str().to_string()).collect();
    assert_eq!(kept, vec!["b", "c"]);
}

#[test]
fn an_edge_is_derived_once() {
    let graph = Edges(vec![
        ("e1", "ann", "manages", "red"),
        ("e2", "ann", "manages", "blue"),
        ("e3", "ann", "manages", "green"),
        ("e4", "red", "part_of", "firm"),
        ("e5", "blue", "part_of", "club"),
        ("e6", "green", "part_of", "firm"),
    ]);
    let facts = InferenceEngine::new().infer(Some(&graph), &vec![id("ann")], &vec![]).unwrap();
    let ends: Vec<&str> = facts.iter().map(|f| f.to.as_str()).collect();
    assert_eq!(ends, vec!["firm", "club"]);
    assert!(facts[0].fact.ends_with("through red)"));
}

#[test]
fn rules_ask_for_their_own_edges() {
    let graph = Edges(vec![
        ("e1", "a", "uses", "b"),
        ("e2", "a", "other", "x"),
        ("e3", "b", "provides", "c"),
        ("e4", "b", "uses", "d"),
    ]);
    let rule = InferenceRule {
        name: "r".to_string(),
        pattern: vec![
            ("uses".to_string(), Direction::Out),
            ("provides".to_string(), Direction::Out),
        ],
        derived_edge: "gets".to_string(),
        confidence: 0,
    };
    let facts = InferenceEngine::apply_rule(&graph, &id("a"), &rule).unwrap();
    assert_eq!(facts.len(), 1);
    assert_eq!(facts[0].to.as_str(), "c");
}

#[test]
fn batches_of_edges_are_related_in_order() {
    let graph = Edges(vec![]);
    let edges = vec![
        (id("a"), "e".to_string(), id("b"), Value::object()),
        (id("b"), "e".to_string(), id("c"), Value::object()),
    ];
    assert_eq!(graph.relate_batch(edges).unwrap().len(), 2);
}

#[test]
fn facts_are_stored_unless_their_edge_exists() {
    let f = fact("a", "b");
    assert!(InferenceEngine::infer_and_store(&f, &vec![edge("e", "a", "e", "b")]).is_none());
    let data = InferenceEngine::infer_and_store(&f, &vec![edge("e", "a", "e", "c")]).unwrap();
    assert_eq!(data.get_str("derived_edge"), Some("e"));
    assert!(data.flag("_inferred"));
    let r = Record::new("_entities", data, NOW);
    assert_eq!(InferenceEngine::why(Some(&r)).unwrap(), vec!["rule: r"]);
    let props = InferenceEngine::derived_properties(&f, &r.id);
    assert_eq!(props.get_str("rule"), Some("rule: r"));
    assert_eq!(props.get_str("fact_record"), Some(r.id.as_str()));
}

#[test]
fn facts_are_confirmed_and_rejected() {
    let plain = record("_entities", "{}");
    assert!(InferenceEngine::confirm(Some(&plain)).is_none());
    assert!(InferenceEngine::reject(Some(&plain)).is_none());
    assert!(InferenceEngine::confirm(None).is_none());
    assert!(InferenceEngine::reject(None).is_none());
    let from = RecordId::new();
    let r = record(
        "_entities",
        &format!(r#"{{"_inferred": true, "from": "{}", "derived_edge": "e"}}"#, from.as_str()),
    );
    let data = InferenceEngine::confirm(Some(&r)).unwrap();
    assert_eq!(data.get_str("source"), Some("confirmed"));
    assert!(data.get("confidence").unwrap().same(&json("1.0")));
    let (data, edge_of) = InferenceEngine::reject(Some(&r)).unwrap();
    assert!(data.flag("_rejected"));
    assert_eq!(data.get_str("source"), Some("rejected"));
    let (start, edge_type) = edge_of.unwrap();
    assert!(start.same(&from));
    assert_eq!(edge_type, "e");
    let mut own = edge("mine", "a", "e", "b");
    own.properties.set("fact_record", Value::text(r.id.as_str()));
    let gone = InferenceEngine::edges_of_fact(&vec![edge("other", "a", "e", "c"), own], &r.id);
    assert_eq!(gone.len(), 1);
    assert_eq!(gone[0].as_str(), "mine");
}

#[test]
fn rejected_facts_are_not_inferred_again() {
    let graph = Edges(vec![
        ("e1", "ann", "manages", "team"),
        ("e2", "team", "part_of", "firm"),
        ("e3", "team", "part_of", "club"),
    ]);
    let engine = InferenceEngine::new();
    let facts = engine.infer(Some(&graph), &vec![id("ann")], &vec![]).unwrap();
    assert_eq!(facts.len(), 2);
    let data = InferenceEngine::infer_and_store(&facts[0], &vec![]).unwrap();
    let mut stored = Record::new("_entities", data, NOW);
    let known = vec![stored.copy()];
    assert_eq!(engine.infer(Some(&graph), &vec![id("ann")], &known).unwrap().len(), 2);
    stored.data = InferenceEngine::reject(Some(&stored)).unwrap().0;
    let facts = engine.infer(Some(&graph), &vec![id("ann")], &vec![stored]).unwrap();
    assert_eq!(facts.len(), 1);
    assert_eq!(facts[0].to.as_str(), "club");
}
