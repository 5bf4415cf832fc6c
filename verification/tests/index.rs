use rsk::index::MicrogramIndex;

#[test]
fn from_vec_skips_filesystem() {
    let dir = "/tmp";
    let idx = MicrogramIndex::from_vec(dir, Vec::new());
    assert!(idx.is_empty());
    assert_eq!(idx.dir(), dir);
    assert!(idx.load_errors().is_empty());
}

use rsk::engine::{DecisionNode, DecisionTree};
use rsk::index::LoadError;
use rsk::microgram::Microgram;
use rsk::strmap::StrMap;
use rsk::value::{FieldMap, Value};
use std::sync::Arc;

fn sample() -> Microgram {
    let mut value = FieldMap::new();
    value.insert("answer".to_string(), Value::String("yes".to_string()));
    let mut nodes = StrMap::new();
    nodes.insert("root".to_string(), DecisionNode::Return { value: Value::Object(value) });
    Microgram {
        name: "is-positive".to_string(),
        description: "test".to_string(),
        version: "0.1.0".to_string(),
        tree: DecisionTree { start: "root".to_string(), nodes },
        tests: vec![],
        interface: None,
        primitive_signature: None,
    }
}

#[test]
fn index_load_round_trip() {
    let idx = MicrogramIndex::from_vec("/tmp", vec![sample(), sample()]);
    assert!(idx.len() >= 1);
    assert!(idx.contains("is-positive"));
    assert!(idx.get("is-positive").is_some());
}

#[test]
fn resolve_reports_missing() {
    let idx = MicrogramIndex::from_vec("/tmp", vec![sample()]);
    let err = idx.resolve(&["is-positive", "does-not-exist"]).unwrap_err();
    assert!(err.contains("does-not-exist"));
}

#[test]
fn resolve_preserves_order() {
    let idx = MicrogramIndex::from_vec("/tmp", vec![sample()]);
    let order = idx.resolve(&["is-positive"]).unwrap();
    assert_eq!(order.len(), 1);
    assert_eq!(order[0].name, "is-positive");
}

#[test]
fn get_returns_arc() {
    let idx = MicrogramIndex::from_vec("/tmp", vec![sample()]);
    let a = idx.get("is-positive").unwrap();
    let b = idx.get("is-positive").unwrap();
    assert!(Arc::ptr_eq(&a, &b));
}

#[test]
fn strict_index_reports_load_errors() {
    let errors = vec![LoadError { path: "/tmp/bad.yaml".to_string(), message: "boom".to_string() }];
    let idx = MicrogramIndex::from_loaded("/tmp", vec![sample()], errors);
    assert_eq!(idx.load_errors().len(), 1);
    let err = idx.into_strict().unwrap_err();
    assert!(err.contains("bad.yaml"));
    assert!(err.contains("boom"));
}
