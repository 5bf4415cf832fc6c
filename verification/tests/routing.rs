use rsk::routing::{fuzzy_skill_lookup, RoutingEngine, RoutingStrategy, SkillCapability};
use rsk::routing_match::split_query;

#[test]
fn test_fuzzy_skill_lookup() {
    let skills = vec!["proceed".to_string(), "process".to_string(), "validate".to_string()];

    let results = fuzzy_skill_lookup(&skills, "procede", 3);
    assert!(!results.is_empty());
    assert_eq!(results[0].0, "proceed");
}

#[test]
fn test_strategy_from_str() {
    assert_eq!(RoutingStrategy::from_str("adjacency"), Some(RoutingStrategy::Adjacency));
    assert_eq!(RoutingStrategy::from_str("HYBRID"), Some(RoutingStrategy::Hybrid));
    assert_eq!(RoutingStrategy::from_str("invalid"), None);
}

#[test]
fn fuzzy_lookup_ranks_by_distance_and_limits() {
    let skills = vec!["validate".to_string(), "proceed".to_string(), "process".to_string()];
    let results = fuzzy_skill_lookup(&skills, "procede", 2);
    assert_eq!(results.len(), 2);
    assert_eq!(results[0], ("proceed".to_string(), 2));
    assert_eq!(results[1].0, "process");
    assert!(results[0].1 <= results[1].1);
}

#[test]
fn strategy_aliases() {
    assert_eq!(RoutingStrategy::from_str("graph"), Some(RoutingStrategy::Adjacency));
    assert_eq!(RoutingStrategy::from_str("Cap"), Some(RoutingStrategy::Capability));
}

fn strs(v: &[&str]) -> Vec<String> {
    v.iter().map(|x| x.to_string()).collect()
}

fn create_test_engine() -> RoutingEngine {
    let mut engine = RoutingEngine::new();
    engine.add_capability(SkillCapability {
        name: "proceed".to_string(),
        triggers: strs(&["proceed", "execute", "run tasks"]),
        handles: strs(&["task execution", "DAG processing"]),
        keywords: strs(&["execution", "dag", "tasks"]),
        category: "orchestration".to_string(),
    });
    engine.add_capability(SkillCapability {
        name: "skill-validator".to_string(),
        triggers: strs(&["validate", "check skill"]),
        handles: strs(&["skill validation", "compliance checking"]),
        keywords: strs(&["validate", "compliance", "check"]),
        category: "validation".to_string(),
    });
    engine.add_capability(SkillCapability {
        name: "topological-sort".to_string(),
        triggers: strs(&["topsort", "sort dependencies"]),
        handles: strs(&["graph sorting", "dependency ordering"]),
        keywords: strs(&["graph", "sort", "dependencies"]),
        category: "algorithms".to_string(),
    });
    engine.build_semantic_index();
    engine
}

#[test]
fn capability_matches_exact_trigger() {
    let engine = create_test_engine();
    let m = engine.capability_matches("I want to validate my skill");
    assert_eq!(m.len(), 1);
    assert_eq!(m[0].name, "skill-validator");
    assert_eq!((m[0].triggers, m[0].handles, m[0].keywords), (1, 0, 1));
    assert_eq!(m[0].matched, strs(&["trigger: validate", "keyword: validate"]));
}

#[test]
fn capability_matches_ignore_case() {
    let engine = create_test_engine();
    let m = engine.capability_matches("Please EXECUTE the dag processing");
    assert_eq!(m.len(), 1);
    assert_eq!(m[0].name, "proceed");
    assert_eq!(m[0].matched, strs(&["trigger: execute", "handles: DAG processing", "keyword: dag"]));
}

#[test]
fn capability_matches_none_for_empty_query() {
    let engine = create_test_engine();
    assert!(engine.capability_matches("").is_empty());
    assert!(engine.capability_matches("completely unrelated query about cooking").is_empty());
}

#[test]
fn query_words_split_on_non_alphanumerics() {
    assert_eq!(split_query("help me with compliance-checking!"), strs(&["help", "with", "compliance", "checking"]));
    assert_eq!(split_query("a bb ccc"), strs(&["ccc"]));
    assert!(split_query("").is_empty());
}

#[test]
fn semantic_hits_exact_and_near() {
    let engine = create_test_engine();
    let hits = engine.semantic_hits("help me with compliance checking");
    assert!(hits.iter().any(|h| h.skill == "skill-validator" && h.word == "compliance" && h.indexed.is_none()));
    let hits = engine.semantic_hits("Graphs");
    assert_eq!(hits.len(), 1);
    assert_eq!(hits[0].skill, "topological-sort");
    assert_eq!(hits[0].word, "Graphs");
    assert_eq!(hits[0].indexed.as_deref(), Some("graph"));
    assert_eq!((hits[0].distance, hits[0].longest), (1, 6));
}

#[test]
fn semantic_hits_none_for_short_words() {
    let engine = create_test_engine();
    assert!(engine.semantic_hits("do it").is_empty());
}
