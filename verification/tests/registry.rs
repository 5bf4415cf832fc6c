use rsk::chain_loop::LoopHalt;
use rsk::chain_registry::{
    default_max_iterations, default_micrograms_dir, default_version, quoted_list_of, test_chains, test_processes,
    ChainDefinition, ChainTestCase, ProcessDefinition, ProcessTestCase,
};
use rsk::engine::{DecisionNode, DecisionTree, Operator};
use rsk::microgram::{InterfaceField, Microgram, MicrogramInterface, MicrogramTest};
use rsk::strmap::StrMap;
use rsk::value::{FieldMap, Value};

fn fm(pairs: Vec<(&str, Value)>) -> FieldMap {
    let mut m = FieldMap::new();
    for (k, v) in pairs {
        m.insert(k.to_string(), v);
    }
    m
}

fn s(x: &str) -> Value {
    Value::String(x.to_string())
}

fn f(x: f64) -> Value {
    Value::Float(x.to_bits())
}

fn cond(var: &str, op: Operator, value: Value, t: &str, e: &str) -> DecisionNode {
    DecisionNode::Condition {
        variable: var.to_string(),
        operator: op,
        value: Some(value),
        true_next: t.to_string(),
        false_next: e.to_string(),
    }
}

fn ret(pairs: Vec<(&str, Value)>) -> DecisionNode {
    DecisionNode::Return { value: Value::Object(fm(pairs)) }
}

fn tree(start: &str, nodes: Vec<(&str, DecisionNode)>) -> DecisionTree {
    let mut m = StrMap::new();
    for (k, n) in nodes {
        m.insert(k.to_string(), n);
    }
    DecisionTree { start: start.to_string(), nodes: m }
}

fn mg(name: &str, description: &str, t: DecisionTree, tests: Vec<(FieldMap, FieldMap)>) -> Microgram {
    Microgram {
        name: name.to_string(),
        description: description.to_string(),
        version: "0.1.0".to_string(),
        tree: t,
        tests: tests.into_iter().map(|(input, expect)| MicrogramTest { input, expect }).collect(),
        interface: None,
        primitive_signature: None,
    }
}

fn fields(list: Vec<(&str, &str, bool)>) -> StrMap<InterfaceField> {
    let mut m = StrMap::new();
    for (k, t, r) in list {
        m.insert(k.to_string(), InterfaceField { field_type: t.to_string(), required: r });
    }
    m
}

fn iface(inputs: Vec<(&str, &str, bool)>, outputs: Vec<(&str, &str, bool)>, aliases: Vec<(&str, &str)>) -> MicrogramInterface {
    let mut a = StrMap::new();
    for (k, v) in aliases {
        a.insert(k.to_string(), v.to_string());
    }
    MicrogramInterface { inputs: fields(inputs), outputs: fields(outputs), aliases: a }
}

fn is_positive() -> Microgram {
    mg(
        "is-positive",
        "Check if a number is positive",
        tree(
            "check",
            vec![
                ("check", cond("n", Operator::Gt, Value::Int(0), "yes", "no")),
                ("yes", ret(vec![("positive", Value::Bool(true))])),
                ("no", ret(vec![("positive", Value::Bool(false))])),
            ],
        ),
        vec![
            (fm(vec![("n", Value::Int(5))]), fm(vec![("positive", Value::Bool(true))])),
            (fm(vec![("n", Value::Int(-3))]), fm(vec![("positive", Value::Bool(false))])),
            (fm(vec![("n", Value::Int(0))]), fm(vec![("positive", Value::Bool(false))])),
        ],
    )
}

fn threshold_gate() -> Microgram {
    mg(
        "threshold-gate",
        "Pass/fail gate",
        tree(
            "check",
            vec![
                ("check", cond("value", Operator::Gte, Value::Int(80), "pass", "fail")),
                ("pass", ret(vec![("gate", s("PASS")), ("score", Value::Int(100))])),
                ("fail", ret(vec![("gate", s("FAIL")), ("score", Value::Int(0))])),
            ],
        ),
        vec![(fm(vec![("value", Value::Int(90))]), fm(vec![("gate", s("PASS"))]))],
    )
}

fn score_label() -> Microgram {
    mg(
        "score-label",
        "Label a score",
        tree(
            "check",
            vec![
                ("check", cond("score", Operator::Gte, Value::Int(50), "high", "low")),
                ("high", ret(vec![("label", s("HIGH"))])),
                ("low", ret(vec![("label", s("LOW"))])),
            ],
        ),
        vec![
            (fm(vec![("score", Value::Int(100))]), fm(vec![("label", s("HIGH"))])),
            (fm(vec![("score", Value::Int(0))]), fm(vec![("label", s("LOW"))])),
        ],
    )
}

fn typed_gate() -> Microgram {
    let mut m = mg(
        "typed-gate",
        "Gate with full interface",
        tree(
            "check",
            vec![
                ("check", cond("score", Operator::Gte, Value::Int(70), "pass", "fail")),
                ("pass", ret(vec![("passed", Value::Bool(true)), ("grade", s("PASS"))])),
                ("fail", ret(vec![("passed", Value::Bool(false)), ("grade", s("FAIL"))])),
            ],
        ),
        vec![
            (fm(vec![("score", Value::Int(85))]), fm(vec![("passed", Value::Bool(true)), ("grade", s("PASS"))])),
            (fm(vec![("score", Value::Int(50))]), fm(vec![("passed", Value::Bool(false)), ("grade", s("FAIL"))])),
        ],
    );
    m.interface = Some(iface(
        vec![("score", "float", true), ("label", "string", false)],
        vec![("passed", "bool", true), ("grade", "string", true)],
        vec![],
    ));
    m
}

fn chain_def(steps: Vec<&str>, tests: Vec<ChainTestCase>, accumulate: bool) -> ChainDefinition {
    ChainDefinition {
        name: "gate-then-label".to_string(),
        description: String::new(),
        version: default_version(),
        micrograms_dir: default_micrograms_dir(),
        steps: steps.into_iter().map(|x| x.to_string()).collect(),
        tests,
        accumulate,
    }
}

fn case(name: &str, input: FieldMap, expect: FieldMap, paths: Vec<Vec<&str>>) -> ChainTestCase {
    ChainTestCase {
        name: name.to_string(),
        input,
        expect,
        expect_paths: paths.into_iter().map(|p| p.into_iter().map(|x| x.to_string()).collect()).collect(),
    }
}

#[test]
fn defaults_of_definitions() {
    assert_eq!(default_version(), "0.1.0");
    assert_eq!(default_micrograms_dir(), "../micrograms");
    assert_eq!(default_max_iterations(), 10);
}

#[test]
fn chain_test_passes_and_fails_by_field() {
    let def = chain_def(
        vec!["threshold-gate", "score-label"],
        vec![
            case("high", fm(vec![("value", Value::Int(90))]), fm(vec![("label", s("HIGH"))]), vec![]),
            case("wrong", fm(vec![("value", Value::Int(50))]), fm(vec![("label", s("HIGH"))]), vec![]),
            case("absent", fm(vec![("value", Value::Int(90))]), fm(vec![("grade", s("A"))]), vec![]),
        ],
        false,
    );
    let all = vec![score_label(), threshold_gate()];
    let r = def.test(&all);
    assert_eq!(r.chain_name, "gate-then-label");
    assert_eq!(r.total, 3);
    assert_eq!(r.passed, 1);
    assert_eq!(r.failed, 2);
    assert!(r.results[0].passed);
    assert_eq!(r.results[0].actual.get("label"), Some(&s("HIGH")));
    assert_eq!(
        r.results[1].mismatch.as_deref(),
        Some("label: expected String(\"HIGH\"), got String(\"LOW\")")
    );
    assert_eq!(r.results[2].mismatch.as_deref(), Some("grade: expected String(\"A\"), not in output"));
    assert!(r.signature_validation.is_none());
}

#[test]
fn chain_test_checks_decision_paths() {
    let def = chain_def(
        vec!["threshold-gate", "score-label"],
        vec![
            case("paths-ok", fm(vec![("value", Value::Int(90))]), FieldMap::new(), vec![vec!["check", "pass"], vec!["check", "high"]]),
            case("path-wrong", fm(vec![("value", Value::Int(90))]), FieldMap::new(), vec![vec!["check", "fail"]]),
        ],
        false,
    );
    let r = def.test(&[threshold_gate(), score_label()]);
    assert!(r.results[0].passed);
    assert!(!r.results[1].passed);
    assert_eq!(
        r.results[1].mismatch.as_deref(),
        Some("path[0] (threshold-gate): expected [\"check\", \"fail\"], got [\"check\", \"pass\"]")
    );
}

#[test]
fn chain_test_with_missing_steps_fails_every_case() {
    let def = chain_def(
        vec!["threshold-gate", "nope", "score-label", "gone"],
        vec![case("a", fm(vec![("value", Value::Int(90))]), FieldMap::new(), vec![]), case("b", FieldMap::new(), FieldMap::new(), vec![])],
        false,
    );
    let r = def.test(&[threshold_gate(), score_label()]);
    assert_eq!(r.passed, 0);
    assert_eq!(r.failed, 2);
    for res in &r.results {
        assert!(!res.passed);
        assert!(res.actual.is_empty());
        assert_eq!(res.mismatch.as_deref(), Some("Missing micrograms: [\"nope\", \"gone\"]"));
    }
}

#[test]
fn chain_test_in_accumulate_mode_keeps_fields() {
    let def = chain_def(
        vec!["threshold-gate", "score-label"],
        vec![case("acc", fm(vec![("value", Value::Int(90))]), fm(vec![("gate", s("PASS")), ("label", s("HIGH"))]), vec![])],
        true,
    );
    let r = def.test(&[threshold_gate(), score_label()]);
    assert_eq!(r.passed, 1);
}

#[test]
fn test_chains_adds_signature_validation() {
    let def = chain_def(vec!["threshold-gate", "score-label"], vec![], false);
    let missing = chain_def(vec!["absent"], vec![], false);
    let results = test_chains(&[(def, vec![threshold_gate(), score_label()]), (missing, vec![threshold_gate()])]);
    assert_eq!(results.len(), 2);
    let v = results[0].signature_validation.as_ref().unwrap();
    assert_eq!(v.chain_name, "gate-then-label");
    assert_eq!(v.signature_sequence, vec!["?", "?"]);
    assert!(results[1].signature_validation.is_none());
}

#[test]
fn quoted_list_renders_like_debug() {
    let v = vec!["a".to_string(), "b\"c".to_string()];
    assert_eq!(quoted_list_of(&v), format!("{:?}", v));
    assert_eq!(quoted_list_of(&Vec::new()), "[]");
}

#[test]
fn resolve_mcg_dir_joins_with_file_directory() {
    let def = chain_def(vec![], vec![], false);
    assert_eq!(def.resolve_mcg_dir("/tmp/chains/x.yaml"), "/tmp/chains/../micrograms");
}

#[test]
fn resolve_mcg_dir_absolute_dir_replaces_base() {
    let mut def = chain_def(vec![], vec![], false);
    def.micrograms_dir = "/opt/mcg".to_string();
    assert_eq!(def.resolve_mcg_dir("/tmp/chains/x.yaml"), "/opt/mcg");
    assert!(def.resolve_mcg_dir("x.yaml").ends_with("/opt/mcg"));
}

// ───────────────────────── processes ─────────────────────────

fn counter() -> Microgram {
    // count < 3 → continue, else halt
    mg(
        "counter",
        "",
        tree(
            "check",
            vec![
                ("check", cond("count", Operator::Lt, Value::Int(3), "more", "stop")),
                ("more", ret(vec![("count", Value::Int(3)), ("loop_action", s("CONTINUE"))])),
                ("stop", ret(vec![("loop_action", s("HALT"))])),
            ],
        ),
        vec![],
    )
}

fn process(steps: Vec<&str>, governor: Option<&str>, tests: Vec<ProcessTestCase>) -> ProcessDefinition {
    ProcessDefinition {
        name: "proc".to_string(),
        description: String::new(),
        version: default_version(),
        micrograms_dir: default_micrograms_dir(),
        steps: steps.into_iter().map(|x| x.to_string()).collect(),
        accumulate: true,
        max_iterations: default_max_iterations(),
        detect_convergence: true,
        halt_field: None,
        halt_value: None,
        governor: governor.map(|g| g.to_string()),
        trajectory: true,
        primitive_signature: None,
        tests,
    }
}

fn pcase(name: &str, input: FieldMap, expect: FieldMap, iters: Option<usize>, halt: Option<&str>) -> ProcessTestCase {
    ProcessTestCase { name: name.to_string(), input, expect, expect_iterations: iters, expect_halt: halt.map(|h| h.to_string()) }
}

#[test]
fn process_run_reports_missing_step() {
    let p = process(vec!["counter", "ghost"], None, vec![]);
    let err = p.run(&[counter()], FieldMap::new()).unwrap_err();
    assert_eq!(err, "Microgram 'ghost' not found");
}

#[test]
fn process_with_governor_halts_on_halt_value() {
    let p = process(vec![], Some("counter"), vec![]);
    let r = p.run(&[counter()], fm(vec![("count", Value::Int(0))])).unwrap();
    assert!(r.success);
    assert_eq!(r.iterations, 2);
    match &r.halt_reason {
        LoopHalt::HaltCondition { field, value } => {
            assert_eq!(field, "loop_action");
            assert_eq!(value, &s("HALT"));
        },
        other => panic!("unexpected halt {:?}", other),
    }
}

#[test]
fn process_tests_check_state_iterations_and_halt() {
    let p = process(
        vec![],
        Some("counter"),
        vec![
            pcase("ok", fm(vec![("count", Value::Int(0))]), fm(vec![("loop_action", s("HALT"))]), Some(2), Some("HaltCondition")),
            pcase("iters", fm(vec![("count", Value::Int(0))]), FieldMap::new(), Some(5), None),
            pcase("halt", fm(vec![("count", Value::Int(0))]), FieldMap::new(), None, Some("Convergence")),
        ],
    );
    let r = p.test(&[counter()]);
    assert_eq!(r.process_name, "proc");
    assert_eq!(r.total, 3);
    assert_eq!(r.passed, 1);
    assert_eq!(r.results[0].halt_reason, "HaltCondition(loop_action)");
    assert_eq!(r.results[0].iterations, 2);
    assert_eq!(r.results[1].mismatch.as_deref(), Some("iterations: expected 5, got 2"));
    assert_eq!(r.results[2].mismatch.as_deref(), Some("halt_reason: expected Convergence, got HaltCondition"));
}

#[test]
fn process_test_with_missing_step_is_load_error() {
    let p = process(vec!["ghost"], None, vec![pcase("x", FieldMap::new(), FieldMap::new(), None, None)]);
    let results = test_processes(&[(p, vec![counter()])]);
    assert_eq!(results.len(), 1);
    let r = &results[0].results[0];
    assert!(!r.passed);
    assert_eq!(r.halt_reason, "LoadError");
    assert_eq!(r.iterations, 0);
    assert_eq!(r.mismatch.as_deref(), Some("Microgram 'ghost' not found"));
}
