use rsk::chain::{apply_aliases, chain, chain_accumulate};
use rsk::chain_checks::chain_validate_all;
use rsk::chain_loop::chain_verify_paths;
use rsk::chain_validation::chain_validated;
use rsk::compare::diff;
use rsk::engine::{DecisionNode, DecisionTree, Operator};
use rsk::explore::{evolve_fits, evolve_tests, shrink};
use rsk::hygiene::check_chain_hygiene;
use rsk::microgram::{InterfaceField, Microgram, MicrogramInterface, MicrogramTest};
use rsk::mutate::{clone_mutated, merge};
use rsk::pipe::{filter_results, map_field, pipe, reduce_count};
use rsk::strmap::StrMap;
use rsk::value::{FieldMap, Value};

fn fm(pairs: Vec<(&str, Value)>) -> FieldMap {
    let mut m = FieldMap::new();
    for (k, v) in pairs {
        m.insert(k.to_string(), v);
    }
    m
}

fn s(x: &str) -> Value {
    Value::String(x.to_string())
}

fn f(x: f64) -> Value {
    Value::Float(x.to_bits())
}

fn cond(var: &str, op: Operator, value: Value, t: &str, e: &str) -> DecisionNode {
    DecisionNode::Condition {
        variable: var.to_string(),
        operator: op,
        value: Some(value),
        true_next: t.to_string(),
        false_next: e.to_string(),
    }
}

fn ret(pairs: Vec<(&str, Value)>) -> DecisionNode {
    DecisionNode::Return { value: Value::Object(fm(pairs)) }
}

fn tree(start: &str, nodes: Vec<(&str, DecisionNode)>) -> DecisionTree {
    let mut m = StrMap::new();
    for (k, n) in nodes {
        m.insert(k.to_string(), n);
    }
    DecisionTree { start: start.to_string(), nodes: m }
}

fn mg(name: &str, description: &str, t: DecisionTree, tests: Vec<(FieldMap, FieldMap)>) -> Microgram {
    Microgram {
        name: name.to_string(),
        description: description.to_string(),
        version: "0.1.0".to_string(),
        tree: t,
        tests: tests.into_iter().map(|(input, expect)| MicrogramTest { input, expect }).collect(),
        interface: None,
        primitive_signature: None,
    }
}

fn fields(list: Vec<(&str, &str, bool)>) -> StrMap<InterfaceField> {
    let mut m = StrMap::new();
    for (k, t, r) in list {
        m.insert(k.to_string(), InterfaceField { field_type: t.to_string(), required: r });
    }
    m
}

fn iface(inputs: Vec<(&str, &str, bool)>, outputs: Vec<(&str, &str, bool)>, aliases: Vec<(&str, &str)>) -> MicrogramInterface {
    let mut a = StrMap::new();
    for (k, v) in aliases {
        a.insert(k.to_string(), v.to_string());
    }
    MicrogramInterface { inputs: fields(inputs), outputs: fields(outputs), aliases: a }
}

fn is_positive() -> Microgram {
    mg(
        "is-positive",
        "Check if a number is positive",
        tree(
            "check",
            vec![
                ("check", cond("n", Operator::Gt, Value::Int(0), "yes", "no")),
                ("yes", ret(vec![("positive", Value::Bool(true))])),
                ("no", ret(vec![("positive", Value::Bool(false))])),
            ],
        ),
        vec![
            (fm(vec![("n", Value::Int(5))]), fm(vec![("positive", Value::Bool(true))])),
            (fm(vec![("n", Value::Int(-3))]), fm(vec![("positive", Value::Bool(false))])),
            (fm(vec![("n", Value::Int(0))]), fm(vec![("positive", Value::Bool(false))])),
        ],
    )
}

fn threshold_gate() -> Microgram {
    mg(
        "threshold-gate",
        "Pass/fail gate",
        tree(
            "check",
            vec![
                ("check", cond("value", Operator::Gte, Value::Int(80), "pass", "fail")),
                ("pass", ret(vec![("gate", s("PASS")), ("score", Value::Int(100))])),
                ("fail", ret(vec![("gate", s("FAIL")), ("score", Value::Int(0))])),
            ],
        ),
        vec![(fm(vec![("value", Value::Int(90))]), fm(vec![("gate", s("PASS"))]))],
    )
}

fn score_label() -> Microgram {
    mg(
        "score-label",
        "Label a score",
        tree(
            "check",
            vec![
                ("check", cond("score", Operator::Gte, Value::Int(50), "high", "low")),
                ("high", ret(vec![("label", s("HIGH"))])),
                ("low", ret(vec![("label", s("LOW"))])),
            ],
        ),
        vec![
            (fm(vec![("score", Value::Int(100))]), fm(vec![("label", s("HIGH"))])),
            (fm(vec![("score", Value::Int(0))]), fm(vec![("label", s("LOW"))])),
        ],
    )
}

fn typed_gate() -> Microgram {
    let mut m = mg(
        "typed-gate",
        "Gate with full interface",
        tree(
            "check",
            vec![
                ("check", cond("score", Operator::Gte, Value::Int(70), "pass", "fail")),
                ("pass", ret(vec![("passed", Value::Bool(true)), ("grade", s("PASS"))])),
                ("fail", ret(vec![("passed", Value::Bool(false)), ("grade", s("FAIL"))])),
            ],
        ),
        vec![
            (fm(vec![("score", Value::Int(85))]), fm(vec![("passed", Value::Bool(true)), ("grade", s("PASS"))])),
            (fm(vec![("score", Value::Int(50))]), fm(vec![("passed", Value::Bool(false)), ("grade", s("FAIL"))])),
        ],
    );
    m.interface = Some(iface(
        vec![("score", "float", true), ("label", "string", false)],
        vec![("passed", "bool", true), ("grade", "string", true)],
        vec![],
    ));
    m
}

fn typed_mg() -> Microgram {
    let mut m = mg(
        "typed-gate",
        "Typed threshold gate for CTVP tests",
        tree(
            "check",
            vec![
                ("check", cond("score", Operator::Gte, f(5.0), "pass", "fail")),
                ("pass", ret(vec![("result", s("above"))])),
                ("fail", ret(vec![("result", s("below"))])),
            ],
        ),
        vec![
            (fm(vec![("score", f(8.0))]), fm(vec![("result", s("above"))])),
            (fm(vec![("score", f(2.0))]), fm(vec![("result", s("below"))])),
            (fm(vec![]), fm(vec![("result", s("below"))])),
        ],
    );
    m.interface = Some(iface(vec![("score", "float", false)], vec![("result", "string", false)], vec![]));
    m
}

// ───────────────────────── running and self-tests ─────────────────────────

fn check_parse_microgram() {
    let m = is_positive();
    assert_eq!(m.name, "is-positive");
    assert_eq!(m.tests.len(), 3);
}

fn check_run_microgram() {
    let m = is_positive();
    let result = m.run(fm(vec![("n", Value::Int(42))]));
    assert!(result.success);
    assert_eq!(result.output.get("positive"), Some(&Value::Bool(true)));
}

fn check_self_test_pass() {
    let result = is_positive().test();
    assert_eq!(result.total, 3);
    assert_eq!(result.passed, 3);
    assert_eq!(result.failed, 0);
}

fn check_self_test_reports_failure() {
    let m = mg(
        "broken-test",
        "",
        tree("always-true", vec![("always-true", ret(vec![("answer", Value::Bool(true))]))]),
        vec![(fm(vec![]), fm(vec![("answer", Value::Bool(false))]))],
    );
    let result = m.test();
    assert_eq!(result.failed, 1);
    assert!(result.results[0].mismatch.is_some());
}

fn check_sub_microsecond_execution() {
    let result = is_positive().run(fm(vec![("n", Value::Int(1))]));
    assert!(result.duration_us < 1000, "Took {}us", result.duration_us);
}

#[test]
fn microgram_test_parse_microgram() {
    check_parse_microgram();
}

#[test]
fn mod_test_parse_microgram() {
    check_parse_microgram();
}

#[test]
fn microgram_test_run_microgram() {
    check_run_microgram();
}

#[test]
fn mod_test_run_microgram() {
    check_run_microgram();
}

#[test]
fn microgram_test_self_test_pass() {
    check_self_test_pass();
}

#[test]
fn mod_test_self_test_pass() {
    check_self_test_pass();
}

#[test]
fn microgram_test_self_test_reports_failure() {
    check_self_test_reports_failure();
}

#[test]
fn mod_test_self_test_reports_failure() {
    check_self_test_reports_failure();
}

#[test]
fn microgram_test_sub_microsecond_execution() {
    check_sub_microsecond_execution();
}

#[test]
fn mod_test_sub_microsecond_execution() {
    check_sub_microsecond_execution();
}

#[test]
fn self_test_mismatch_message_names_field_and_values() {
    let m = mg(
        "broken-test",
        "",
        tree("t", vec![("t", ret(vec![("answer", Value::Bool(true))]))]),
        vec![(fm(vec![]), fm(vec![("answer", Value::Bool(false)), ("other", Value::Int(1))]))],
    );
    let result = m.test();
    assert_eq!(result.results[0].mismatch.as_deref(), Some("other: expected Int(1), got nothing"));
}

// ───────────────────────── chains ─────────────────────────

fn check_chain_two_micrograms() {
    let result = chain(&[threshold_gate(), score_label()], fm(vec![("value", Value::Int(90))]), false);
    assert!(result.success);
    assert_eq!(result.steps.len(), 2);
    assert_eq!(result.final_output.get("label"), Some(&s("HIGH")));
}

fn check_chain_data_flows() {
    let result = chain(&[threshold_gate(), score_label()], fm(vec![("value", Value::Int(50))]), false);
    assert!(result.success);
    assert_eq!(result.final_output.get("label"), Some(&s("LOW")));
}

#[test]
fn microgram_test_chain_two_micrograms() {
    check_chain_two_micrograms();
}

#[test]
fn mod_test_chain_two_micrograms() {
    check_chain_two_micrograms();
}

#[test]
fn microgram_test_chain_data_flows() {
    check_chain_data_flows();
}

#[test]
fn mod_test_chain_data_flows() {
    check_chain_data_flows();
}

fn alias_source() -> Microgram {
    let mut m = mg(
        "e2a-source",
        "Outputs valid_icsr",
        tree(
            "check",
            vec![
                ("check", cond("reporter", Operator::Eq, Value::Bool(true), "valid", "invalid")),
                ("valid", ret(vec![("valid_icsr", Value::Bool(true))])),
                ("invalid", ret(vec![("valid_icsr", Value::Bool(false))])),
            ],
        ),
        vec![(fm(vec![("reporter", Value::Bool(true))]), fm(vec![("valid_icsr", Value::Bool(true))]))],
    );
    m.interface = Some(iface(vec![("reporter", "bool", false)], vec![("valid_icsr", "bool", false)], vec![]));
    m
}

fn alias_consumer() -> Microgram {
    let mut m = mg(
        "intake-consumer",
        "Consumes valid via alias",
        tree(
            "check_valid",
            vec![
                ("check_valid", cond("valid", Operator::Eq, Value::Bool(true), "triage", "reject")),
                ("triage", ret(vec![("route", s("TRIAGE"))])),
                ("reject", ret(vec![("route", s("REJECT"))])),
            ],
        ),
        vec![
            (fm(vec![("valid", Value::Bool(true))]), fm(vec![("route", s("TRIAGE"))])),
            (fm(vec![("valid", Value::Bool(false))]), fm(vec![("route", s("REJECT"))])),
        ],
    );
    m.interface = Some(iface(vec![("valid", "bool", false)], vec![("route", "string", false)], vec![("valid_icsr", "valid")]));
    m
}

#[test]
fn test_chain_alias_remapping() {
    let result = chain(&[alias_source(), alias_consumer()], fm(vec![("reporter", Value::Bool(true))]), false);
    assert!(result.success, "Chain should succeed");
    assert_eq!(
        result.final_output.get("route"),
        Some(&s("TRIAGE")),
        "Alias remapping should make consumer see valid=true → TRIAGE, got: {:?}",
        result.final_output
    );
}

#[test]
fn test_chain_alias_no_overwrite() {
    let mut consumer = mg(
        "no-overwrite",
        "Has alias but also direct input",
        tree(
            "check",
            vec![
                ("check", cond("score", Operator::Gt, Value::Int(50), "high", "low")),
                ("high", ret(vec![("result", s("HIGH"))])),
                ("low", ret(vec![("result", s("LOW"))])),
            ],
        ),
        vec![(fm(vec![("score", Value::Int(75))]), fm(vec![("result", s("HIGH"))]))],
    );
    consumer.interface = Some(iface(vec![("score", "int", false)], vec![("result", "string", false)], vec![("raw_score", "score")]));
    let input = fm(vec![("raw_score", Value::Int(25)), ("score", Value::Int(75))]);
    let result = chain(&[consumer], input, false);
    assert!(result.success);
    assert_eq!(
        result.final_output.get("result"),
        Some(&s("HIGH")),
        "Direct value should win over alias — score=75 not raw_score=25"
    );
}

#[test]
fn chain_stops_at_missing_node() {
    let broken = mg("broken", "", tree("nowhere", vec![]), vec![]);
    let result = chain(&[broken, score_label()], fm(vec![]), false);
    assert!(!result.success);
    assert_eq!(result.steps.len(), 1);
}

#[test]
fn chain_accumulate_keeps_earlier_fields() {
    let result = chain_accumulate(&[threshold_gate(), score_label()], fm(vec![("value", Value::Int(90))]), false);
    assert!(result.success);
    assert_eq!(result.final_output.get("gate"), Some(&s("PASS")));
    assert_eq!(result.final_output.get("label"), Some(&s("HIGH")));
    assert_eq!(result.final_output.get("value"), Some(&Value::Int(90)));
}

#[test]
fn test_path_snapshot_pass() {
    let expected = vec![vec!["check".to_string(), "pass".to_string()], vec!["check".to_string(), "high".to_string()]];
    let (_result, snapshot) =
        chain_verify_paths(&[threshold_gate(), score_label()], fm(vec![("value", Value::Int(90))]), &expected, false);
    assert!(snapshot.success, "Path snapshot should match: {:?}", snapshot.mismatches);
    assert_eq!(snapshot.steps_checked, 2);
}

#[test]
fn test_path_snapshot_detects_structural_change() {
    let expected = vec![vec!["check".to_string(), "fail".to_string()], vec!["check".to_string(), "high".to_string()]];
    let (_result, snapshot) =
        chain_verify_paths(&[threshold_gate(), score_label()], fm(vec![("value", Value::Int(90))]), &expected, false);
    assert!(!snapshot.success, "Should detect path mismatch");
    assert_eq!(snapshot.mismatches.len(), 1);
    assert_eq!(snapshot.mismatches[0].step_index, 0);
    assert_eq!(snapshot.mismatches[0].step_name, "threshold-gate");
}

#[test]
fn test_chain_validated() {
    let input = fm(vec![("score", f(8.0)), ("threshold", f(5.0))]);
    let result = chain_validated(&[typed_mg(), is_positive()], input, true);
    assert_eq!(result.steps.len(), 2);
    assert!(result.total_duration_us > 0);
}

fn required_step(name: &str, field: &str, ty: &str, out: &str, out_value: Value) -> Microgram {
    let mut m = mg(name, "", tree("ret", vec![("ret", ret(vec![(out, out_value.clone())]))]), vec![]);
    m.interface = Some(iface(vec![(field, ty, true)], vec![(out, "int", false)], vec![]));
    m
}

#[test]
fn test_validate_all_reports_every_step() {
    let step_a = required_step("step-a", "x", "int", "y", Value::Int(1));
    let step_b = required_step("step-b", "z", "string", "result", s("done"));
    let result = chain_validate_all(&[step_a, step_b], &FieldMap::new());
    assert!(!result.valid);
    assert_eq!(result.total_errors, 2);
    assert_eq!(result.step_errors.len(), 2);
    assert_eq!(result.step_errors[0].step_name, "step-a");
    assert_eq!(result.step_errors[1].step_name, "step-b");
}

#[test]
fn test_validate_all_clean_when_inputs_provided() {
    let result = chain_validate_all(&[threshold_gate(), score_label()], &FieldMap::new());
    assert!(result.valid);
    assert_eq!(result.total_errors, 0);
}

// ───────────────────────── hygiene ─────────────────────────

#[test]
fn test_hygiene_detects_field_gaps() {
    let mut producer = mg("producer", "Outputs alpha and beta", tree("ret", vec![("ret", ret(vec![("alpha", Value::Int(1)), ("beta", s("x"))]))]), vec![]);
    producer.interface = Some(iface(vec![], vec![("alpha", "int", false), ("beta", "string", false)], vec![]));
    let mut consumer = mg("consumer", "Needs alpha, beta, and gamma", tree("ret", vec![("ret", ret(vec![("result", s("done"))]))]), vec![]);
    consumer.interface = Some(iface(
        vec![("alpha", "int", false), ("beta", "string", false), ("gamma", "bool", true)],
        vec![("result", "string", false)],
        vec![],
    ));
    let report = check_chain_hygiene(&[producer, consumer], &FieldMap::new());
    assert!(!report.clean, "Should detect missing required field 'gamma'");
    assert_eq!(report.required_gaps, 1);
    assert_eq!(report.total_gaps, 1);
    let b = &report.boundaries[0];
    assert_eq!(b.satisfied as f64 / b.consumer_inputs as f64, 2.0 / 3.0);
    assert_eq!(b.gaps[0].field, "gamma");
}

#[test]
fn test_hygiene_clean_when_all_fields_satisfied() {
    let mut producer = mg("producer", "Outputs score", tree("ret", vec![("ret", ret(vec![("score", Value::Int(100))]))]), vec![]);
    producer.interface = Some(iface(vec![], vec![("score", "int", false)], vec![]));
    let mut consumer = mg("consumer", "Needs score", tree("ret", vec![("ret", ret(vec![("label", s("HIGH"))]))]), vec![]);
    consumer.interface = Some(iface(vec![("score", "int", true)], vec![("label", "string", false)], vec![]));
    let report = check_chain_hygiene(&[producer, consumer], &FieldMap::new());
    assert!(report.clean, "All required fields satisfied");
    assert_eq!(report.required_gaps, 0);
    assert_eq!(report.total_satisfied, report.total_inputs);
}

#[test]
fn hygiene_follows_aliases_and_initial_input() {
    let report = check_chain_hygiene(&[alias_source(), alias_consumer()], &fm(vec![("reporter", Value::Bool(true))]));
    assert!(report.clean);
    assert_eq!(report.total_gaps, 0);
    assert_eq!(report.boundaries.len(), 1);
    assert_eq!(report.boundaries[0].consumer_index, 1);
    assert_eq!(report.boundaries[0].satisfied, 1);
}

#[test]
fn hygiene_of_empty_chain_is_clean() {
    let report = check_chain_hygiene(&[], &FieldMap::new());
    assert!(report.clean);
    assert!(report.boundaries.is_empty());
    assert_eq!(report.total_inputs, 0);
}

// ───────────────────────── validated runs ─────────────────────────

#[test]
fn test_run_validated_happy_path() {
    let vr = typed_gate().run_validated(fm(vec![("score", f(90.0))]));
    assert!(vr.is_valid());
    assert!(vr.ingress_errors.is_empty());
    assert!(vr.egress_errors.is_empty());
    assert_eq!(vr.result.output.get("grade"), Some(&s("PASS")));
}

#[test]
fn test_run_validated_int_float_coercion() {
    let vr = typed_gate().run_validated(fm(vec![("score", Value::Int(85))]));
    assert!(vr.is_valid(), "int→float coercion should be accepted");
}

#[test]
fn test_run_validated_missing_required_input() {
    let vr = typed_gate().run_validated(FieldMap::new());
    assert!(!vr.is_valid());
    assert_eq!(vr.ingress_errors.len(), 1);
    assert!(vr.ingress_errors[0].contains("Missing required input 'score'"));
    assert!(!vr.result.success);
}

#[test]
fn test_run_validated_wrong_type_input() {
    let vr = typed_gate().run_validated(fm(vec![("score", s("not_a_number"))]));
    assert!(!vr.is_valid());
    assert_eq!(vr.ingress_errors.len(), 1);
    assert!(vr.ingress_errors[0].contains("expected type 'float'"));
    assert!(vr.ingress_errors[0].contains("got 'string'"));
}

#[test]
fn test_run_validated_optional_field_absent() {
    let vr = typed_gate().run_validated(fm(vec![("score", f(75.0))]));
    assert!(vr.is_valid());
}

#[test]
fn test_run_validated_optional_field_wrong_type() {
    let vr = typed_gate().run_validated(fm(vec![("score", f(75.0)), ("label", Value::Int(42))]));
    assert!(!vr.is_valid());
    assert_eq!(vr.ingress_errors.len(), 1);
    assert!(vr.ingress_errors[0].contains("Input 'label'"));
}

#[test]
fn test_run_validated_no_interface_passthrough() {
    let vr = is_positive().run_validated(fm(vec![("n", Value::Int(5))]));
    assert!(vr.is_valid());
    assert_eq!(vr.result.output.get("positive"), Some(&Value::Bool(true)));
}

#[test]
fn test_validate_output_type_mismatch() {
    let mut m = mg("bad-output", "Returns int where string is declared", tree("go", vec![("go", ret(vec![("result", Value::Int(42))]))]), vec![]);
    m.interface = Some(iface(vec![("x", "int", true)], vec![("result", "string", true)], vec![]));
    let vr = m.run_validated(fm(vec![("x", Value::Int(1))]));
    assert!(vr.ingress_errors.is_empty());
    assert_eq!(vr.egress_errors.len(), 1);
    assert!(vr.egress_errors[0].contains("Output 'result'"));
    assert!(!vr.is_valid());
}

// ───────────────────────── evolve, shrink, clone, merge ─────────────────────────

fn check_evolve_adds_boundary_tests() {
    let m = threshold_gate();
    let new_tests = evolve_tests(&m, &[]);
    assert!(!new_tests.is_empty(), "Should suggest new tests");
    for test in &new_tests {
        let result = m.run(test.input.clone());
        assert!(result.success, "Evolved test should run without error");
    }
}

fn check_evolve_suggests_zero_and_negative() {
    let m = is_positive();
    let new_tests = evolve_tests(&m, &[]);
    let has_minus_one = new_tests.iter().any(|t| t.input.get("n") == Some(&Value::Int(-1)));
    let has_plus_one = new_tests.iter().any(|t| t.input.get("n") == Some(&Value::Int(1)));
    assert!(has_minus_one || has_plus_one, "Should suggest boundary values near threshold");
}

#[test]
fn microgram_test_evolve_adds_boundary_tests() {
    check_evolve_adds_boundary_tests();
}

#[test]
fn mod_test_evolve_adds_boundary_tests() {
    check_evolve_adds_boundary_tests();
}

#[test]
fn microgram_test_evolve_suggests_zero_and_negative() {
    check_evolve_suggests_zero_and_negative();
}

#[test]
fn mod_test_evolve_suggests_zero_and_negative() {
    check_evolve_suggests_zero_and_negative();
}

fn shrunk_n(input: FieldMap) -> i64 {
    let m = is_positive();
    let minimal = shrink(&m, &input);
    match minimal.get("n") {
        Some(Value::Int(n)) => *n,
        _ => panic!("expected int"),
    }
}

fn check_shrink_finds_boundary() {
    let big = fm(vec![("n", Value::Int(1000))]);
    assert_eq!(shrunk_n(big.clone()), 1, "Should shrink to boundary value 1");
    let m = is_positive();
    let minimal = shrink(&m, &big);
    let before = m.run(big);
    let shrunk = m.run(minimal);
    assert_eq!(before.output, shrunk.output);
}

fn check_shrink_negative() {
    assert_eq!(shrunk_n(fm(vec![("n", Value::Int(-500))])), 0, "Should shrink to boundary value 0");
}

#[test]
fn microgram_test_shrink_finds_boundary() {
    check_shrink_finds_boundary();
}

#[test]
fn mod_test_shrink_finds_boundary() {
    check_shrink_finds_boundary();
}

#[test]
fn microgram_test_shrink_negative() {
    check_shrink_negative();
}

#[test]
fn mod_test_shrink_negative() {
    check_shrink_negative();
}

fn check_clone_mutated() {
    let mutant = clone_mutated(&threshold_gate(), "strict-gate", 20);
    assert_eq!(mutant.name, "strict-gate");
    let result = mutant.run(fm(vec![("value", Value::Int(90))]));
    assert_eq!(result.output.get("gate"), Some(&s("FAIL")));
    let result2 = mutant.run(fm(vec![("value", Value::Int(100))]));
    assert_eq!(result2.output.get("gate"), Some(&s("PASS")));
    let test_result = mutant.test();
    assert_eq!(test_result.failed, 0);
}

#[test]
fn microgram_test_clone_mutated() {
    check_clone_mutated();
}

#[test]
fn mod_test_clone_mutated() {
    check_clone_mutated();
}

fn check_merge_dispatch() {
    let merged = merge(&is_positive(), &threshold_gate(), "pos-or-gate", "Dispatch by input");
    assert!(merged.tree.nodes.contains_key("dispatch"));
    assert!(merged.tree.nodes.contains_key("a_check"));
    assert!(merged.tree.nodes.contains_key("b_check"));
    let result = merged.run(fm(vec![("n", Value::Int(5))]));
    assert!(result.success);
    assert_eq!(result.output.get("positive"), Some(&Value::Bool(true)));
    let result2 = merged.run(fm(vec![("value", Value::Int(90))]));
    assert!(result2.success);
    assert_eq!(result2.output.get("gate"), Some(&s("PASS")));
}

fn check_merge_preserves_tests() {
    let pos = is_positive();
    let gate = threshold_gate();
    let merged = merge(&pos, &gate, "merged", "test");
    assert_eq!(merged.tests.len(), pos.tests.len() + gate.tests.len());
}

#[test]
fn microgram_test_merge_dispatch() {
    check_merge_dispatch();
}

#[test]
fn mod_test_merge_dispatch() {
    check_merge_dispatch();
}

#[test]
fn microgram_test_merge_preserves_tests() {
    check_merge_preserves_tests();
}

#[test]
fn mod_test_merge_preserves_tests() {
    check_merge_preserves_tests();
}

// ───────────────────────── diff ─────────────────────────

fn is_even() -> Microgram {
    mg(
        "is-even",
        "Check if even",
        tree(
            "check",
            vec![
                ("check", cond("n", Operator::Eq, Value::Int(0), "yes", "no")),
                ("yes", ret(vec![("even", Value::Bool(true))])),
                ("no", ret(vec![("even", Value::Bool(false))])),
            ],
        ),
        vec![
            (fm(vec![("n", Value::Int(0))]), fm(vec![("even", Value::Bool(true))])),
            (fm(vec![("n", Value::Int(5))]), fm(vec![("even", Value::Bool(false))])),
        ],
    )
}

fn check_diff_same_inputs() {
    let d = diff(&is_positive(), &is_even());
    assert!(d.same_inputs, "Both take 'n'");
    assert!(!d.same_outputs, "Different output fields");
    assert_eq!(d.shared_inputs, vec!["n"]);
    assert!(!d.compatible, "positive doesn't feed into n");
}

fn check_diff_compatible_pair() {
    let d = diff(&threshold_gate(), &score_label());
    assert!(d.compatible, "gate outputs 'score', label inputs 'score'");
    assert!(!d.same_inputs);
    assert!(!d.same_outputs);
}

fn check_diff_behavioral_overlap() {
    let b = mg(
        "is-big",
        "",
        tree(
            "check",
            vec![
                ("check", cond("n", Operator::Gt, Value::Int(10), "yes", "no")),
                ("yes", ret(vec![("big", Value::Bool(true))])),
                ("no", ret(vec![("big", Value::Bool(false))])),
            ],
        ),
        vec![(fm(vec![("n", Value::Int(5))]), fm(vec![("big", Value::Bool(false))]))],
    );
    let d = diff(&is_positive(), &b);
    assert_eq!(d.test_overlap, 1, "Both test n=5");
    assert_eq!(d.behavior_diverges, 1, "Different outputs for n=5");
}

#[test]
fn microgram_test_diff_same_inputs() {
    check_diff_same_inputs();
}

#[test]
fn mod_test_diff_same_inputs() {
    check_diff_same_inputs();
}

#[test]
fn microgram_test_diff_compatible_pair() {
    check_diff_compatible_pair();
}

#[test]
fn mod_test_diff_compatible_pair() {
    check_diff_compatible_pair();
}

#[test]
fn microgram_test_diff_behavioral_overlap() {
    check_diff_behavioral_overlap();
}

#[test]
fn mod_test_diff_behavioral_overlap() {
    check_diff_behavioral_overlap();
}

// ───────────────────────── pipes ─────────────────────────

fn n_inputs(ns: Vec<i64>) -> Vec<FieldMap> {
    ns.into_iter().map(|n| fm(vec![("n", Value::Int(n))])).collect()
}

fn check_pipe_single() {
    let result = pipe(&is_positive(), &n_inputs(vec![5, -3, 0]));
    assert_eq!(result.total, 3);
    assert_eq!(result.succeeded, 3);
    assert_eq!(result.failed, 0);
    assert_eq!(result.results[0].output.get("positive"), Some(&Value::Bool(true)));
    assert_eq!(result.results[1].output.get("positive"), Some(&Value::Bool(false)));
}

fn check_pipe_performance() {
    let inputs = n_inputs((0..1000).map(|i| i - 500).collect());
    let result = pipe(&is_positive(), &inputs);
    assert_eq!(result.total, 1000);
    assert_eq!(result.succeeded, 1000);
    assert!(result.total_duration_us < 10_000, "1000 pipes took {}us", result.total_duration_us);
}

fn check_filter_results() {
    let pipe_result = pipe(&is_positive(), &n_inputs(vec![5, -3, 10]));
    let filtered = filter_results(&pipe_result, "positive", "eq", &Value::Bool(true));
    assert_eq!(filtered.total, 2);
}

fn check_map_field() {
    let pipe_result = pipe(&is_positive(), &n_inputs(vec![1, -1]));
    let values = map_field(&pipe_result, "positive");
    assert_eq!(values, vec![Some(Value::Bool(true)), Some(Value::Bool(false))]);
}

fn check_reduce_count() {
    let pipe_result = pipe(&is_positive(), &n_inputs((-3..=3).collect()));
    let counts = reduce_count(&pipe_result, "positive");
    assert_eq!(counts.get("Bool(true)"), Some(&3));
    assert_eq!(counts.get("Bool(false)"), Some(&4));
}

#[test]
fn microgram_test_pipe_single() {
    check_pipe_single();
}

#[test]
fn mod_test_pipe_single() {
    check_pipe_single();
}

#[test]
fn microgram_test_pipe_performance() {
    check_pipe_performance();
}

#[test]
fn mod_test_pipe_performance() {
    check_pipe_performance();
}

#[test]
fn microgram_test_filter_results() {
    check_filter_results();
}

#[test]
fn mod_test_filter_results() {
    check_filter_results();
}

#[test]
fn microgram_test_map_field() {
    check_map_field();
}

#[test]
fn mod_test_map_field() {
    check_map_field();
}

#[test]
fn microgram_test_reduce_count() {
    check_reduce_count();
}

#[test]
fn mod_test_reduce_count() {
    check_reduce_count();
}

// ───────────────────────── coverage and stress ─────────────────────────

use rsk::exercise::{coverage, stress, stress_all};

fn check_coverage_full() {
    let cov = coverage(&is_positive());
    assert_eq!(cov.total_nodes, 3);
    assert_eq!(cov.covered_nodes, 3);
    let pct = if cov.total_nodes == 0 { 100.0 } else { cov.covered_nodes as f64 / cov.total_nodes as f64 * 100.0 };
    assert!((pct - 100.0).abs() < 0.01);
    assert!(cov.uncovered.is_empty());
}

fn check_coverage_partial() {
    let m = mg(
        "partial",
        "",
        tree(
            "check",
            vec![
                ("check", cond("x", Operator::Gt, Value::Int(0), "yes", "no")),
                ("yes", ret(vec![("result", Value::Bool(true))])),
                ("no", ret(vec![("result", Value::Bool(false))])),
            ],
        ),
        vec![(fm(vec![("x", Value::Int(5))]), fm(vec![("result", Value::Bool(true))]))],
    );
    let cov = coverage(&m);
    assert_eq!(cov.total_nodes, 3);
    assert_eq!(cov.covered_nodes, 2);
    assert!((cov.covered_nodes as f64 / cov.total_nodes as f64) * 100.0 < 100.0);
    assert!(cov.uncovered.contains(&"no".to_string()));
    assert_eq!(cov.paths_taken, vec![vec!["check".to_string(), "yes".to_string()]]);
}

#[test]
fn microgram_test_coverage_full() {
    check_coverage_full();
}

#[test]
fn mod_test_coverage_full() {
    check_coverage_full();
}

#[test]
fn microgram_test_coverage_partial() {
    check_coverage_partial();
}

#[test]
fn mod_test_coverage_partial() {
    check_coverage_partial();
}

fn check_stress_single() {
    let result = stress(&is_positive(), 10_000, 42);
    assert_eq!(result.iterations, 10_000);
    assert_eq!(result.succeeded, 10_000);
    assert_eq!(result.errored, 0);
    let avg = result.total_us as f64 / result.durations.len() as f64;
    assert!(avg < 100.0, "avg={}us", avg);
}

#[test]
fn microgram_test_stress_single() {
    check_stress_single();
}

#[test]
fn mod_test_stress_single() {
    check_stress_single();
}

#[test]
fn test_stress_all() {
    let results = stress_all(&[threshold_gate(), is_positive()], 1000, 99);
    assert_eq!(results.len(), 2);
    for r in &results {
        assert_eq!(r.iterations, 1000);
        assert_eq!(r.errored, 0);
    }
}

#[test]
fn stress_is_deterministic_and_in_range() {
    let a = stress(&is_positive(), 50, 7);
    let b = stress(&is_positive(), 50, 7);
    assert_eq!(a.succeeded, b.succeeded);
    assert!(a.min_us <= a.max_us);
    let broken = mg("broken", "", tree("check", vec![("check", cond("n", Operator::Gt, Value::Int(0), "gone", "gone"))]), vec![]);
    let r = stress(&broken, 20, 3);
    assert_eq!(r.errored, 20);
    assert_eq!(r.error_inputs.len(), 10);
    for input in &r.error_inputs {
        match input.get("n") {
            Some(Value::Int(v)) => assert!(-1000 <= *v && *v <= 1000),
            other => panic!("unexpected {:?}", other),
        }
    }
}

#[test]
fn stress_over_counts_given_inputs() {
    let m = is_positive();
    let r = rsk::exercise::stress_over(&m, vec![fm(vec![("n", Value::Int(5))]), fm(vec![("n", Value::Int(-3))])]);
    assert_eq!(r.name, "is-positive");
    assert_eq!(r.iterations, 2);
    assert_eq!(r.succeeded + r.errored, 2);
    assert_eq!(r.durations.len(), 2);
    assert!(r.min_us <= r.max_us);
}

#[test]
fn stress_validated_over_counts_boundary_failures() {
    let m = typed_mg();
    let inputs = vec![fm(vec![("score", f(8.0))]), fm(vec![("score", s("abc"))]), fm(vec![])];
    let r = rsk::exercise::stress_validated_over(&m, inputs);
    assert_eq!(r.base.iterations, 3);
    assert_eq!(r.base.succeeded, 2);
    assert_eq!(r.base.errored, 1);
    assert_eq!(r.ingress_failures, 1);
    assert_eq!(r.egress_failures, 0);
    assert_eq!(r.base.error_inputs.len(), 1);
    assert_eq!(r.base.error_inputs[0].get("score"), Some(&s("abc")));
}

#[test]
fn stress_over_empty_inputs() {
    let r = rsk::exercise::stress_over(&threshold_gate(), vec![]);
    assert_eq!(r.iterations, 0);
    assert_eq!((r.min_us, r.max_us, r.total_us), (0, 0, 0));
    assert!(r.error_inputs.is_empty());
}

// ───────────────── directory operations, on micrograms held in memory ─────────────────
// The micrograms are given in the order a directory load gives them: by name.

fn goal(required: Vec<&str>, input: FieldMap) -> rsk::compose::CompositionGoal {
    rsk::compose::CompositionGoal { required_outputs: required.into_iter().map(|x| x.to_string()).collect(), initial_input: input }
}

#[test]
fn mod_test_test_all() {
    let results = rsk::microgram::test_all(&vec![is_positive()]);
    assert_eq!(results.len(), 1);
    assert_eq!(results[0].passed, 3);
}

#[test]
fn mod_test_chain_by_names() {
    let all = vec![score_label(), threshold_gate()];
    let result = rsk::chain::chain_by_names(&all, "mg", &["threshold-gate", "score-label"], fm(vec![("value", Value::Int(95))]))
        .unwrap();
    assert!(result.success);
    assert_eq!(result.final_output.get("label"), Some(&s("HIGH")));
}

#[test]
fn chain_by_names_reports_unknown_name() {
    let all = vec![threshold_gate()];
    let err = rsk::chain::chain_by_names(&all, "mg", &["threshold-gate", "nope"], FieldMap::new()).unwrap_err();
    assert!(err.contains("nope"));
}

#[test]
fn mod_test_compose_finds_chain() {
    let all = vec![score_label(), threshold_gate()];
    let plan = rsk::compose::compose(&all, &goal(vec!["label"], fm(vec![("value", Value::Int(90))])));
    assert!(plan.feasible, "Should find a feasible chain");
    assert!(!plan.chain.is_empty());
    assert!(plan.missing.is_empty());
    assert!(plan.coverage.contains(&"label".to_string()));
}

#[test]
fn mod_test_compose_reports_infeasible() {
    let all = vec![threshold_gate()];
    let plan = rsk::compose::compose(&all, &goal(vec!["nonexistent_field"], fm(vec![("value", Value::Int(90))])));
    assert!(!plan.feasible);
    assert!(plan.missing.contains(&"nonexistent_field".to_string()));
}

#[test]
fn mod_test_compose_multi_step() {
    let all = vec![is_positive(), score_label(), threshold_gate()];
    let plan = rsk::compose::compose(&all, &goal(vec!["label", "gate"], fm(vec![("value", Value::Int(90))])));
    assert!(plan.feasible);
    assert_eq!(plan.coverage.len(), 2);
}

#[test]
fn mod_test_auto_execute_feasible() {
    let all = vec![score_label(), threshold_gate()];
    let result = rsk::compose::auto_execute(&all, "mg", &goal(vec!["label"], fm(vec![("value", Value::Int(90))]))).unwrap();
    assert!(result.plan.feasible);
    assert!(result.execution.is_some());
    let exec = result.execution.unwrap();
    assert!(exec.success);
    assert!(exec.final_output.contains_key("label"));
    assert!(result.duration_us < 10_000, "Auto should complete in <10ms, took {}us", result.duration_us);
}

#[test]
fn mod_test_auto_execute_infeasible() {
    let all = vec![threshold_gate()];
    let result = rsk::compose::auto_execute(&all, "mg", &goal(vec!["impossible_field"], FieldMap::new())).unwrap();
    assert!(!result.plan.feasible);
    assert!(result.execution.is_none());
    assert!(!result.verified);
}

#[test]
fn mod_test_auto_full_pipeline() {
    let all = vec![is_positive(), score_label(), threshold_gate()];
    let result = rsk::compose::auto_execute(&all, "mg", &goal(vec!["label"], fm(vec![("value", Value::Int(95))]))).unwrap();
    assert!(result.plan.feasible);
    let exec = result.execution.unwrap();
    assert!(exec.success);
    assert_eq!(exec.final_output.get("label"), Some(&s("HIGH")));
}

#[test]
fn mod_test_catalog() {
    let all = vec![is_positive(), score_label(), threshold_gate()];
    let cat = rsk::catalog::catalog(&all);
    assert_eq!(cat.total_micrograms, 3);
    assert!(cat.all_pass);
    assert!(cat.total_tests > 0);
    assert!(cat.connections.iter().any(|(a, b)| a == "threshold-gate" && b == "score-label"));
}

#[test]
fn mod_test_catalog_connection_graph() {
    let all = vec![score_label(), threshold_gate()];
    let cat = rsk::catalog::catalog(&all);
    assert!(!cat.connections.iter().any(|(a, _)| a == "score-label"));
}

#[test]
fn mod_test_pipe_chain() {
    let all = vec![score_label(), threshold_gate()];
    let inputs = vec![fm(vec![("value", Value::Int(90))]), fm(vec![("value", Value::Int(50))]), fm(vec![("value", Value::Int(100))])];
    let result = rsk::pipe::pipe_chain(&all, "mg", &["threshold-gate", "score-label"], &inputs).unwrap();
    assert_eq!(result.total, 3);
    assert_eq!(result.succeeded, 3);
    assert_eq!(result.results[0].output.get("label"), Some(&s("HIGH")));
    assert_eq!(result.results[1].output.get("label"), Some(&s("LOW")));
    assert_eq!(result.results[2].output.get("label"), Some(&s("HIGH")));
}

#[test]
fn mod_test_matrix_self_match() {
    let all = vec![is_positive(), threshold_gate()];
    let result = rsk::compare::matrix(&all);
    assert_eq!(result.cells.len(), 4);
    let self_gate = result.cells.iter().find(|c| c.runner == "threshold-gate" && c.test_from == "threshold-gate").unwrap();
    assert_eq!(self_gate.matched, self_gate.total);
    let self_pos = result.cells.iter().find(|c| c.runner == "is-positive" && c.test_from == "is-positive").unwrap();
    assert_eq!(self_pos.matched, self_pos.total);
}

#[test]
fn mod_test_coverage_all_dir() {
    let all = vec![is_positive(), threshold_gate()];
    let results: Vec<_> = all.iter().map(coverage).collect();
    assert_eq!(results.len(), 2);
    let pos = results.iter().find(|r| r.name == "is-positive").unwrap();
    assert_eq!(pos.covered_nodes, pos.total_nodes);
}

#[test]
fn test_compose_alias_expansion() {
    let mut source = mg(
        "source-mg",
        "produces valid_icsr",
        tree("ret", vec![("ret", ret(vec![("valid_icsr", Value::Bool(true))]))]),
        vec![(fm(vec![]), fm(vec![("valid_icsr", Value::Bool(true))]))],
    );
    source.interface = Some(iface(vec![], vec![("valid_icsr", "bool", false)], vec![]));
    let mut consumer = mg(
        "consumer-mg",
        "consumes valid via alias, produces route",
        tree(
            "check",
            vec![
                ("check", cond("valid", Operator::Eq, Value::Bool(true), "yes", "no")),
                ("yes", ret(vec![("route", s("TRIAGE"))])),
                ("no", ret(vec![("route", s("REJECT"))])),
            ],
        ),
        vec![(fm(vec![("valid", Value::Bool(true))]), fm(vec![("route", s("TRIAGE"))]))],
    );
    consumer.interface = Some(iface(vec![("valid", "bool", false)], vec![("route", "string", false)], vec![("valid_icsr", "valid")]));
    let all = vec![consumer, source];
    let plan = rsk::compose::compose(&all, &goal(vec!["route"], FieldMap::new()));
    assert!(plan.feasible, "Should compose a feasible chain via alias");
    assert!(plan.chain.contains(&"source-mg".to_string()));
    assert!(plan.chain.contains(&"consumer-mg".to_string()));
}

#[test]
fn micros_capped_saturates() {
    assert_eq!(rsk::clock::micros_capped(0), 0);
    assert_eq!(rsk::clock::micros_capped(1234), 1234);
    assert_eq!(rsk::clock::micros_capped(u64::MAX as u128), u64::MAX);
    assert_eq!(rsk::clock::micros_capped(u64::MAX as u128 + 1), u64::MAX);
}

#[test]
fn chain_validated_continues_past_egress_type_mismatch() {
    let mut bad = mg(
        "bad-output",
        "returns an int where a string is declared",
        tree("ret", vec![("ret", ret(vec![("result", Value::Int(42))]))]),
        vec![],
    );
    bad.interface = Some(iface(vec![("x", "int", true)], vec![("result", "string", true)], vec![]));
    let r = chain_validated(&[bad, is_positive()], fm(vec![("x", Value::Int(1))]), false);
    assert_eq!(r.steps.len(), 2);
    assert!(!r.success);
    assert_eq!(r.boundary_errors.len(), 1);
    assert_eq!(r.boundary_findings[0].direction, "egress");
    assert_eq!(r.boundary_findings[0].severity, rsk::chain_validation::BoundaryErrorSeverity::TypeMismatch);
    assert_eq!(r.boundary_findings[0].primitive, rsk::chain_validation::EnginePrimitive::Convert);
}

#[test]
fn shrink_negative_keeps_output_across_threshold() {
    let m = mg(
        "above-minus-ten",
        "Pass above minus ten",
        tree(
            "check",
            vec![
                ("check", cond("n", Operator::Gt, Value::Int(-10), "pass", "fail")),
                ("pass", ret(vec![("ok", Value::Bool(true))])),
                ("fail", ret(vec![("ok", Value::Bool(false))])),
            ],
        ),
        vec![],
    );
    let input = fm(vec![("n", Value::Int(-500))]);
    let minimal = shrink(&m, &input);
    assert_eq!(minimal.get("n"), Some(&Value::Int(-10)));
    assert_eq!(m.run(minimal).output, m.run(input).output);
}

#[test]
fn chain_total_duration_is_sum_of_steps() {
    let r = chain(&[threshold_gate(), is_positive()], fm(vec![("value", Value::Int(90))]), false);
    let sum: u64 = r.steps.iter().map(|s| s.duration_us).sum();
    assert_eq!(r.total_duration_us, sum);
    let a = chain_accumulate(&[threshold_gate(), score_label()], fm(vec![("value", Value::Int(90))]), false);
    let sum_a: u64 = a.steps.iter().map(|s| s.duration_us).sum();
    assert_eq!(a.total_duration_us, sum_a);
    let v = chain_validated(&[typed_mg(), is_positive()], fm(vec![("score", f(7.0))]), true);
    let sum_v: u64 = v.steps.iter().map(|s| s.result.duration_us).sum();
    assert_eq!(v.total_duration_us, sum_v);
    let e = chain(&[], FieldMap::new(), false);
    assert_eq!(e.total_duration_us, 0);
}

#[test]
fn run_validated_agrees_with_its_parts() {
    let m = typed_mg();
    for input in vec![fm(vec![("score", f(7.0))]), fm(vec![("score", s("high"))]), FieldMap::new()] {
        let ie = m.validate_input(&input);
        let r = m.run(input.clone());
        let v = m.run_validated(input);
        assert_eq!(v.ingress_errors, ie);
        if !ie.is_empty() {
            assert!(!v.result.success);
            assert_eq!(v.result.path, vec!["ingress_validation".to_string()]);
            assert_eq!(v.result.output.get("_valid"), Some(&Value::Bool(false)));
            assert!(v.egress_errors.is_empty());
        } else {
            assert_eq!(v.result.output, r.output);
            let expected = if r.success { m.validate_output(&r.output) } else { Vec::new() };
            assert_eq!(v.egress_errors, expected);
            assert_eq!(v.result.success, r.success && v.egress_errors.is_empty());
        }
    }
}

#[test]
fn test_report_counts_add_up() {
    let t = threshold_gate().test();
    assert_eq!(t.total, t.results.len());
    assert_eq!(t.passed, t.results.iter().filter(|x| x.passed).count());
    assert_eq!(t.failed, t.total - t.passed);
    for (i, x) in t.results.iter().enumerate() {
        assert_eq!(x.index, i);
        assert_eq!(x.mismatch.is_some(), !x.passed);
    }
}

#[test]
fn apply_aliases_fills_only_absent_canonical_names() {
    let mut m = threshold_gate();
    m.interface = Some(iface(vec![("value", "int", true)], vec![], vec![("val", "value"), ("v", "value")]));
    let mut input = fm(vec![("val", Value::Int(5))]);
    apply_aliases(&mut input, &m);
    assert_eq!(input.get("value"), Some(&Value::Int(5)));
    assert_eq!(input.get("val"), Some(&Value::Int(5)));
    assert_eq!(input.len(), 2);
    let mut both = fm(vec![("val", Value::Int(5)), ("value", Value::Int(9))]);
    apply_aliases(&mut both, &m);
    assert_eq!(both.get("value"), Some(&Value::Int(9)));
    let mut none = fm(vec![("other", Value::Int(1))]);
    apply_aliases(&mut none, &threshold_gate());
    assert_eq!(none.len(), 1);
}

fn big_threshold(tests: Vec<(FieldMap, FieldMap)>) -> Microgram {
    mg(
        "big-threshold",
        "Threshold whose hundredfold overflows",
        tree(
            "check",
            vec![
                ("check", cond("n", Operator::Gt, Value::Int(100_000_000_000_000_000), "yes", "no")),
                ("yes", ret(vec![("big", Value::Bool(true))])),
                ("no", ret(vec![("big", Value::Bool(false))])),
            ],
        ),
        tests,
    )
}

#[test]
fn evolve_skips_covered_large_probe_that_would_overflow() {
    let covered = big_threshold(vec![(
        fm(vec![("n", Value::Int(2_000_000_000_000_000_000))]),
        fm(vec![("big", Value::Bool(true))]),
    )]);
    assert!(evolve_fits(&covered));
    let suggested = evolve_tests(&covered, &[]);
    assert!(suggested.iter().any(|t| t.input.get("n") == Some(&Value::Int(99_999_999_999_999_999))));
    assert!(suggested.iter().all(|t| match t.input.get("n") {
        Some(Value::Int(x)) => *x <= 100_000_000_000_000_001,
        _ => true,
    }));
    assert!(!evolve_fits(&big_threshold(vec![])));
    assert!(evolve_fits(&is_positive()));
}

#[test]
fn filter_results_is_idempotent() {
    let inputs: Vec<FieldMap> = (-3..4).map(|n| fm(vec![("n", Value::Int(n))])).collect();
    let all = pipe(&is_positive(), &inputs);
    let once = filter_results(&all, "positive", "eq", &Value::Bool(true));
    let twice = filter_results(&once, "positive", "eq", &Value::Bool(true));
    assert_eq!(once.results.len(), 3);
    assert_eq!(twice.results.len(), once.results.len());
    for (x, y) in once.results.iter().zip(twice.results.iter()) {
        assert_eq!(x.index, y.index);
        assert_eq!(x.output, y.output);
    }
    assert_eq!((twice.total, twice.succeeded, twice.failed), (once.total, once.succeeded, once.failed));
    assert_eq!(twice.total_duration_us, once.total_duration_us);
}

#[test]
fn diff_sameness_is_symmetric() {
    for (a, b) in vec![(is_positive(), is_even()), (threshold_gate(), score_label()), (is_positive(), is_positive())] {
        let ab = diff(&a, &b);
        let ba = diff(&b, &a);
        assert_eq!(ab.same_inputs, ba.same_inputs);
        assert_eq!(ab.same_outputs, ba.same_outputs);
    }
    assert!(diff(&is_positive(), &is_positive()).same_inputs);
}

#[test]
fn clone_mutated_is_undone_by_opposite_delta() {
    let g = threshold_gate();
    let back = clone_mutated(&clone_mutated(&g, "up", 20), "down", -20);
    assert_eq!(format!("{:?}", back.tree), format!("{:?}", g.tree));
    let same = clone_mutated(&g, "same", 0);
    assert_eq!(format!("{:?}", same.tree), format!("{:?}", g.tree));
}

#[test]
fn evolved_tests_add_no_failure() {
    for make in [threshold_gate as fn() -> Microgram, is_positive] {
        let m = make();
        let before = m.test().failed;
        let mut grown = make();
        grown.tests.extend(evolve_tests(&m, &[]));
        assert_eq!(grown.test().failed, before);
    }
}

#[test]
fn merge_runs_like_first_when_dispatch_present() {
    let a = is_positive();
    let b = threshold_gate();
    let merged = merge(&a, &b, "m", "d");
    for n in [-5, 0, 7] {
        let input = fm(vec![("n", Value::Int(n))]);
        assert_eq!(merged.run(input.clone()).output, a.run(input).output);
    }
    for v in [10, 95] {
        let input = fm(vec![("value", Value::Int(v))]);
        assert_eq!(merged.run(input.clone()).output, b.run(input).output);
    }
}
