use rsk::generate::MicrogramSpec;
use rsk::value::{FieldMap, Value};

fn input(name: &str, v: Value) -> FieldMap {
    let mut m = FieldMap::new();
    m.insert(name.to_string(), v);
    m
}

fn age_spec() -> MicrogramSpec {
    MicrogramSpec {
        name: "age-check".to_string(),
        description: "Check if age >= 18".to_string(),
        variable: "age".to_string(),
        operator: "gte".to_string(),
        threshold: Value::Int(18),
        true_label: "adult".to_string(),
        true_value: Value::Bool(true),
        false_label: "adult".to_string(),
        false_value: Value::Bool(false),
    }
}

fn temp_spec() -> MicrogramSpec {
    MicrogramSpec {
        name: "temp-check".to_string(),
        description: "Check if temperature > 100".to_string(),
        variable: "temp".to_string(),
        operator: "gt".to_string(),
        threshold: Value::Int(100),
        true_label: "fever".to_string(),
        true_value: Value::Bool(true),
        false_label: "fever".to_string(),
        false_value: Value::Bool(false),
    }
}

fn check_generate_microgram() {
    let mg = age_spec().build(None);
    assert_eq!(mg.name, "age-check");
    assert!(!mg.tests.is_empty());

    let result = mg.run(input("age", Value::Int(21)));
    assert!(result.success);
    assert_eq!(result.output.get("adult"), Some(&Value::Bool(true)));

    let result2 = mg.run(input("age", Value::Int(15)));
    assert_eq!(result2.output.get("adult"), Some(&Value::Bool(false)));
}

fn check_generate_self_tests_pass() {
    let mg = temp_spec().build(None);
    let test_result = mg.test();
    assert_eq!(test_result.failed, 0, "Generated tests should all pass: {:?}", test_result.results);
    assert!(test_result.total >= 3, "Should generate at least 3 boundary tests");
}

#[test]
fn microgram_test_generate_microgram() {
    check_generate_microgram();
}

#[test]
fn mod_test_generate_microgram() {
    check_generate_microgram();
}

#[test]
fn microgram_test_generate_self_tests_pass() {
    check_generate_self_tests_pass();
}

#[test]
fn mod_test_generate_self_tests_pass() {
    check_generate_self_tests_pass();
}

#[test]
fn generated_tests_probe_threshold_and_neighbours() {
    let tests = temp_spec().generate_tests(None);
    assert_eq!(tests.len(), 3);
    let probes: Vec<Option<&Value>> = tests.iter().map(|t| t.input.get("temp")).collect();
    assert_eq!(probes, vec![Some(&Value::Int(100)), Some(&Value::Int(101)), Some(&Value::Int(99))]);
    assert_eq!(tests[0].expect.get("fever"), Some(&Value::Bool(false)));
    assert_eq!(tests[1].expect.get("fever"), Some(&Value::Bool(true)));
    assert_eq!(tests[2].expect.get("fever"), Some(&Value::Bool(false)));
}

#[test]
fn built_microgram_has_version_and_check_node() {
    let mg = age_spec().build(None);
    assert_eq!(mg.version, "0.1.0");
    assert_eq!(mg.tree.start, "check");
    assert!(mg.interface.is_none());
}
