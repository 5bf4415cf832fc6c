use rsk::taxonomy::{lookup_compliance_level, lookup_skill_category};
use rsk::taxonomy_query::{
    all_smst_components, list_taxonomy, lookup_smst_component, query_taxonomy, required_smst_components,
};
use rsk::value::Value;

#[test]
fn test_lookup_smst_component() {
    let component = lookup_smst_component("INPUTS").unwrap();
    assert!(component.required);
    assert_eq!(f64::from_bits(component.weight), 0.125);
}

#[test]
fn test_lookup_smst_component_normalized() {
    let c1 = lookup_smst_component("operator_mode").unwrap();
    let c2 = lookup_smst_component("OPERATOR_MODE").unwrap();
    let c3 = lookup_smst_component("operator-mode").unwrap();
    assert_eq!(c1.name, c2.name);
    assert_eq!(c2.name, c3.name);
}

#[test]
fn test_required_smst_components() {
    let required = required_smst_components();
    assert_eq!(required.len(), 8);
}

#[test]
fn test_query_taxonomy_compliance() {
    let result = query_taxonomy("compliance", "gold");
    assert!(result.found);
    assert_eq!(result.query_type, "compliance");
}

#[test]
fn test_query_taxonomy_smst() {
    let result = query_taxonomy("smst", "TELEMETRY");
    assert!(result.found);
    assert!(result.data.is_some());
}

#[test]
fn test_list_taxonomy_compliance() {
    let result = list_taxonomy("compliance");
    assert_eq!(result.count, 5);
    assert_eq!(result.entries.len(), 5);
}

#[test]
fn test_list_taxonomy_smst() {
    let result = list_taxonomy("smst");
    assert_eq!(result.count, 8);
}

#[test]
fn test_lookup_nonexistent_smst_component() {
    assert!(lookup_smst_component("NONEXISTENT").is_none());
}

#[test]
fn test_query_taxonomy_not_found() {
    let result = query_taxonomy("compliance", "nonexistent");
    assert!(!result.found);
    assert!(result.data.is_none());
}

#[test]
fn test_query_taxonomy_invalid_type() {
    let result = query_taxonomy("invalid_type", "key");
    assert!(!result.found);
}

#[test]
fn test_list_taxonomy_invalid_type() {
    let result = list_taxonomy("invalid");
    assert_eq!(result.count, 0);
    assert!(result.entries.is_empty());
}

#[test]
fn test_lookup_empty_string() {
    assert!(lookup_compliance_level("").is_none());
    assert!(lookup_smst_component("").is_none());
    assert!(lookup_skill_category("").is_none());
}

#[test]
fn test_smst_weights_sum_to_one() {
    let total_weight: f64 = all_smst_components().iter().map(|c| f64::from_bits(c.weight)).sum();
    assert!((total_weight - 1.0).abs() < 0.001);
}

fn field<'a>(v: &'a Value, key: &str) -> &'a Value {
    match v {
        Value::Object(m) => m.get(key).expect("field present"),
        _ => panic!("not an object"),
    }
}

#[test]
fn query_data_holds_entry_fields() {
    let result = query_taxonomy("LEVEL", "Diamond");
    assert_eq!(result.query_type, "compliance");
    assert_eq!(result.key, "Diamond");
    let data = result.data.unwrap();
    assert!(matches!(field(&data, "tier"), Value::Int(5)));
    assert!(matches!(field(&data, "min_score"), Value::Int(85)));
    match field(&data, "required_dirs") {
        Value::Array(a) => assert_eq!(a.len(), 3),
        _ => panic!("dirs are an array"),
    }
    let smst = query_taxonomy("component", "failure modes").data.unwrap();
    assert!(matches!(field(&smst, "name"), Value::String(s) if s == "FAILURE_MODES"));
    assert!(matches!(field(&smst, "weight"), Value::Float(b) if f64::from_bits(*b) == 0.125));
    let node = query_taxonomy("node", "ACTION").data.unwrap();
    assert!(matches!(field(&node, "terminal"), Value::Bool(true)));
    let cat = query_taxonomy("category", "text_processing");
    assert_eq!(cat.query_type, "category");
    assert!(cat.found);
}

#[test]
fn query_unknown_type_keeps_its_name() {
    let result = query_taxonomy("Colour", "red");
    assert_eq!(result.query_type, "Colour");
    assert!(result.data.is_none());
}

#[test]
fn list_every_taxonomy() {
    assert_eq!(list_taxonomy("categories").count, 10);
    let nodes = list_taxonomy("NODE_TYPES");
    assert_eq!(nodes.taxonomy_type, "node_type");
    assert_eq!(nodes.count, 5);
    assert!(matches!(field(&nodes.entries[0], "name"), Value::String(s) if s == "root"));
    let smst = list_taxonomy("components");
    assert!(matches!(field(&smst.entries[7], "name"), Value::String(s) if s == "TELEMETRY"));
}

#[test]
fn smst_value_renders_the_component_fields() {
    let c = rsk::taxonomy_query::SmstComponent {
        name: "EXTRA",
        required: false,
        weight: 0.5f64.to_bits(),
        description: "An optional part",
        format: "free text",
    };
    let v = rsk::taxonomy_query::smst_value(&c);
    match v {
        Value::Object(m) => {
            assert_eq!(m.get("name"), Some(&Value::String("EXTRA".to_string())));
            assert_eq!(m.get("required"), Some(&Value::Bool(false)));
            assert_eq!(m.get("weight"), Some(&Value::Float(0.5f64.to_bits())));
            assert_eq!(m.get("description"), Some(&Value::String("An optional part".to_string())));
            assert_eq!(m.get("format"), Some(&Value::String("free text".to_string())));
        }
        other => panic!("expected an object, got {:?}", other),
    }
}
