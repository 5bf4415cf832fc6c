use rsk::microgram::{canonicalize_type, types_compatible};

#[test]
fn test_types_compatible() {
    assert!(types_compatible("int", "int"));
    assert!(types_compatible("int", "float"));
    assert!(types_compatible("float", "int"));
    assert!(types_compatible("string", "any"));
    assert!(!types_compatible("string", "int"));
    assert!(!types_compatible("bool", "string"));
}

#[test]
fn test_type_canonicalization() {
    assert!(types_compatible("bool", "boolean"));
    assert!(types_compatible("boolean", "bool"));
    assert!(types_compatible("int", "integer"));
    assert!(types_compatible("integer", "int"));
    assert!(types_compatible("float", "number"));
    assert!(types_compatible("int", "number"));
    assert!(types_compatible("number", "int"));
    assert!(types_compatible("number", "float"));
    assert!(!types_compatible("boolean", "integer"));
    assert!(!types_compatible("number", "string"));
}

#[test]
fn test_canonicalize_type() {
    assert_eq!(canonicalize_type("boolean"), "bool");
    assert_eq!(canonicalize_type("integer"), "int");
    assert_eq!(canonicalize_type("number"), "float");
    assert_eq!(canonicalize_type("string"), "string");
    assert_eq!(canonicalize_type("float"), "float");
    assert_eq!(canonicalize_type("unknown"), "unknown");
}
