use rsk::engine::DecisionTree;
use rsk::microgram::{Microgram, PrimitiveSignature};
use rsk::signature_validator::{validate_chain_signatures, FindingSeverity};
use rsk::strmap::StrMap;

fn mg_with_sig(name: &str, dominant: &str) -> Microgram {
    Microgram {
        name: name.to_string(),
        description: String::new(),
        version: "0.1.0".to_string(),
        tree: DecisionTree { start: "x".to_string(), nodes: StrMap::new() },
        tests: vec![],
        interface: None,
        primitive_signature: Some(PrimitiveSignature {
            dominant: dominant.to_string(),
            expression: String::new(),
            primes: vec![],
            arguments: vec![],
            chain_prediction: None,
        }),
    }
}

#[test]
fn valid_chain_kappa_to_arrow_to_pi() {
    let chain = vec![
        mg_with_sig("prr-signal", "κ"),
        mg_with_sig("signal-bridge", "μ"),
        mg_with_sig("naranjo", "→"),
        mg_with_sig("action", "π"),
    ];
    let result = validate_chain_signatures("test-chain", &chain);
    assert!(result.valid, "Valid κ→μ→→→π chain should pass");
    assert!(result.handoff_complete);
    assert_eq!(result.signature_sequence, vec!["κ", "μ", "→", "π"]);
}

#[test]
fn invalid_chain_kappa_directly_to_pi() {
    let chain = vec![mg_with_sig("prr-signal", "κ"), mg_with_sig("action", "π")];
    let result = validate_chain_signatures("bad-chain", &chain);
    assert!(!result.valid, "κ→π without → should fail");
    assert!(result.findings.iter().any(|f| f.severity == FindingSeverity::Error));
}

#[test]
fn chain_missing_pi_is_info_not_error() {
    let chain = vec![
        mg_with_sig("prr-signal", "κ"),
        mg_with_sig("bridge", "μ"),
        mg_with_sig("naranjo", "→"),
    ];
    let result = validate_chain_signatures("partial-chain", &chain);
    assert!(result.valid, "Missing π is informational, not an error");
    assert!(!result.handoff_complete);
}

#[test]
fn chain_with_no_signatures_warns() {
    let mut mg = mg_with_sig("unknown", "κ");
    mg.primitive_signature = None;
    let chain = vec![mg];
    let result = validate_chain_signatures("no-sig", &chain);
    assert!(result.valid, "Missing signatures are warnings, not errors");
    assert!(result.findings.iter().any(|f| f.severity == FindingSeverity::Warning));
}

#[test]
fn kappa_then_pi_reports_bypass_and_jump() {
    let chain = vec![mg_with_sig("prr-signal", "κ"), mg_with_sig("action", "π")];
    let result = validate_chain_signatures("bad-chain", &chain);
    let errors: Vec<_> = result.findings.iter().filter(|f| f.severity == FindingSeverity::Error).collect();
    assert_eq!(errors.len(), 2);
    assert!(errors.iter().all(|f| f.step_index == 1 && f.step_name == "action"));
    assert_eq!(result.chain_name, "bad-chain");
}

#[test]
fn chain_ending_on_kappa_gets_terminal_info() {
    let chain = vec![mg_with_sig("prr-signal", "κ")];
    let result = validate_chain_signatures("open-chain", &chain);
    assert!(result.valid);
    assert!(result.findings.iter().any(|f| f.severity == FindingSeverity::Info && f.step_index == 0));
}

#[test]
fn arrow_before_kappa_does_not_restore() {
    let chain = vec![mg_with_sig("a", "→"), mg_with_sig("k", "κ"), mg_with_sig("m", "μ"), mg_with_sig("p", "π")];
    let result = validate_chain_signatures("late-kappa", &chain);
    assert!(!result.valid);
    assert!(result.findings.iter().any(|f| f.severity == FindingSeverity::Error && f.step_index == 3));
}

#[test]
fn mapping_step_is_no_terminal() {
    let chain = vec![mg_with_sig("a", "→"), mg_with_sig("m", "μ")];
    let result = validate_chain_signatures("ends-on-map", &chain);
    assert!(result.valid);
    assert!(result.findings.iter().any(|f| f.severity == FindingSeverity::Info && f.step_index == 1));
}
