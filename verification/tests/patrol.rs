use rsk::patrol::{
    count_references, extract_pub_functions, patrol_report, split_lines, strip_test_blocks, trim_text, PatrolVerdict,
    Ring, SymbolClass,
};

fn names(v: &[&str]) -> Vec<String> {
    v.iter().map(|x| x.to_string()).collect()
}

#[test]
fn split_lines_matches_str_lines() {
    for text in ["", "a", "a\n", "a\r\nb", "a\n\nb\n", "x\r", "\n", "one\ntwo\r\nthree"] {
        let expected: Vec<String> = text.lines().map(|l| l.to_string()).collect();
        assert_eq!(split_lines(text), expected, "{:?}", text);
    }
}

#[test]
fn trim_matches_str_trim() {
    for text in ["", "  a  ", "\t x \n", "\u{a0}y\u{3000}", "plain", " \u{2003} "] {
        assert_eq!(trim_text(text), text.trim(), "{:?}", text);
    }
}

#[test]
fn extract_pub_functions_skips_methods() {
    let source = "pub fn alpha(x: i32) {}\n    pub fn beta<T>() {}\n    pub fn method(&self) {}\nfn private() {}\npub fn gamma ()\npub fn (\n";
    assert_eq!(extract_pub_functions(source), names(&["alpha", "beta", "gamma"]));
}

#[test]
fn count_references_counts_whole_words() {
    assert_eq!(count_references("run run_patrol run(x) xrun run", "run"), 3);
    assert_eq!(count_references("abcabc", "abc"), 0);
    assert_eq!(count_references("a-b a_b", "a"), 1);
    assert_eq!(count_references("aaaa", "aa"), 0);
    assert_eq!(count_references("", "x"), 0);
}

#[test]
fn strip_test_blocks_drops_test_modules() {
    let content = "fn a() {}\n#[cfg(test)]\nmod tests {\n    fn t() { b(); }\n}\nfn c() {}\n";
    assert_eq!(strip_test_blocks(content), "fn a() {}\nfn c() {}\n");
}

#[test]
fn strip_test_blocks_keeps_other_cfg_lines() {
    let content = "#[cfg(test)]\nfn helper() {}\nfn d() {}";
    assert_eq!(strip_test_blocks(content), "fn helper() {}\nfn d() {}\n");
}

#[test]
fn patrol_report_classifies_and_counts() {
    let pub_fns = names(&["zeta", "alpha", "beta", "gamma", "alpha"]);
    let mod_content = "pub use x::{alpha, beta, gamma, zeta};";
    let ring1 = "fn f() { beta(); }";
    let ring2 = "fn g() { alpha(); }";
    let features = names(&["alpha", "zeta", "old_feature"]);
    let library = names(&["beta", "stale_lib", "beta"]);
    let r = patrol_report(&pub_fns, mod_content, ring1, ring2, &features, &library);
    let syms: Vec<&str> = r.findings.iter().map(|f| f.symbol.as_str()).collect();
    assert_eq!(syms, vec!["alpha", "beta", "gamma", "zeta", "old_feature", "stale_lib"]);
    assert_eq!(r.findings[0].actual_ring, Ring::Ring2);
    assert_eq!(r.findings[0].verdict, PatrolVerdict::Passed);
    assert_eq!(r.findings[1].classification, SymbolClass::Library);
    assert_eq!(r.findings[1].verdict, PatrolVerdict::Passed);
    assert_eq!(r.findings[2].verdict, PatrolVerdict::Unclassified);
    assert_eq!(r.findings[3].expected_ring, Ring::Ring2);
    assert_eq!(r.findings[3].verdict, PatrolVerdict::Unwired);
    assert_eq!(r.findings[4].verdict, PatrolVerdict::StaleConfig);
    assert_eq!(r.findings[4].classification, SymbolClass::Feature);
    assert_eq!(r.findings[5].classification, SymbolClass::Library);
    assert_eq!(r.ok, 2);
    assert_eq!(r.unwired, 1);
    assert_eq!(r.unclassified, 1);
    assert_eq!(r.stale, 2);
    assert_eq!(r.total_symbols, 6);
    assert!(!r.clean);
}

#[test]
fn patrol_report_clean_when_everything_reaches_its_ring() {
    let pub_fns = names(&["run"]);
    let r = patrol_report(&pub_fns, "pub use a::run;", "", "run()", &names(&["run"]), &names(&[]));
    assert!(r.clean);
    assert_eq!(r.total_symbols, 1);
    assert!(Ring::Ring1 < Ring::Ring2);
}

#[test]
fn test_patrol_runs_on_codebase() {
    // A small module: two files of public functions, a root that re-exports
    // them, a sibling that uses the library one, a command handler that uses
    // the features, and a configuration that classifies all of them.
    let chain_rs = "pub fn chain(x: i32) -> i32 { x }\npub fn chain_by_names() {}\nfn helper() {}\n";
    let shrink_rs = "pub fn shrink() {}\n    pub fn method(&self) {}\n";
    let mut pub_fns = extract_pub_functions(chain_rs);
    pub_fns.extend(extract_pub_functions(shrink_rs));
    let mod_content = "pub use chain::{chain, chain_by_names};\npub use shrink::shrink;\n";
    let ring1 = strip_test_blocks("fn stress() { shrink(); }\n#[cfg(test)]\nmod tests {\n    fn t() { chain(); }\n}\n");
    let ring2 = "fn cmd() { chain(1); chain_by_names(); }";
    let features = names(&["chain", "chain_by_names"]);
    let library = names(&["shrink"]);
    let report = patrol_report(&pub_fns, mod_content, &ring1, ring2, &features, &library);

    assert!(report.total_symbols > 0, "Should find pub functions");
    assert_eq!(report.unclassified, 0, "All re-exported symbols should be classified");
    for finding in &report.findings {
        match finding.verdict {
            PatrolVerdict::Passed => {}
            PatrolVerdict::Unwired => assert!(finding.actual_ring < finding.expected_ring),
            PatrolVerdict::Unclassified => assert_eq!(finding.classification, SymbolClass::Unclassified),
            PatrolVerdict::StaleConfig => panic!("Stale config entry '{}'", finding.symbol),
        }
    }
    assert_eq!(report.stale, 0, "the configuration should not contain stale entries");
    assert_eq!(report.total_symbols, 3);
    assert!(report.clean);
}
