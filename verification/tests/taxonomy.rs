use rsk::taxonomy::{
    all_compliance_levels, compute_intensive_categories, lookup_compliance_level, lookup_node_type,
    lookup_skill_category,
};

#[test]
fn test_lookup_compliance_level_diamond() {
    let level = lookup_compliance_level("diamond").unwrap();
    assert_eq!(level.name, "Diamond");
    assert_eq!(level.tier, 5);
    assert_eq!(level.min_score, 85);
}

#[test]
fn test_lookup_compliance_level_case_insensitive() {
    let level1 = lookup_compliance_level("DIAMOND").unwrap();
    let level2 = lookup_compliance_level("Diamond").unwrap();
    let level3 = lookup_compliance_level("diamond").unwrap();
    assert_eq!(level1.tier, level2.tier);
    assert_eq!(level2.tier, level3.tier);
}

#[test]
fn test_all_compliance_levels_ordered() {
    let levels = all_compliance_levels();
    assert_eq!(levels.len(), 5);
    assert_eq!(levels[0].name, "Bronze");
    assert_eq!(levels[4].name, "Diamond");
}

#[test]
fn test_lookup_skill_category() {
    let category = lookup_skill_category("algorithms").unwrap();
    assert!(category.compute_intensive);
    assert!(!category.examples.is_empty());
}

#[test]
fn test_compute_intensive_categories() {
    let compute = compute_intensive_categories();
    assert!(compute.len() >= 3);
    assert!(compute.iter().all(|c| c.compute_intensive));
}

#[test]
fn test_lookup_node_type() {
    let root = lookup_node_type("root").unwrap();
    assert!(!root.terminal);

    let action = lookup_node_type("action").unwrap();
    assert!(action.terminal);
}

#[test]
fn test_lookup_nonexistent_compliance_level() {
    assert!(lookup_compliance_level("mythril").is_none());
}

#[test]
fn test_lookup_nonexistent_category() {
    assert!(lookup_skill_category("nonexistent").is_none());
}

#[test]
fn test_compliance_tiers_unique() {
    let levels = all_compliance_levels();
    let tiers: Vec<u8> = levels.iter().map(|l| l.tier).collect();
    let unique_tiers: std::collections::HashSet<u8> = tiers.iter().cloned().collect();
    assert_eq!(tiers.len(), unique_tiers.len());
}

#[test]
fn test_compliance_scores_increasing() {
    let levels = all_compliance_levels();
    for i in 1..levels.len() {
        assert!(levels[i].min_score >= levels[i - 1].min_score);
    }
}

#[test]
fn lookup_empty_name_finds_nothing() {
    assert!(lookup_compliance_level("").is_none());
    assert!(lookup_skill_category("").is_none());
    assert!(lookup_node_type("").is_none());
}

#[test]
fn lookup_skill_category_accepts_underscores_and_case() {
    let a = lookup_skill_category("text_processing").unwrap();
    let b = lookup_skill_category("TEXT-PROCESSING").unwrap();
    assert_eq!(a.name, b.name);
}
