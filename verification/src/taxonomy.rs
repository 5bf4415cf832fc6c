//! Static lookup tables: compliance levels, skill categories and decision
//! tree node types.
use vstd::prelude::*;
use crate::value::str_eq;
use crate::text::push_char;

verus! {

/// Views of a slice of string slices.
pub open spec fn strs_view(s: Seq<&str>) -> Seq<Seq<char>> {
    s.map_values(|x: &str| x@)
}

/// ASCII lowercase of one character; other characters are unchanged.
pub open spec fn ascii_lower_char(c: char) -> char {
    if 'A' <= c && c <= 'Z' {
        ((c as u32) + 32) as char
    } else {
        c
    }
}

/// Every character is ASCII.
pub open spec fn all_ascii(s: Seq<char>) -> bool {
    forall|i: int| 0 <= i < s.len() ==> (#[trigger] s[i] as u32) < 128
}

/// Name for what `str::to_lowercase` returns on a string.
pub uninterp spec fn str_lowercase(s: Seq<char>) -> Seq<char>;

/// `str::to_lowercase`: the Unicode lowercase of `s`. On ASCII text this is
/// the character-wise ASCII lowercase; beyond ASCII only the name is stated.
#[verifier::external_body]
pub(crate) fn to_lowercase(s: &str) -> (r: String)
    ensures
        r@ == str_lowercase(s@),
        all_ascii(s@) ==> r@ == s@.map_values(|c: char| ascii_lower_char(c)),
{
    s.to_lowercase()
}

// ─────────────────────────────── compliance levels ───────────────────────────────

/// Compliance level metadata.
#[derive(Debug, Clone, Copy)]
pub struct ComplianceLevel {
    /// Level name (Bronze, Silver, Gold, Platinum, Diamond).
    pub name: &'static str,
    /// Badge emoji.
    pub badge: &'static str,
    /// Numeric tier (1-5).
    pub tier: u8,
    /// Minimum SMST score required.
    pub min_score: u8,
    /// Required directories.
    pub required_dirs: &'static [&'static str],
    /// Required files.
    pub required_files: &'static [&'static str],
    /// Description.
    pub description: &'static str,
}

/// The plain contents of a compliance level.
pub struct LevelFields {
    pub name: Seq<char>,
    pub badge: Seq<char>,
    pub tier: u8,
    pub min_score: u8,
    pub required_dirs: Seq<Seq<char>>,
    pub required_files: Seq<Seq<char>>,
    pub description: Seq<char>,
}

impl ComplianceLevel {
    pub open spec fn fields(self) -> LevelFields {
        LevelFields {
            name: self.name@,
            badge: self.badge@,
            tier: self.tier,
            min_score: self.min_score,
            required_dirs: strs_view(self.required_dirs@),
            required_files: strs_view(self.required_files@),
            description: self.description@,
        }
    }
}

/// Tier of the compliance level keyed by `key`, 0 when there is none.
pub open spec fn compliance_tier(key: Seq<char>) -> u8 {
    if key == "bronze"@ {
        1
    } else if key == "silver"@ {
        2
    } else if key == "gold"@ {
        3
    } else if key == "platinum"@ {
        4
    } else if key == "diamond"@ {
        5
    } else {
        0
    }
}

/// The compliance level of tier `t` (1 to 5).
pub open spec fn level_of_tier(t: u8) -> LevelFields {
    let three = seq!["scripts"@, "references"@, "templates"@];
    let skill = seq!["SKILL.md"@];
    if t == 1 {
        LevelFields {
            name: "Bronze"@,
            badge: "\u{1F949}"@,
            tier: 1,
            min_score: 0,
            required_dirs: Seq::empty(),
            required_files: skill,
            description: "SKILL.md with valid YAML frontmatter"@,
        }
    } else if t == 2 {
        LevelFields {
            name: "Silver"@,
            badge: "\u{1F948}"@,
            tier: 2,
            min_score: 25,
            required_dirs: seq!["scripts"@],
            required_files: skill,
            description: "Bronze + scripts/ directory"@,
        }
    } else if t == 3 {
        LevelFields {
            name: "Gold"@,
            badge: "\u{1F947}"@,
            tier: 3,
            min_score: 50,
            required_dirs: three,
            required_files: skill,
            description: "Silver + references/ + templates/"@,
        }
    } else if t == 4 {
        LevelFields {
            name: "Platinum"@,
            badge: "\u{1F48E}"@,
            tier: 4,
            min_score: 70,
            required_dirs: three,
            required_files: skill,
            description: "Gold + functional tests pass"@,
        }
    } else {
        LevelFields {
            name: "Diamond"@,
            badge: "\u{1F4A0}"@,
            tier: 5,
            min_score: 85,
            required_dirs: three,
            required_files: skill,
            description: "Platinum + SMST score >= 85%"@,
        }
    }
}

const THREE_DIRS: [&'static str; 3] = ["scripts", "references", "templates"];

const SCRIPTS_DIR: [&'static str; 1] = ["scripts"];

const SKILL_FILE: [&'static str; 1] = ["SKILL.md"];

const NO_DIRS: [&'static str; 0] = [];

/// The compliance level of tier `t`.
pub fn level_for_tier(t: u8) -> (l: ComplianceLevel)
    requires
        1 <= t <= 5,
    ensures
        l.fields() == level_of_tier(t),
{
    let l = if t == 1 {
        ComplianceLevel {
            name: "Bronze",
            badge: "\u{1F949}",
            tier: 1,
            min_score: 0,
            required_dirs: &NO_DIRS,
            required_files: &SKILL_FILE,
            description: "SKILL.md with valid YAML frontmatter",
        }
    } else if t == 2 {
        ComplianceLevel {
            name: "Silver",
            badge: "\u{1F948}",
            tier: 2,
            min_score: 25,
            required_dirs: &SCRIPTS_DIR,
            required_files: &SKILL_FILE,
            description: "Bronze + scripts/ directory",
        }
    } else if t == 3 {
        ComplianceLevel {
            name: "Gold",
            badge: "\u{1F947}",
            tier: 3,
            min_score: 50,
            required_dirs: &THREE_DIRS,
            required_files: &SKILL_FILE,
            description: "Silver + references/ + templates/",
        }
    } else if t == 4 {
        ComplianceLevel {
            name: "Platinum",
            badge: "\u{1F48E}",
            tier: 4,
            min_score: 70,
            required_dirs: &THREE_DIRS,
            required_files: &SKILL_FILE,
            description: "Gold + functional tests pass",
        }
    } else {
        ComplianceLevel {
            name: "Diamond",
            badge: "\u{1F4A0}",
            tier: 5,
            min_score: 85,
            required_dirs: &THREE_DIRS,
            required_files: &SKILL_FILE,
            description: "Platinum + SMST score >= 85%",
        }
    };
    proof {
        assert(strs_view(l.required_dirs@) =~= level_of_tier(t).required_dirs);
        assert(strs_view(l.required_files@) =~= level_of_tier(t).required_files);
    }
    l
}


/// The ASCII lowercase of a text.
pub open spec fn ascii_lower(s: Seq<char>) -> Seq<char> {
    s.map_values(|c: char| ascii_lower_char(c))
}

proof fn lemma_level_names_lower()
    ensures
        ascii_lower("Bronze"@) == "bronze"@,
        ascii_lower("Silver"@) == "silver"@,
        ascii_lower("Gold"@) == "gold"@,
        ascii_lower("Platinum"@) == "platinum"@,
        ascii_lower("Diamond"@) == "diamond"@,
{
    reveal_strlit("Bronze");
    reveal_strlit("bronze");
    reveal_strlit("Silver");
    reveal_strlit("silver");
    reveal_strlit("Gold");
    reveal_strlit("gold");
    reveal_strlit("Platinum");
    reveal_strlit("platinum");
    reveal_strlit("Diamond");
    reveal_strlit("diamond");
    assert(ascii_lower("Bronze"@) =~= "bronze"@);
    assert(ascii_lower("Silver"@) =~= "silver"@);
    assert(ascii_lower("Gold"@) =~= "gold"@);
    assert(ascii_lower("Platinum"@) =~= "platinum"@);
    assert(ascii_lower("Diamond"@) =~= "diamond"@);
}

/// A compliance level is found by its own name and by no other: the level
/// a key finds has that key as its lowercased name and the tier the key
/// stands for, and every level (tiers 1 to 5) is found by its lowercased
/// name.
pub proof fn lemma_level_found_by_own_name(key: Seq<char>)
    ensures
        compliance_tier(key) != 0 ==> ascii_lower(level_of_tier(compliance_tier(key)).name) == key,
        compliance_tier(key) != 0 ==> level_of_tier(compliance_tier(key)).tier == compliance_tier(key),
        forall|t: u8| 1 <= t <= 5 ==> #[trigger] compliance_tier(ascii_lower(level_of_tier(t).name)) == t,
{
    lemma_level_names_lower();
    reveal_strlit("bronze");
    reveal_strlit("silver");
    reveal_strlit("gold");
    reveal_strlit("platinum");
    reveal_strlit("diamond");
    assert("bronze"@[0] != "silver"@[0] && "bronze"@[0] != "gold"@[0] && "bronze"@[0] != "platinum"@[0]
        && "bronze"@[0] != "diamond"@[0]);
    assert("silver"@[0] != "gold"@[0] && "silver"@[0] != "platinum"@[0] && "silver"@[0] != "diamond"@[0]);
    assert("gold"@[0] != "platinum"@[0] && "gold"@[0] != "diamond"@[0]);
    assert("platinum"@[0] != "diamond"@[0]);
}

/// Look a compliance level up by name, ignoring case.
pub fn lookup_compliance_level(name: &str) -> (r: Option<ComplianceLevel>)
    ensures
        match r {
            Some(l) => compliance_tier(str_lowercase(name@)) != 0
                && l.fields() == level_of_tier(compliance_tier(str_lowercase(name@))),
            None => compliance_tier(str_lowercase(name@)) == 0,
        },
        r matches Some(l) ==> ascii_lower(l.name@) == str_lowercase(name@),
{
    proof {
        lemma_level_found_by_own_name(str_lowercase(name@));
    }
    let key = to_lowercase(name);
    let k = key.as_str();
    proof {
        reveal_strlit("bronze");
        reveal_strlit("silver");
        reveal_strlit("gold");
        reveal_strlit("platinum");
        reveal_strlit("diamond");
    }
    let t: u8 = if str_eq(k, "bronze") {
        1
    } else if str_eq(k, "silver") {
        2
    } else if str_eq(k, "gold") {
        3
    } else if str_eq(k, "platinum") {
        4
    } else if str_eq(k, "diamond") {
        5
    } else {
        0
    };
    if t == 0 {
        None
    } else {
        Some(level_for_tier(t))
    }
}

/// All compliance levels, ordered by tier.
pub fn all_compliance_levels() -> (r: Vec<ComplianceLevel>)
    ensures
        r@.len() == 5,
        forall|i: int| 0 <= i < 5 ==> (#[trigger] r@[i]).fields() == level_of_tier((i + 1) as u8),
{
    let mut r: Vec<ComplianceLevel> = Vec::new();
    let mut t: u8 = 1;
    while t <= 5
        invariant
            1 <= t <= 6,
            r@.len() == t - 1,
            forall|i: int| 0 <= i < t - 1 ==> (#[trigger] r@[i]).fields() == level_of_tier((i + 1) as u8),
        decreases 6 - t,
    {
        r.push(level_for_tier(t));
        t = t + 1;
    }
    r
}

// ─────────────────────────────── skill categories ───────────────────────────────

/// Skill category metadata.
#[derive(Debug, Clone, Copy)]
pub struct SkillCategory {
    /// Category name.
    pub name: &'static str,
    /// Short description.
    pub description: &'static str,
    /// Example skills in this category.
    pub examples: &'static [&'static str],
    /// Whether this category has compute-intensive operations.
    pub compute_intensive: bool,
}

/// The plain contents of a skill category.
pub struct CategoryFields {
    pub name: Seq<char>,
    pub description: Seq<char>,
    pub examples: Seq<Seq<char>>,
    pub compute_intensive: bool,
}

impl SkillCategory {
    pub open spec fn fields(self) -> CategoryFields {
        CategoryFields {
            name: self.name@,
            description: self.description@,
            examples: strs_view(self.examples@),
            compute_intensive: self.compute_intensive,
        }
    }
}

/// Number of skill categories.
pub open spec fn category_count() -> int {
    10
}

/// The skill category at position `i` of the table.
pub open spec fn category_at(i: int) -> CategoryFields {
    if i == 0 {
        CategoryFields {
            name: "algorithms"@,
            description: "Computational algorithms and data structures"@,
            examples: seq!["binary-search"@, "topological-sort"@, "dijkstra"@, "kmp-search"@],
            compute_intensive: true,
        }
    } else if i == 1 {
        CategoryFields {
            name: "validation"@,
            description: "Input validation and schema checking"@,
            examples: seq!["smst-validator"@, "construct-validator"@, "schema-sync"@],
            compute_intensive: false,
        }
    } else if i == 2 {
        CategoryFields {
            name: "text-processing"@,
            description: "Text manipulation and parsing"@,
            examples: seq!["levenshtein"@, "text-compression"@, "lexicon-builder"@],
            compute_intensive: true,
        }
    } else if i == 3 {
        CategoryFields {
            name: "graph"@,
            description: "Graph algorithms and DAG operations"@,
            examples: seq!["cycle-detection"@, "critical-path"@, "level-parallelization"@],
            compute_intensive: true,
        }
    } else if i == 4 {
        CategoryFields {
            name: "security"@,
            description: "Security scanning and vulnerability detection"@,
            examples: seq!["security-scan"@, "trivy"@, "schemathesis"@],
            compute_intensive: false,
        }
    } else if i == 5 {
        CategoryFields {
            name: "code-generation"@,
            description: "Code scaffolding and generation"@,
            examples: seq!["skill-new"@, "sop-generator"@, "cli-scaffolder"@],
            compute_intensive: false,
        }
    } else if i == 6 {
        CategoryFields {
            name: "orchestration"@,
            description: "Workflow and pipeline orchestration"@,
            examples: seq!["chain-skills"@, "proceed"@, "ralphy-engine"@],
            compute_intensive: false,
        }
    } else if i == 7 {
        CategoryFields {
            name: "analysis"@,
            description: "Code and system analysis"@,
            examples: seq!["code-analysis"@, "anti-pattern-detector"@, "boundary-detector"@],
            compute_intensive: false,
        }
    } else if i == 8 {
        CategoryFields {
            name: "planning"@,
            description: "Project and strategy planning"@,
            examples: seq!["project-planning"@, "strategy-engine"@, "epic-optimizer"@],
            compute_intensive: false,
        }
    } else {
        CategoryFields {
            name: "documentation"@,
            description: "Documentation generation and management"@,
            examples: seq!["dev-docs"@, "doc-lookup"@, "api-documenter"@],
            compute_intensive: false,
        }
    }
}

const EX_ALGORITHMS: [&'static str; 4] = ["binary-search", "topological-sort", "dijkstra", "kmp-search"];

const EX_VALIDATION: [&'static str; 3] = ["smst-validator", "construct-validator", "schema-sync"];

const EX_TEXT: [&'static str; 3] = ["levenshtein", "text-compression", "lexicon-builder"];

const EX_GRAPH: [&'static str; 3] = ["cycle-detection", "critical-path", "level-parallelization"];

const EX_SECURITY: [&'static str; 3] = ["security-scan", "trivy", "schemathesis"];

const EX_CODEGEN: [&'static str; 3] = ["skill-new", "sop-generator", "cli-scaffolder"];

const EX_ORCHESTRATION: [&'static str; 3] = ["chain-skills", "proceed", "ralphy-engine"];

const EX_ANALYSIS: [&'static str; 3] = ["code-analysis", "anti-pattern-detector", "boundary-detector"];

const EX_PLANNING: [&'static str; 3] = ["project-planning", "strategy-engine", "epic-optimizer"];

const EX_DOCUMENTATION: [&'static str; 3] = ["dev-docs", "doc-lookup", "api-documenter"];

/// The skill category at position `i` of the table.
pub fn category_entry(i: usize) -> (c: SkillCategory)
    requires
        i < 10,
    ensures
        c.fields() == category_at(i as int),
{
    let c = if i == 0 {
        SkillCategory {
            name: "algorithms",
            description: "Computational algorithms and data structures",
            examples: &EX_ALGORITHMS,
            compute_intensive: true,
        }
    } else if i == 1 {
        SkillCategory {
            name: "validation",
            description: "Input validation and schema checking",
            examples: &EX_VALIDATION,
            compute_intensive: false,
        }
    } else if i == 2 {
        SkillCategory {
            name: "text-processing",
            description: "Text manipulation and parsing",
            examples: &EX_TEXT,
            compute_intensive: true,
        }
    } else if i == 3 {
        SkillCategory {
            name: "graph",
            description: "Graph algorithms and DAG operations",
            examples: &EX_GRAPH,
            compute_intensive: true,
        }
    } else if i == 4 {
        SkillCategory {
            name: "security",
            description: "Security scanning and vulnerability detection",
            examples: &EX_SECURITY,
            compute_intensive: false,
        }
    } else if i == 5 {
        SkillCategory {
            name: "code-generation",
            description: "Code scaffolding and generation",
            examples: &EX_CODEGEN,
            compute_intensive: false,
        }
    } else if i == 6 {
        SkillCategory {
            name: "orchestration",
            description: "Workflow and pipeline orchestration",
            examples: &EX_ORCHESTRATION,
            compute_intensive: false,
        }
    } else if i == 7 {
        SkillCategory {
            name: "analysis",
            description: "Code and system analysis",
            examples: &EX_ANALYSIS,
            compute_intensive: false,
        }
    } else if i == 8 {
        SkillCategory {
            name: "planning",
            description: "Project and strategy planning",
            examples: &EX_PLANNING,
            compute_intensive: false,
        }
    } else {
        SkillCategory {
            name: "documentation",
            description: "Documentation generation and management",
            examples: &EX_DOCUMENTATION,
            compute_intensive: false,
        }
    };
    proof {
        assert(strs_view(c.examples@) =~= category_at(i as int).examples);
    }
    c
}

/// `s` with every `_` replaced by `-`.
pub open spec fn underscores_to_hyphens(s: Seq<char>) -> Seq<char> {
    s.map_values(|c: char| if c == '_' { '-' } else { c })
}

/// A copy of `s` with every `_` replaced by `-`.
pub fn replace_underscores(s: &str) -> (r: String)
    ensures
        r@ == underscores_to_hyphens(s@),
{
    let n = s.unicode_len();
    let mut r = String::new();
    let mut i: usize = 0;
    while i < n
        invariant
            n == s@.len(),
            i <= n,
            r@ == underscores_to_hyphens(s@.subrange(0, i as int)),
        decreases n - i,
    {
        let c = s.get_char(i);
        let ghost before = r@;
        if c == '_' {
            push_char(&mut r, '-');
        } else {
            push_char(&mut r, c);
        }
        proof {
            assert(r@ =~= underscores_to_hyphens(s@.subrange(0, i + 1)));
        }
        i = i + 1;
    }
    proof {
        assert(s@.subrange(0, n as int) =~= s@);
    }
    r
}

/// Position in the category table of the category named `key`, -1 when
/// there is none.
pub open spec fn category_index(key: Seq<char>) -> int {
    if exists|i: int| 0 <= i < category_count() && (#[trigger] category_at(i)).name == key {
        choose|i: int| 0 <= i < category_count() && (#[trigger] category_at(i)).name == key
    } else {
        -1
    }
}

/// Category names are distinct.
pub proof fn lemma_category_names_distinct()
    ensures
        forall|i: int, j: int|
            0 <= i < category_count() && 0 <= j < category_count() && i != j ==> (#[trigger] category_at(i)).name
                != (#[trigger] category_at(j)).name,
{
    reveal_strlit("algorithms");
    reveal_strlit("validation");
    reveal_strlit("text-processing");
    reveal_strlit("graph");
    reveal_strlit("security");
    reveal_strlit("code-generation");
    reveal_strlit("orchestration");
    reveal_strlit("analysis");
    reveal_strlit("planning");
    reveal_strlit("documentation");
    assert forall|i: int, j: int|
        0 <= i < category_count() && 0 <= j < category_count() && i != j implies (#[trigger] category_at(i)).name
            != (#[trigger] category_at(j)).name by {
        let a = category_at(i).name;
        let b = category_at(j).name;
        if a == b {
            assert(a.len() == b.len());
            assert(a[0] == b[0]);
            assert(a[a.len() - 1] == b[b.len() - 1]);
        }
    }
}

/// Look a skill category up by name, ignoring case and treating `_` as `-`.
pub fn lookup_skill_category(name: &str) -> (r: Option<SkillCategory>)
    ensures
        ({
            let k = category_index(underscores_to_hyphens(str_lowercase(name@)));
            match r {
                Some(c) => k >= 0 && c.fields() == category_at(k),
                None => k == -1,
            }
        }),
{
    let lower = to_lowercase(name);
    let key = replace_underscores(lower.as_str());
    let ghost kv = underscores_to_hyphens(str_lowercase(name@));
    let mut i: usize = 0;
    while i < 10
        invariant
            key@ == kv,
            kv == underscores_to_hyphens(str_lowercase(name@)),
            i <= 10,
            forall|j: int| 0 <= j < i ==> (#[trigger] category_at(j)).name != kv,
        decreases 10 - i,
    {
        let c = category_entry(i);
        if str_eq(c.name, key.as_str()) {
            proof {
                lemma_category_names_distinct();
                assert(category_at(i as int).name == kv);
                assert(exists|w: int| 0 <= w < category_count() && (#[trigger] category_at(w)).name == kv);
                let w = choose|w: int| 0 <= w < category_count() && (#[trigger] category_at(w)).name == kv;
                assert(0 <= w < category_count() && category_at(w).name == kv);
                assert(w == i);
            }
            return Some(c);
        }
        i = i + 1;
    }
    None
}

/// All skill categories, in table order.
pub fn all_skill_categories() -> (r: Vec<SkillCategory>)
    ensures
        r@.len() == category_count(),
        forall|i: int| 0 <= i < category_count() ==> (#[trigger] r@[i]).fields() == category_at(i),
{
    let mut r: Vec<SkillCategory> = Vec::new();
    let mut i: usize = 0;
    while i < 10
        invariant
            i <= 10,
            r@.len() == i,
            forall|j: int| 0 <= j < i ==> (#[trigger] r@[j]).fields() == category_at(j),
        decreases 10 - i,
    {
        r.push(category_entry(i));
        i = i + 1;
    }
    r
}

/// Table positions of the compute-intensive categories among the first `n`.
pub open spec fn compute_positions(n: int) -> Seq<int>
    decreases n,
{
    if n <= 0 {
        Seq::empty()
    } else {
        let prev = compute_positions(n - 1);
        if category_at(n - 1).compute_intensive {
            prev.push(n - 1)
        } else {
            prev
        }
    }
}

/// The compute-intensive categories (candidates for native delegation), in
/// table order.
pub fn compute_intensive_categories() -> (r: Vec<SkillCategory>)
    ensures
        r@.len() == compute_positions(category_count()).len(),
        forall|i: int| 0 <= i < r@.len() ==> (#[trigger] r@[i]).fields() == category_at(compute_positions(category_count())[i]),
{
    let mut r: Vec<SkillCategory> = Vec::new();
    let mut i: usize = 0;
    while i < 10
        invariant
            i <= 10,
            r@.len() == compute_positions(i as int).len(),
            forall|j: int| 0 <= j < r@.len() ==> (#[trigger] r@[j]).fields() == category_at(compute_positions(i as int)[j]),
        decreases 10 - i,
    {
        let c = category_entry(i);
        if c.compute_intensive {
            r.push(c);
        }
        i = i + 1;
    }
    r
}

// ─────────────────────────────── node types ───────────────────────────────

/// Decision tree node type metadata.
#[derive(Debug, Clone, Copy)]
pub struct NodeType {
    /// Node type name.
    pub name: &'static str,
    /// Whether this is a terminal (leaf) node.
    pub terminal: bool,
    /// Description.
    pub description: &'static str,
}

/// The node type keyed by `key`, as (name, terminal, description).
pub open spec fn node_type_of(key: Seq<char>) -> Option<(Seq<char>, bool, Seq<char>)> {
    if key == "root"@ {
        Some(("root"@, false, "Entry point of decision tree"@))
    } else if key == "decision"@ {
        Some(("decision"@, false, "Branch node with condition"@))
    } else if key == "action"@ {
        Some(("action"@, true, "Terminal node with action to take"@))
    } else if key == "delegate"@ {
        Some(("delegate"@, true, "Terminal node delegating to another skill"@))
    } else if key == "error"@ {
        Some(("error"@, true, "Terminal error/failure node"@))
    } else {
        None
    }
}

/// A node type is found by its own name: the type a key finds is named by
/// that key, and only roots and decisions are not terminal.
pub proof fn lemma_node_type_found_by_own_name(key: Seq<char>)
    ensures
        node_type_of(key) matches Some(e) ==> e.0 == key,
        node_type_of(key) matches Some(e) ==> (e.1 <==> key != "root"@ && key != "decision"@),
{
    reveal_strlit("root");
    reveal_strlit("decision");
    reveal_strlit("action");
    reveal_strlit("delegate");
    reveal_strlit("error");
    assert("root"@[0] != "decision"@[0] && "root"@[0] != "action"@[0] && "root"@[0] != "delegate"@[0]
        && "root"@[0] != "error"@[0]);
    assert("decision"@[2] != "delegate"@[2]);
    assert("action"@[0] != "decision"@[0] && "error"@[0] != "decision"@[0]);
}

/// Look a decision tree node type up by name, ignoring case.
pub fn lookup_node_type(name: &str) -> (r: Option<NodeType>)
    ensures
        match (r, node_type_of(str_lowercase(name@))) {
            (Some(n), Some(e)) => (n.name@, n.terminal, n.description@) == e,
            (None, None) => true,
            _ => false,
        },
        r matches Some(n) ==> n.name@ == str_lowercase(name@),
{
    proof {
        lemma_node_type_found_by_own_name(str_lowercase(name@));
    }
    let key = to_lowercase(name);
    let k = key.as_str();
    proof {
        reveal_strlit("root");
        reveal_strlit("decision");
        reveal_strlit("action");
        reveal_strlit("delegate");
        reveal_strlit("error");
    }
    if str_eq(k, "root") {
        Some(NodeType { name: "root", terminal: false, description: "Entry point of decision tree" })
    } else if str_eq(k, "decision") {
        Some(NodeType { name: "decision", terminal: false, description: "Branch node with condition" })
    } else if str_eq(k, "action") {
        Some(NodeType { name: "action", terminal: true, description: "Terminal node with action to take" })
    } else if str_eq(k, "delegate") {
        Some(
            NodeType {
                name: "delegate",
                terminal: true,
                description: "Terminal node delegating to another skill",
            },
        )
    } else if str_eq(k, "error") {
        Some(NodeType { name: "error", terminal: true, description: "Terminal error/failure node" })
    } else {
        None
    }
}

/// Compliance tiers are distinct and minimum scores do not decrease with
/// the tier.
pub proof fn lemma_compliance_levels_ordered(i: int, j: int)
    requires
        0 <= i < j < 5,
    ensures
        level_of_tier((i + 1) as u8).tier < level_of_tier((j + 1) as u8).tier,
        level_of_tier((i + 1) as u8).min_score <= level_of_tier((j + 1) as u8).min_score,
{
}

} // verus!
