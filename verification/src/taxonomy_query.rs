//! SMST components, and queries over every taxonomy that answer with values.
use vstd::prelude::*;
use crate::taxonomy::{
    ascii_lower_char, all_ascii, all_compliance_levels, all_skill_categories, category_at, category_count,
    category_index, compliance_tier, level_of_tier, lookup_compliance_level, lookup_node_type, lookup_skill_category,
    node_type_of, str_lowercase, strs_view, to_lowercase, underscores_to_hyphens, CategoryFields, ComplianceLevel,
    LevelFields, NodeType, SkillCategory,
};
use crate::text::push_char;
use crate::value::{float_key, str_eq, values_model, FieldMap, Value, ValueModel};

verus! {

// ─────────────────────────────── SMST components ───────────────────────────────

/// Name for what `str::to_uppercase` returns on a string.
pub uninterp spec fn str_uppercase(s: Seq<char>) -> Seq<char>;

/// ASCII uppercase of one character; other characters are unchanged.
pub open spec fn ascii_upper_char(c: char) -> char {
    if 'a' <= c && c <= 'z' {
        ((c as u32) - 32) as char
    } else {
        c
    }
}

/// `str::to_uppercase`: the Unicode uppercase of `s`. On ASCII text this is
/// the character-wise ASCII uppercase; beyond ASCII only the name is stated.
#[verifier::external_body]
pub(crate) fn to_uppercase(s: &str) -> (r: String)
    ensures
        r@ == str_uppercase(s@),
        all_ascii(s@) ==> r@ == s@.map_values(|c: char| ascii_upper_char(c)),
{
    s.to_uppercase()
}

/// SMST component metadata.
#[derive(Debug, Clone, Copy)]
pub struct SmstComponent {
    /// Component name (INPUTS, OUTPUTS, ...).
    pub name: &'static str,
    /// Whether the component is required.
    pub required: bool,
    /// Weight in SMST scoring, as the IEEE-754 binary64 bit pattern of the
    /// number (`f64::to_bits`).
    pub weight: u64,
    pub description: &'static str,
    /// Expected content format.
    pub format: &'static str,
}

/// Bit pattern of 0.125, the weight of every component.
pub open spec fn eighth_bits() -> u64 {
    0x3FC0_0000_0000_0000u64
}

/// Number of SMST components.
pub open spec fn smst_count() -> int {
    8
}

/// The SMST component at position `i` of the table, as (name, description,
/// format); every component is required and weighs 0.125.
pub open spec fn smst_at(i: int) -> (Seq<char>, Seq<char>, Seq<char>) {
    if i == 0 {
        ("INPUTS"@, "Input parameters and their types"@, "name: type — description"@)
    } else if i == 1 {
        ("OUTPUTS"@, "Output values and their types"@, "name: type — description"@)
    } else if i == 2 {
        ("STATE"@, "Internal state variables"@, "name: type — description"@)
    } else if i == 3 {
        ("OPERATOR_MODE"@, "Behavioral modes (STANDARD, CAUTIOUS, AGGRESSIVE)"@, "MODE: description"@)
    } else if i == 4 {
        ("PERFORMANCE"@, "Computational complexity and resource bounds"@, "TIME: O(n), SPACE: O(n), MEMORY: limit"@)
    } else if i == 5 {
        ("INVARIANTS"@, "Conditions that must always hold"@, "- description"@)
    } else if i == 6 {
        ("FAILURE_MODES"@, "Known failure conditions and responses"@, "CONDITION → RESPONSE [SEVERITY]"@)
    } else {
        ("TELEMETRY"@, "Metrics and observability points"@, "metric_name: type — description"@)
    }
}

impl SmstComponent {
    /// This component is the table's entry `i`.
    pub open spec fn is_entry(self, i: int) -> bool {
        &&& (self.name@, self.description@, self.format@) == smst_at(i)
        &&& self.required
        &&& self.weight == eighth_bits()
    }
}

/// The SMST component at position `i` of the table (below 8).
pub fn smst_entry(i: usize) -> (c: SmstComponent)
    requires
        i < 8,
    ensures
        c.is_entry(i as int),
{
    let (name, description, format) = if i == 0 {
        ("INPUTS", "Input parameters and their types", "name: type — description")
    } else if i == 1 {
        ("OUTPUTS", "Output values and their types", "name: type — description")
    } else if i == 2 {
        ("STATE", "Internal state variables", "name: type — description")
    } else if i == 3 {
        ("OPERATOR_MODE", "Behavioral modes (STANDARD, CAUTIOUS, AGGRESSIVE)", "MODE: description")
    } else if i == 4 {
        ("PERFORMANCE", "Computational complexity and resource bounds", "TIME: O(n), SPACE: O(n), MEMORY: limit")
    } else if i == 5 {
        ("INVARIANTS", "Conditions that must always hold", "- description")
    } else if i == 6 {
        ("FAILURE_MODES", "Known failure conditions and responses", "CONDITION → RESPONSE [SEVERITY]")
    } else {
        ("TELEMETRY", "Metrics and observability points", "metric_name: type — description")
    };
    SmstComponent { name, required: true, weight: 0x3FC0_0000_0000_0000u64, description, format }
}

/// Component names are distinct.
proof fn lemma_smst_names_distinct()
    ensures
        forall|i: int, j: int|
            0 <= i < smst_count() && 0 <= j < smst_count() && i != j ==> (#[trigger] smst_at(i)).0
                != (#[trigger] smst_at(j)).0,
{
    reveal_strlit("INPUTS");
    reveal_strlit("OUTPUTS");
    reveal_strlit("STATE");
    reveal_strlit("OPERATOR_MODE");
    reveal_strlit("PERFORMANCE");
    reveal_strlit("INVARIANTS");
    reveal_strlit("FAILURE_MODES");
    reveal_strlit("TELEMETRY");
    assert forall|i: int, j: int|
        0 <= i < smst_count() && 0 <= j < smst_count() && i != j implies (#[trigger] smst_at(i)).0
            != (#[trigger] smst_at(j)).0 by {
        let a = smst_at(i).0;
        let b = smst_at(j).0;
        if a == b {
            assert(a.len() == b.len());
            assert(a[0] == b[0]);
            assert(a[1] == b[1]);
        }
    }
}

/// `s` with every space and hyphen replaced by `_`.
pub open spec fn smst_key(s: Seq<char>) -> Seq<char> {
    s.map_values(|c: char| if c == ' ' || c == '-' { '_' } else { c })
}

/// Position of the component named `key`, -1 when there is none.
pub open spec fn smst_index(key: Seq<char>) -> int {
    if exists|i: int| 0 <= i < smst_count() && (#[trigger] smst_at(i)).0 == key {
        choose|i: int| 0 <= i < smst_count() && (#[trigger] smst_at(i)).0 == key
    } else {
        -1
    }
}

fn normalize_smst(s: &str) -> (r: String)
    ensures
        r@ == smst_key(s@),
{
    let n = s.unicode_len();
    let mut r = String::new();
    let mut i: usize = 0;
    while i < n
        invariant
            n == s@.len(),
            i <= n,
            r@ == smst_key(s@.subrange(0, i as int)),
        decreases n - i,
    {
        let c = s.get_char(i);
        if c == ' ' || c == '-' {
            push_char(&mut r, '_');
        } else {
            push_char(&mut r, c);
        }
        proof {
            assert(r@ =~= smst_key(s@.subrange(0, i + 1)));
        }
        i = i + 1;
    }
    proof {
        assert(s@.subrange(0, n as int) =~= s@);
    }
    r
}

/// Look an SMST component up by name, ignoring case and treating spaces and
/// hyphens as underscores.
pub fn lookup_smst_component(name: &str) -> (r: Option<SmstComponent>)
    ensures
        ({
            let k = smst_index(smst_key(str_uppercase(name@)));
            match r {
                Some(c) => k >= 0 && c.is_entry(k),
                None => k == -1,
            }
        }),
{
    let upper = to_uppercase(name);
    let key = normalize_smst(upper.as_str());
    let ghost kv = smst_key(str_uppercase(name@));
    let mut i: usize = 0;
    while i < 8
        invariant
            key@ == kv,
            kv == smst_key(str_uppercase(name@)),
            i <= 8,
            forall|j: int| 0 <= j < i ==> (#[trigger] smst_at(j)).0 != kv,
        decreases 8 - i,
    {
        let c = smst_entry(i);
        if str_eq(c.name, key.as_str()) {
            proof {
                lemma_smst_names_distinct();
                assert(smst_at(i as int).0 == kv);
                assert(exists|w: int| 0 <= w < smst_count() && (#[trigger] smst_at(w)).0 == kv);
                let w = choose|w: int| 0 <= w < smst_count() && (#[trigger] smst_at(w)).0 == kv;
                assert(w == i);
            }
            return Some(c);
        }
        i = i + 1;
    }
    None
}

/// Every SMST component, in table order.
pub fn all_smst_components() -> (r: Vec<SmstComponent>)
    ensures
        r@.len() == smst_count(),
        forall|i: int| 0 <= i < smst_count() ==> (#[trigger] r@[i]).is_entry(i),
{
    let mut r: Vec<SmstComponent> = Vec::new();
    let mut i: usize = 0;
    while i < 8
        invariant
            i <= 8,
            r@.len() == i,
            forall|j: int| 0 <= j < i ==> (#[trigger] r@[j]).is_entry(j),
        decreases 8 - i,
    {
        r.push(smst_entry(i));
        i = i + 1;
    }
    r
}

/// The required SMST components, in table order (every component is).
pub fn required_smst_components() -> (r: Vec<SmstComponent>)
    ensures
        r@.len() == smst_count(),
        forall|i: int| 0 <= i < r@.len() ==> (#[trigger] r@[i]).required && r@[i].is_entry(i),
{
    let all = all_smst_components();
    let mut r: Vec<SmstComponent> = Vec::new();
    let mut i: usize = 0;
    while i < all.len()
        invariant
            all@.len() == 8,
            forall|j: int| 0 <= j < 8 ==> (#[trigger] all@[j]).is_entry(j),
            i <= 8,
            r@.len() == i,
            forall|j: int| 0 <= j < i ==> (#[trigger] r@[j]).required && r@[j].is_entry(j),
        decreases 8 - i,
    {
        if all[i].required {
            r.push(all[i]);
        }
        i = i + 1;
    }
    r
}

// ─────────────────────────────── entries as values ───────────────────────────────

/// A list of texts as an array value.
pub open spec fn texts_model(s: Seq<Seq<char>>) -> ValueModel {
    ValueModel::Array(s.map_values(|x: Seq<char>| ValueModel::Str(x)))
}

/// A compliance level as an object: its seven fields under their names.
pub open spec fn level_model(l: LevelFields) -> ValueModel {
    ValueModel::Object(
        Map::empty().insert("name"@, ValueModel::Str(l.name)).insert("badge"@, ValueModel::Str(l.badge)).insert(
            "tier"@,
            ValueModel::Int(l.tier as int),
        ).insert("min_score"@, ValueModel::Int(l.min_score as int)).insert(
            "required_dirs"@,
            texts_model(l.required_dirs),
        ).insert("required_files"@, texts_model(l.required_files)).insert(
            "description"@,
            ValueModel::Str(l.description),
        ),
    )
}

/// The fields of SMST component `i`: name, required, weight (as bits),
/// description and format.
pub open spec fn smst_fields(i: int) -> (Seq<char>, bool, u64, Seq<char>, Seq<char>) {
    (smst_at(i).0, true, eighth_bits(), smst_at(i).1, smst_at(i).2)
}

/// An SMST component, given by its name, required flag, weight (as bits),
/// description and format, as an object.
pub open spec fn smst_model(c: (Seq<char>, bool, u64, Seq<char>, Seq<char>)) -> ValueModel {
    ValueModel::Object(
        Map::empty().insert("name"@, ValueModel::Str(c.0)).insert("required"@, ValueModel::Bool(c.1)).insert(
            "weight"@,
            ValueModel::Float(float_key(c.2)),
        ).insert("description"@, ValueModel::Str(c.3)).insert("format"@, ValueModel::Str(c.4)),
    )
}

/// A skill category as an object.
pub open spec fn category_model(c: CategoryFields) -> ValueModel {
    ValueModel::Object(
        Map::empty().insert("name"@, ValueModel::Str(c.name)).insert("description"@, ValueModel::Str(c.description)).insert(
            "examples"@,
            texts_model(c.examples),
        ).insert("compute_intensive"@, ValueModel::Bool(c.compute_intensive)),
    )
}

/// A node type as an object.
pub open spec fn node_model(n: (Seq<char>, bool, Seq<char>)) -> ValueModel {
    ValueModel::Object(
        Map::empty().insert("name"@, ValueModel::Str(n.0)).insert("terminal"@, ValueModel::Bool(n.1)).insert(
            "description"@,
            ValueModel::Str(n.2),
        ),
    )
}

proof fn lemma_values_model_push(s: Seq<Value>, v: Value)
    ensures
        values_model(s.push(v)) == values_model(s).push(v.model()),
{
    assert(s.push(v).drop_last() =~= s);
}

fn texts_value(s: &[&str]) -> (r: Value)
    ensures
        r.model() == texts_model(strs_view(s@)),
{
    let mut v: Vec<Value> = Vec::new();
    let mut i: usize = 0;
    while i < s.len()
        invariant
            i <= s@.len(),
            values_model(v@) =~= strs_view(s@).take(i as int).map_values(|x: Seq<char>| ValueModel::Str(x)),
        decreases s@.len() - i,
    {
        let item = Value::String(String::from_str(s[i]));
        proof {
            lemma_values_model_push(v@, item);
        }
        v.push(item);
        proof {
            assert(strs_view(s@).take(i + 1) =~= strs_view(s@).take(i as int).push(s@[i as int]@));
        }
        i = i + 1;
    }
    proof {
        assert(strs_view(s@).take(s@.len() as int) =~= strs_view(s@));
    }
    Value::Array(v)
}

fn text_value(s: &str) -> (r: Value)
    ensures
        r.model() == ValueModel::Str(s@),
{
    Value::String(String::from_str(s))
}

/// A compliance level as a value.
pub fn level_value(l: &ComplianceLevel) -> (r: Value)
    ensures
        r.model() == level_model(l.fields()),
{
    let mut m = FieldMap::new();
    m.insert(String::from_str("name"), text_value(l.name));
    m.insert(String::from_str("badge"), text_value(l.badge));
    m.insert(String::from_str("tier"), Value::Int(l.tier as i64));
    m.insert(String::from_str("min_score"), Value::Int(l.min_score as i64));
    m.insert(String::from_str("required_dirs"), texts_value(l.required_dirs));
    m.insert(String::from_str("required_files"), texts_value(l.required_files));
    m.insert(String::from_str("description"), text_value(l.description));
    Value::Object(m)
}

/// An SMST component as a value.
pub fn smst_value(c: &SmstComponent) -> (r: Value)
    ensures
        r.model() == smst_model((c.name@, c.required, c.weight, c.description@, c.format@)),
{
    let mut m = FieldMap::new();
    m.insert(String::from_str("name"), text_value(c.name));
    m.insert(String::from_str("required"), Value::Bool(c.required));
    m.insert(String::from_str("weight"), Value::Float(c.weight));
    m.insert(String::from_str("description"), text_value(c.description));
    m.insert(String::from_str("format"), text_value(c.format));
    Value::Object(m)
}

/// A skill category as a value.
pub fn category_value(c: &SkillCategory) -> (r: Value)
    ensures
        r.model() == category_model(c.fields()),
{
    let mut m = FieldMap::new();
    m.insert(String::from_str("name"), text_value(c.name));
    m.insert(String::from_str("description"), text_value(c.description));
    m.insert(String::from_str("examples"), texts_value(c.examples));
    m.insert(String::from_str("compute_intensive"), Value::Bool(c.compute_intensive));
    Value::Object(m)
}

/// A node type as a value.
pub fn node_value(n: &NodeType) -> (r: Value)
    ensures
        r.model() == node_model((n.name@, n.terminal, n.description@)),
{
    let mut m = FieldMap::new();
    m.insert(String::from_str("name"), text_value(n.name));
    m.insert(String::from_str("terminal"), Value::Bool(n.terminal));
    m.insert(String::from_str("description"), text_value(n.description));
    Value::Object(m)
}

// ─────────────────────────────── queries ───────────────────────────────

/// Result of a taxonomy query.
#[derive(Debug)]
pub struct TaxonomyQueryResult {
    /// Query type (compliance, smst, category, node_type).
    pub query_type: String,
    pub key: String,
    pub found: bool,
    /// The entry found, as a value.
    pub data: Option<Value>,
}

/// Which taxonomy a (lowercased) query type names: 1 compliance levels,
/// 2 SMST components, 3 skill categories, 4 node types, 0 none.
pub open spec fn taxonomy_kind(t: Seq<char>) -> int {
    if t == "compliance"@ || t == "level"@ {
        1
    } else if t == "smst"@ || t == "component"@ {
        2
    } else if t == "category"@ {
        3
    } else if t == "node"@ || t == "node_type"@ {
        4
    } else {
        0
    }
}

/// The data of a query of kind `kind` for `key`, `None` when nothing is found.
pub open spec fn query_data(kind: int, key: Seq<char>) -> Option<ValueModel> {
    if kind == 1 {
        let t = compliance_tier(str_lowercase(key));
        if t != 0 {
            Some(level_model(level_of_tier(t)))
        } else {
            None
        }
    } else if kind == 2 {
        let k = smst_index(smst_key(str_uppercase(key)));
        if k >= 0 {
            Some(smst_model(smst_fields(k)))
        } else {
            None
        }
    } else if kind == 3 {
        let k = category_index(underscores_to_hyphens(str_lowercase(key)));
        if k >= 0 {
            Some(category_model(category_at(k)))
        } else {
            None
        }
    } else if kind == 4 {
        match node_type_of(str_lowercase(key)) {
            Some(e) => Some(node_model(e)),
            None => None,
        }
    } else {
        None
    }
}

/// The name a query of kind `kind` reports itself under.
pub open spec fn kind_name(kind: int, query_type: Seq<char>) -> Seq<char> {
    if kind == 1 {
        "compliance"@
    } else if kind == 2 {
        "smst"@
    } else if kind == 3 {
        "category"@
    } else if kind == 4 {
        "node_type"@
    } else {
        query_type
    }
}

pub open spec fn opt_model(v: Option<Value>) -> Option<ValueModel> {
    match v {
        Some(x) => Some(x.model()),
        None => None,
    }
}

/// Look `key` up in the taxonomy that `query_type` names (ignoring case).
pub fn query_taxonomy(query_type: &str, key: &str) -> (r: TaxonomyQueryResult)
    ensures
        ({
            let kind = taxonomy_kind(str_lowercase(query_type@));
            &&& r.query_type@ == kind_name(kind, query_type@)
            &&& r.key@ == key@
            &&& opt_model(r.data) == query_data(kind, key@)
            &&& r.found == r.data.is_some()
        }),
{
    let t = to_lowercase(query_type);
    let ts = t.as_str();
    proof {
        reveal_strlit("compliance");
        reveal_strlit("level");
        reveal_strlit("smst");
        reveal_strlit("component");
        reveal_strlit("category");
        reveal_strlit("node");
        reveal_strlit("node_type");
    }
    let (name, data) = if str_eq(ts, "compliance") || str_eq(ts, "level") {
        (String::from_str("compliance"), match lookup_compliance_level(key) {
            Some(l) => Some(level_value(&l)),
            None => None,
        })
    } else if str_eq(ts, "smst") || str_eq(ts, "component") {
        (String::from_str("smst"), match lookup_smst_component(key) {
            Some(c) => Some(smst_value(&c)),
            None => None,
        })
    } else if str_eq(ts, "category") {
        (String::from_str("category"), match lookup_skill_category(key) {
            Some(c) => Some(category_value(&c)),
            None => None,
        })
    } else if str_eq(ts, "node") || str_eq(ts, "node_type") {
        (String::from_str("node_type"), match lookup_node_type(key) {
            Some(n) => Some(node_value(&n)),
            None => None,
        })
    } else {
        (String::from_str(query_type), None)
    };
    let found = data.is_some();
    TaxonomyQueryResult { query_type: name, key: String::from_str(key), found, data }
}

/// All entries of one taxonomy.
#[derive(Debug)]
pub struct TaxonomyListResult {
    pub taxonomy_type: String,
    pub count: usize,
    pub entries: Vec<Value>,
}

/// Which taxonomy a (lowercased) list type names, numbered as for queries.
pub open spec fn list_kind(t: Seq<char>) -> int {
    if t == "compliance"@ || t == "levels"@ {
        1
    } else if t == "smst"@ || t == "components"@ {
        2
    } else if t == "category"@ || t == "categories"@ {
        3
    } else if t == "node"@ || t == "node_types"@ {
        4
    } else {
        0
    }
}

/// The node type names in table order.
pub open spec fn node_key(i: int) -> Seq<char> {
    if i == 0 {
        "root"@
    } else if i == 1 {
        "decision"@
    } else if i == 2 {
        "action"@
    } else if i == 3 {
        "delegate"@
    } else {
        "error"@
    }
}

/// The node type at position `i` of the table (below 5).
pub fn node_entry(i: usize) -> (n: NodeType)
    requires
        i < 5,
    ensures
        node_type_of(node_key(i as int)) == Some((n.name@, n.terminal, n.description@)),
{
    proof {
        reveal_strlit("root");
        reveal_strlit("decision");
        reveal_strlit("action");
        reveal_strlit("delegate");
        reveal_strlit("error");
        assert("root"@.len() == 4 && "decision"@.len() == 8 && "action"@.len() == 6);
        assert("delegate"@.len() == 8 && "error"@.len() == 5);
        assert("delegate"@[2] != "decision"@[2]);
    }
    if i == 0 {
        NodeType { name: "root", terminal: false, description: "Entry point of decision tree" }
    } else if i == 1 {
        NodeType { name: "decision", terminal: false, description: "Branch node with condition" }
    } else if i == 2 {
        NodeType { name: "action", terminal: true, description: "Terminal node with action to take" }
    } else if i == 3 {
        NodeType { name: "delegate", terminal: true, description: "Terminal node delegating to another skill" }
    } else {
        NodeType { name: "error", terminal: true, description: "Terminal error/failure node" }
    }
}

/// The entries of the taxonomy of kind `kind`, in table order.
pub open spec fn list_models(kind: int) -> Seq<ValueModel> {
    if kind == 1 {
        Seq::new(5, |i: int| level_model(level_of_tier((i + 1) as u8)))
    } else if kind == 2 {
        Seq::new(8, |i: int| smst_model(smst_fields(i)))
    } else if kind == 3 {
        Seq::new(category_count() as nat, |i: int| category_model(category_at(i)))
    } else if kind == 4 {
        Seq::new(5, |i: int| node_model(node_type_of(node_key(i))->0))
    } else {
        Seq::empty()
    }
}

/// Every entry of the taxonomy that `taxonomy_type` names (ignoring case).
pub fn list_taxonomy(taxonomy_type: &str) -> (r: TaxonomyListResult)
    ensures
        ({
            let kind = list_kind(str_lowercase(taxonomy_type@));
            &&& r.taxonomy_type@ == kind_name(kind, taxonomy_type@)
            &&& values_model(r.entries@) == list_models(kind)
            &&& r.count == r.entries@.len()
        }),
{
    let t = to_lowercase(taxonomy_type);
    let ts = t.as_str();
    proof {
        reveal_strlit("compliance");
        reveal_strlit("levels");
        reveal_strlit("smst");
        reveal_strlit("components");
        reveal_strlit("category");
        reveal_strlit("categories");
        reveal_strlit("node");
        reveal_strlit("node_types");
    }
    let ghost kind = list_kind(str_lowercase(taxonomy_type@));
    let mut entries: Vec<Value> = Vec::new();
    let name = if str_eq(ts, "compliance") || str_eq(ts, "levels") {
        let all = all_compliance_levels();
        let mut i: usize = 0;
        while i < all.len()
            invariant
                all@.len() == 5,
                forall|j: int| 0 <= j < 5 ==> (#[trigger] all@[j]).fields() == level_of_tier((j + 1) as u8),
                i <= 5,
                values_model(entries@) =~= list_models(1).take(i as int),
            decreases 5 - i,
        {
            let v = level_value(&all[i]);
            proof {
                lemma_values_model_push(entries@, v);
            }
            entries.push(v);
            i = i + 1;
        }
        String::from_str("compliance")
    } else if str_eq(ts, "smst") || str_eq(ts, "components") {
        let all = all_smst_components();
        let mut i: usize = 0;
        while i < all.len()
            invariant
                all@.len() == 8,
                forall|j: int| 0 <= j < 8 ==> (#[trigger] all@[j]).is_entry(j),
                i <= 8,
                values_model(entries@) =~= list_models(2).take(i as int),
            decreases 8 - i,
        {
            let v = smst_value(&all[i]);
            proof {
                lemma_values_model_push(entries@, v);
            }
            entries.push(v);
            i = i + 1;
        }
        String::from_str("smst")
    } else if str_eq(ts, "category") || str_eq(ts, "categories") {
        let all = all_skill_categories();
        let mut i: usize = 0;
        while i < all.len()
            invariant
                all@.len() == category_count(),
                forall|j: int| 0 <= j < category_count() ==> (#[trigger] all@[j]).fields() == category_at(j),
                i <= all@.len(),
                values_model(entries@) =~= list_models(3).take(i as int),
            decreases all@.len() - i,
        {
            let v = category_value(&all[i]);
            proof {
                lemma_values_model_push(entries@, v);
            }
            entries.push(v);
            i = i + 1;
        }
        String::from_str("category")
    } else if str_eq(ts, "node") || str_eq(ts, "node_types") {
        let mut i: usize = 0;
        while i < 5
            invariant
                i <= 5,
                values_model(entries@) =~= list_models(4).take(i as int),
            decreases 5 - i,
        {
            let v = node_value(&node_entry(i));
            proof {
                lemma_values_model_push(entries@, v);
            }
            entries.push(v);
            i = i + 1;
        }
        String::from_str("node_type")
    } else {
        String::from_str(taxonomy_type)
    };
    proof {
        assert(list_models(kind).take(list_models(kind).len() as int) =~= list_models(kind));
    }
    let count = entries.len();
    TaxonomyListResult { taxonomy_type: name, count, entries }
}

} // verus!
