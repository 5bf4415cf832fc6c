//! Micrograms: a single decision tree with a declared interface and inline tests.
use vstd::prelude::*;
use crate::value::{Value, ValueModel, FieldMap, last_index, keys_unique, lemma_entries_model_at, lemma_last_index, str_eq};
use crate::strmap::StrMap;
use crate::engine::{
    DecisionTree, DecisionContext, ExecutionResult, ResultModel, RunState, run_from, max_steps,
    names_view, execute_tree,
};
use crate::debug::{debug_text, value_debug};
use crate::clock::{clock_now, micros_since};

verus! {

/// Declared type of an interface field.
#[derive(Debug, Clone)]
pub struct InterfaceField {
    pub field_type: String,
    pub required: bool,
}

/// Declared inputs, outputs and field aliases of a microgram.
/// An alias maps an alternative name to the canonical field name.
#[derive(Debug)]
pub struct MicrogramInterface {
    pub inputs: StrMap<InterfaceField>,
    pub outputs: StrMap<InterfaceField>,
    pub aliases: StrMap<String>,
}

/// Which primitive a microgram embodies.
#[derive(Debug, Clone)]
pub struct PrimitiveSignature {
    pub dominant: String,
    pub expression: String,
    pub primes: Vec<String>,
    pub arguments: Vec<String>,
    pub chain_prediction: Option<String>,
}

/// A self-contained test case: an input and the fields expected in the output.
#[derive(Debug)]
pub struct MicrogramTest {
    pub input: FieldMap,
    pub expect: FieldMap,
}

/// A microgram: one decision tree, its interface and its tests.
#[derive(Debug)]
pub struct Microgram {
    pub name: String,
    pub description: String,
    pub version: String,
    pub tree: DecisionTree,
    pub tests: Vec<MicrogramTest>,
    pub interface: Option<MicrogramInterface>,
    pub primitive_signature: Option<PrimitiveSignature>,
}

/// Result of running a microgram.
#[derive(Debug)]
pub struct MicrogramResult {
    pub name: String,
    pub success: bool,
    pub path: Vec<String>,
    pub output: FieldMap,
    pub duration_us: u64,
}

/// Result of a run with boundary validation before and after the tree.
#[derive(Debug)]
pub struct ValidatedResult {
    pub result: MicrogramResult,
    pub ingress_errors: Vec<String>,
    pub egress_errors: Vec<String>,
}

/// Result of running a microgram's self-tests.
#[derive(Debug)]
pub struct TestResult {
    pub name: String,
    pub total: usize,
    pub passed: usize,
    pub failed: usize,
    pub results: Vec<SingleTestResult>,
}

/// Result of one self-test.
#[derive(Debug)]
pub struct SingleTestResult {
    pub index: usize,
    pub passed: bool,
    pub input: FieldMap,
    pub expected: FieldMap,
    pub actual: FieldMap,
    pub path: Vec<String>,
    pub mismatch: Option<String>,
}

// ───────────────────────────── type names ─────────────────────────────

/// Canonical spelling of a type name: boolean→bool, integer→int, number→float.
pub open spec fn canonical_type_name(t: Seq<char>) -> Seq<char> {
    if t == "boolean"@ {
        "bool"@
    } else if t == "integer"@ {
        "int"@
    } else if t == "number"@ {
        "float"@
    } else {
        t
    }
}

/// An actual type fits a declared one: same canonical name, null (always),
/// int and float with each other, or a declared `any`.
pub open spec fn type_fits(actual: Seq<char>, declared: Seq<char>) -> bool {
    let a = canonical_type_name(actual);
    let d = canonical_type_name(declared);
    ||| a == d
    ||| a == "null"@
    ||| (a == "int"@ || a == "float"@) && (d == "int"@ || d == "float"@)
    ||| d == "any"@
}

/// The type name of a value.
pub open spec fn type_name_of(v: ValueModel) -> Seq<char> {
    match v {
        ValueModel::Bool(_) => "bool"@,
        ValueModel::Int(_) => "int"@,
        ValueModel::Float(_) => "float"@,
        ValueModel::Str(_) => "string"@,
        ValueModel::Null => "null"@,
        ValueModel::Object(_) => "object"@,
        ValueModel::Array(_) => "array"@,
    }
}

/// Canonicalize an interface type name (boolean→bool, integer→int, number→float).
pub fn canonicalize_type(t: &str) -> (r: &str)
    ensures
        r@ == canonical_type_name(t@),
{
    if str_eq(t, "boolean") {
        "bool"
    } else if str_eq(t, "integer") {
        "int"
    } else if str_eq(t, "number") {
        "float"
    } else {
        t
    }
}

/// Whether a value of type `actual` may stand where `declared` is expected.
pub fn types_compatible(actual: &str, declared: &str) -> (r: bool)
    ensures
        r == type_fits(actual@, declared@),
{
    let a = canonicalize_type(actual);
    let d = canonicalize_type(declared);
    if str_eq(a, d) {
        return true;
    }
    if str_eq(a, "null") {
        return true;
    }
    if (str_eq(a, "int") || str_eq(a, "float")) && (str_eq(d, "int") || str_eq(d, "float")) {
        return true;
    }
    str_eq(d, "any")
}

/// The type name of a value, computed.
pub fn value_type_name(v: &Value) -> (r: &'static str)
    ensures
        r@ == type_name_of(v.model()),
{
    match v {
        Value::Bool(_) => "bool",
        Value::Int(_) => "int",
        Value::Float(_) => "float",
        Value::String(_) => "string",
        Value::Null => "null",
        Value::Object(_) => "object",
        Value::Array(_) => "array",
    }
}

// ───────────────────────────── messages ─────────────────────────────

/// Concatenation of five pieces of text.
pub fn join5(a: &str, b: &str, c: &str, d: &str, e: &str) -> (r: String)
    ensures
        r@ == a@ + b@ + c@ + d@ + e@,
{
    let mut s = String::from_str(a);
    s.append(b);
    s.append(c);
    s.append(d);
    s.append(e);
    s
}

/// Concatenation of seven pieces of text.
pub fn join7(a: &str, b: &str, c: &str, d: &str, e: &str, f: &str, g: &str) -> (r: String)
    ensures
        r@ == a@ + b@ + c@ + d@ + e@ + f@ + g@,
{
    let mut s = join5(a, b, c, d, e);
    s.append(f);
    s.append(g);
    s
}

/// The error for a declared field, given its value in the data (if any).
/// `side` is "input" or "output"; `label` is "Input" or "Output".
pub open spec fn field_error(
    missing_prefix: Seq<char>,
    label: Seq<char>,
    name: Seq<char>,
    field: InterfaceField,
    found: Option<ValueModel>,
) -> Option<Seq<char>> {
    match found {
        None => if field.required {
            Some(missing_prefix + name + "' (expected: "@ + field.field_type@ + ")"@)
        } else {
            None
        },
        Some(v) => if type_fits(type_name_of(v), field.field_type@) {
            None
        } else {
            Some(label + name + "': expected type '"@ + field.field_type@ + "', got '"@ + type_name_of(v) + "'"@)
        },
    }
}

/// Value of a declared input as validation sees it: absent or null counts as missing.
pub open spec fn input_found(data: Map<Seq<char>, ValueModel>, name: Seq<char>) -> Option<ValueModel> {
    if data.contains_key(name) && data[name] != ValueModel::Null {
        Some(data[name])
    } else {
        None
    }
}

/// Value of a declared output as validation sees it: only an absent field is missing.
pub open spec fn output_found(data: Map<Seq<char>, ValueModel>, name: Seq<char>) -> Option<ValueModel> {
    if data.contains_key(name) {
        Some(data[name])
    } else {
        None
    }
}

/// Errors for declared inputs, in declaration order.
pub open spec fn input_errors(fields: Seq<(String, InterfaceField)>, data: Map<Seq<char>, ValueModel>) -> Seq<Seq<char>>
    decreases fields.len(),
{
    if fields.len() == 0 {
        Seq::empty()
    } else {
        let e = fields[fields.len() - 1];
        let rest = input_errors(fields.drop_last(), data);
        match field_error("Missing required input '"@, "Input '"@, e.0@, e.1, input_found(data, e.0@)) {
            Some(m) => rest.push(m),
            None => rest,
        }
    }
}

/// Errors for declared outputs, in declaration order.
pub open spec fn output_errors(fields: Seq<(String, InterfaceField)>, data: Map<Seq<char>, ValueModel>) -> Seq<Seq<char>>
    decreases fields.len(),
{
    if fields.len() == 0 {
        Seq::empty()
    } else {
        let e = fields[fields.len() - 1];
        let rest = output_errors(fields.drop_last(), data);
        match field_error("Missing required output '"@, "Output '"@, e.0@, e.1, output_found(data, e.0@)) {
            Some(m) => rest.push(m),
            None => rest,
        }
    }
}

/// One field's error, computed.
fn check_field(
    missing_prefix: &str,
    label: &str,
    name: &str,
    field: &InterfaceField,
    found: Option<&Value>,
) -> (r: Option<String>)
    ensures
        r is Some == field_error(missing_prefix@, label@, name@, *field, match found {
            Some(v) => Some(v.model()),
            None => None,
        }) is Some,
        r is Some ==> r->0@ == field_error(missing_prefix@, label@, name@, *field, match found {
            Some(v) => Some(v.model()),
            None => None,
        })->0,
{
    match found {
        None => {
            if field.required {
                Some(join5(missing_prefix, name, "' (expected: ", field.field_type.as_str(), ")"))
            } else {
                None
            }
        },
        Some(v) => {
            let actual = value_type_name(v);
            if types_compatible(actual, field.field_type.as_str()) {
                None
            } else {
                Some(join7(label, name, "': expected type '", field.field_type.as_str(), "', got '", actual, "'"))
            }
        },
    }
}

// ───────────────────────────── runs ─────────────────────────────

/// The run of a microgram's tree on `input`.
pub open spec fn tree_run(mg: Microgram, input: Map<Seq<char>, ValueModel>) -> RunState {
    run_from(mg.tree.nodes_model(), mg.tree.start@, input, Seq::empty(), max_steps())
}

/// The output map of a run: an object result is the output itself; any other
/// value is wrapped under `_result`; an error under `_error`; an LLM request's
/// prompt under `_llm_fallback`.
pub open spec fn output_of(r: ResultModel) -> Map<Seq<char>, ValueModel> {
    match r {
        ResultModel::Value(ValueModel::Object(m)) => m,
        ResultModel::Value(v) => Map::empty().insert("_result"@, v),
        ResultModel::Error(e) => Map::empty().insert("_error"@, ValueModel::Str(e)),
        ResultModel::LlmRequest(p, _) => Map::empty().insert("_llm_fallback"@, ValueModel::Str(p)),
    }
}

/// The output map of running `mg` on `input`.
pub open spec fn run_output(mg: Microgram, input: Map<Seq<char>, ValueModel>) -> Map<Seq<char>, ValueModel> {
    output_of(tree_run(mg, input).result)
}

/// The shape of a run's output: an object result is the output itself; any
/// other value is the one field `_result`; an error is the one field
/// `_error` holding its message, and only an error result puts `_error`
/// in the output of a non-object value.
pub proof fn lemma_output_shapes(m: Map<Seq<char>, ValueModel>, v: ValueModel, e: Seq<char>)
    ensures
        output_of(ResultModel::Value(ValueModel::Object(m))) == m,
        !(v is Object) ==> output_of(ResultModel::Value(v)) == Map::<Seq<char>, ValueModel>::empty().insert("_result"@, v),
        output_of(ResultModel::Error(e)) == Map::<Seq<char>, ValueModel>::empty().insert("_error"@, ValueModel::Str(e)),
        output_of(ResultModel::Error(e)).contains_key("_error"@),
{
}

/// What a result of `run` holds for `input`.
pub open spec fn is_run_result(mg: Microgram, input: Map<Seq<char>, ValueModel>, r: MicrogramResult) -> bool {
    &&& r.name@ == mg.name@
    &&& r.output.model() == run_output(mg, input)
    &&& names_view(r.path@) == tree_run(mg, input).path
    &&& r.success == !run_output(mg, input).contains_key("_error"@)
}

/// Errors of `input` against the declared inputs of `mg`.
pub open spec fn ingress_errors(mg: Microgram, input: Map<Seq<char>, ValueModel>) -> Seq<Seq<char>> {
    match mg.interface {
        None => Seq::<Seq<char>>::empty(),
        Some(iface) => input_errors(iface.inputs.entries@, input),
    }
}

/// Output of a rejected run: the joined errors under `_error`, and `_valid: false`.
pub open spec fn rejection_output(prefix: Seq<char>, errs: Seq<Seq<char>>) -> Map<Seq<char>, ValueModel> {
    Map::<Seq<char>, ValueModel>::empty().insert("_error"@, ValueModel::Str(prefix + join_with(errs, "; "@))).insert(
        "_valid"@,
        ValueModel::Bool(false),
    )
}

/// What a result of `run_strict` holds for `input`.
pub open spec fn is_strict_result(mg: Microgram, input: Map<Seq<char>, ValueModel>, r: MicrogramResult) -> bool {
    let errs = ingress_errors(mg, input);
    if errs.len() == 0 {
        is_run_result(mg, input, r)
    } else {
        &&& r.name@ == mg.name@
        &&& !r.success
        &&& names_view(r.path@) == seq!["input_validation"@]
        &&& r.duration_us == 0
        &&& r.output.model() == rejection_output("REJECTED: "@, errs)
    }
}

/// Egress errors of a validated run whose input passed: the output errors
/// when the tree succeeded, none when it failed.
pub open spec fn egress_errors_of(mg: Microgram, input: Map<Seq<char>, ValueModel>) -> Seq<Seq<char>> {
    let out = run_output(mg, input);
    if !out.contains_key("_error"@) {
        match mg.interface {
            None => Seq::<Seq<char>>::empty(),
            Some(iface) => output_errors(iface.outputs.entries@, out),
        }
    } else {
        Seq::<Seq<char>>::empty()
    }
}

/// Output map of a validated run.
pub open spec fn validated_output(mg: Microgram, input: Map<Seq<char>, ValueModel>) -> Map<Seq<char>, ValueModel> {
    if ingress_errors(mg, input).len() != 0 {
        rejection_output("Ingress: "@, ingress_errors(mg, input))
    } else {
        run_output(mg, input)
    }
}

/// What a result of `run_validated` holds for `input`.
pub open spec fn is_validated_result(mg: Microgram, input: Map<Seq<char>, ValueModel>, r: ValidatedResult) -> bool {
    let errs = ingress_errors(mg, input);
    &&& r.result.name@ == mg.name@
    &&& r.result.output.model() == validated_output(mg, input)
    &&& if errs.len() != 0 {
        &&& names_view(r.ingress_errors@) == errs
        &&& r.egress_errors@.len() == 0
        &&& !r.result.success
        &&& names_view(r.result.path@) == seq!["ingress_validation"@]
        &&& r.result.duration_us == 0
    } else {
        let out = run_output(mg, input);
        &&& r.ingress_errors@.len() == 0
        &&& names_view(r.egress_errors@) == egress_errors_of(mg, input)
        &&& names_view(r.result.path@) == tree_run(mg, input).path
        &&& r.result.success == (!out.contains_key("_error"@) && egress_errors_of(mg, input).len() == 0)
    }
}

/// Without an interface, a validated run is a plain run: same output, same
/// path, same success, and no boundary error.
pub proof fn lemma_validated_without_interface(mg: Microgram, input: Map<Seq<char>, ValueModel>, v: ValidatedResult, r: MicrogramResult)
    requires
        mg.interface is None,
        is_validated_result(mg, input, v),
        is_run_result(mg, input, r),
    ensures
        v.result.output.model() == r.output.model(),
        names_view(v.result.path@) == names_view(r.path@),
        v.result.success == r.success,
        v.ingress_errors@.len() == 0,
        v.egress_errors@.len() == 0,
{
    assert(ingress_errors(mg, input) =~= Seq::<Seq<char>>::empty());
    assert(egress_errors_of(mg, input) =~= Seq::<Seq<char>>::empty());
}

/// A validated run agrees with `validate_input`, `run` and
/// `validate_output` on the same input: its ingress errors are those of
/// `validate_input`. When there are some, the run is refused: it does not
/// succeed, its path is `ingress_validation`, its output has `_valid: false`
/// and there is no egress error. Otherwise it gives the output of `run`, its
/// egress errors are those `validate_output` finds in that output when the
/// run succeeded (none when it failed), and it succeeds exactly when the run
/// did and no egress error came.
pub proof fn lemma_run_validated_agrees(
    mg: Microgram,
    input: Map<Seq<char>, ValueModel>,
    v: ValidatedResult,
    r: MicrogramResult,
    ie: Seq<Seq<char>>,
    oe: Seq<Seq<char>>,
)
    requires
        is_validated_result(mg, input, v),
        is_run_result(mg, input, r),
        ie == match mg.interface {
            None => Seq::empty(),
            Some(iface) => input_errors(iface.inputs.entries@, input),
        },
        oe == match mg.interface {
            None => Seq::empty(),
            Some(iface) => output_errors(iface.outputs.entries@, r.output.model()),
        },
    ensures
        names_view(v.ingress_errors@) == ie,
        ie.len() != 0 ==> {
            &&& !v.result.success
            &&& names_view(v.result.path@) == seq!["ingress_validation"@]
            &&& v.result.output.model()["_valid"@] == ValueModel::Bool(false)
            &&& v.egress_errors@.len() == 0
        },
        ie.len() == 0 ==> {
            &&& v.result.output.model() == r.output.model()
            &&& names_view(v.egress_errors@) == if r.success {
                oe
            } else {
                Seq::empty()
            }
            &&& v.result.success == (r.success && v.egress_errors@.len() == 0)
        },
{
    assert(ingress_errors(mg, input) == ie);
    if ie.len() == 0 {
        assert(names_view(v.ingress_errors@) =~= ie);
        assert(names_view(v.egress_errors@).len() == v.egress_errors@.len());
        if !r.success {
            assert(egress_errors_of(mg, input) =~= Seq::<Seq<char>>::empty());
        }
    } else {
        assert(rejection_output("Ingress: "@, ie).contains_key("_valid"@));
    }
}

/// Output of one chain step: a strict step rejects invalid input.
pub open spec fn step_output(mg: Microgram, input: Map<Seq<char>, ValueModel>, strict: bool) -> Map<Seq<char>, ValueModel> {
    if strict && ingress_errors(mg, input).len() != 0 {
        rejection_output("REJECTED: "@, ingress_errors(mg, input))
    } else {
        run_output(mg, input)
    }
}

/// Whether one chain step succeeds.
pub open spec fn step_succeeds(mg: Microgram, input: Map<Seq<char>, ValueModel>, strict: bool) -> bool {
    if strict && ingress_errors(mg, input).len() != 0 {
        false
    } else {
        !run_output(mg, input).contains_key("_error"@)
    }
}

/// What a result of one chain step holds.
pub open spec fn is_step_result(mg: Microgram, input: Map<Seq<char>, ValueModel>, strict: bool, r: MicrogramResult) -> bool {
    &&& r.name@ == mg.name@
    &&& r.output.model() == step_output(mg, input, strict)
    &&& r.success == step_succeeds(mg, input, strict)
    &&& if strict {
        is_strict_result(mg, input, r)
    } else {
        is_run_result(mg, input, r)
    }
}

/// The message of a failed expectation, if it fails against `actual`.
pub open spec fn expectation_failure(e: (String, Value), actual: FieldMap) -> Option<Seq<char>> {
    expectation_failure_as(e, actual, ", got nothing"@)
}

/// The message of a failed expectation, if it fails against `actual`; a
/// missing field is reported with the suffix `missing`.
pub open spec fn expectation_failure_as(e: (String, Value), actual: FieldMap, missing: Seq<char>) -> Option<Seq<char>> {
    let j = last_index(actual.entries@, e.0@);
    if j < 0 {
        Some(e.0@ + ": expected "@ + debug_text(e.1) + missing)
    } else if actual.entries@[j].1.model() == e.1.model() {
        None
    } else {
        Some(e.0@ + ": expected "@ + debug_text(e.1) + ", got "@ + debug_text(actual.entries@[j].1))
    }
}

/// The last failed expectation's message, if any fails.
pub open spec fn last_failure(expect: Seq<(String, Value)>, actual: FieldMap) -> Option<Seq<char>> {
    last_failure_as(expect, actual, ", got nothing"@)
}

/// The last failed expectation's message, if any fails; a missing field is
/// reported with the suffix `missing`.
pub open spec fn last_failure_as(expect: Seq<(String, Value)>, actual: FieldMap, missing: Seq<char>) -> Option<Seq<char>>
    decreases expect.len(),
{
    if expect.len() == 0 {
        None
    } else {
        match expectation_failure_as(expect[expect.len() - 1], actual, missing) {
            Some(m) => Some(m),
            None => last_failure_as(expect.drop_last(), actual, missing),
        }
    }
}

/// Every expected field is present in `actual` with an equal value.
pub open spec fn expectations_hold(expect: Map<Seq<char>, ValueModel>, actual: Map<Seq<char>, ValueModel>) -> bool {
    forall|k: Seq<char>| #[trigger] expect.contains_key(k) ==> actual.contains_key(k) && actual[k] == expect[k]
}

impl ValidatedResult {
    /// True when ingress passed, the tree succeeded, and egress passed.
    pub fn is_valid(&self) -> (r: bool)
        ensures
            r == (self.result.success && self.ingress_errors@.len() == 0 && self.egress_errors@.len() == 0),
    {
        self.result.success && self.ingress_errors.len() == 0 && self.egress_errors.len() == 0
    }
}

impl Microgram {
    /// Errors of `input` against the declared inputs: missing required fields
    /// (absent or null) and values whose type does not fit. Empty when valid
    /// or when no interface is declared.
    pub fn validate_input(&self, input: &FieldMap) -> (r: Vec<String>)
        ensures
            names_view(r@) == match self.interface {
                None => Seq::empty(),
                Some(iface) => input_errors(iface.inputs.entries@, input.model()),
            },
    {
        let mut errors: Vec<String> = Vec::new();
        match &self.interface {
            None => {
                proof {
                    assert(names_view(errors@) =~= Seq::empty());
                }
                errors
            },
            Some(iface) => {
                let fields = &iface.inputs.entries;
                let mut i: usize = 0;
                while i < fields.len()
                    invariant
                        i <= fields@.len(),
                        names_view(errors@) == input_errors(fields@.subrange(0, i as int), input.model()),
                    decreases fields@.len() - i,
                {
                    let name = fields[i].0.as_str();
                    let found: Option<&Value> = match input.get(name) {
                        Some(Value::Null) => None,
                        Some(v) => Some(v),
                        None => None,
                    };
                    proof {
                        assert(fields@.subrange(0, i + 1).drop_last() =~= fields@.subrange(0, i as int));
                        assert(input_found(input.model(), name@) == match found {
                            Some(v) => Some(v.model()),
                            None => None::<ValueModel>,
                        });
                    }
                    match check_field("Missing required input '", "Input '", name, &fields[i].1, found) {
                        Some(m) => {
                            errors.push(m);
                        },
                        None => {},
                    }
                    proof {
                        assert(names_view(errors@) =~= input_errors(fields@.subrange(0, i + 1), input.model()));
                    }
                    i = i + 1;
                }
                proof {
                    assert(fields@.subrange(0, fields@.len() as int) =~= fields@);
                }
                errors
            },
        }
    }

    /// Errors of `output` against the declared outputs: missing required fields
    /// and values whose type does not fit. Empty when valid or when no
    /// interface is declared.
    pub fn validate_output(&self, output: &FieldMap) -> (r: Vec<String>)
        ensures
            names_view(r@) == match self.interface {
                None => Seq::empty(),
                Some(iface) => output_errors(iface.outputs.entries@, output.model()),
            },
    {
        let mut errors: Vec<String> = Vec::new();
        match &self.interface {
            None => {
                proof {
                    assert(names_view(errors@) =~= Seq::empty());
                }
                errors
            },
            Some(iface) => {
                let fields = &iface.outputs.entries;
                let mut i: usize = 0;
                while i < fields.len()
                    invariant
                        i <= fields@.len(),
                        names_view(errors@) == output_errors(fields@.subrange(0, i as int), output.model()),
                    decreases fields@.len() - i,
                {
                    let name = fields[i].0.as_str();
                    let found = output.get(name);
                    proof {
                        assert(fields@.subrange(0, i + 1).drop_last() =~= fields@.subrange(0, i as int));
                    }
                    match check_field("Missing required output '", "Output '", name, &fields[i].1, found) {
                        Some(m) => {
                            errors.push(m);
                        },
                        None => {},
                    }
                    proof {
                        assert(names_view(errors@) =~= output_errors(fields@.subrange(0, i + 1), output.model()));
                    }
                    i = i + 1;
                }
                proof {
                    assert(fields@.subrange(0, fields@.len() as int) =~= fields@);
                }
                errors
            },
        }
    }

    /// Execute the tree on `input`.
    pub fn run(&self, input: FieldMap) -> (r: MicrogramResult)
        ensures
            is_run_result(*self, input.model(), r),
    {
        let start = clock_now();
        let ghost input_model = input.model();
        let mut ctx = DecisionContext { variables: input, execution_path: Vec::new() };
        proof {
            assert(names_view(ctx.execution_path@) =~= Seq::<Seq<char>>::empty());
        }
        let exec_result = execute_tree(&self.tree, &mut ctx);
        let duration_us = micros_since(&start);
        let output: FieldMap = match exec_result {
            ExecutionResult::Value(v) => {
                match v {
                    Value::Object(map) => map,
                    other => {
                        let mut m = FieldMap::new();
                        m.insert(String::from_str("_result"), other);
                        m
                    },
                }
            },
            ExecutionResult::Error(e) => {
                let mut m = FieldMap::new();
                m.insert(String::from_str("_error"), Value::String(e));
                m
            },
            ExecutionResult::LlmRequest { prompt, context } => {
                let mut m = FieldMap::new();
                m.insert(String::from_str("_llm_fallback"), Value::String(prompt));
                m
            },
        };
        let success = !output.contains_key("_error");
        MicrogramResult { name: self.name.clone(), success, path: ctx.execution_path, output, duration_us }
    }

    /// Execute after checking the input: when validation finds errors, the tree
    /// is not run and the result is a rejection.
    pub fn run_strict(&self, input: FieldMap) -> (r: MicrogramResult)
        ensures
            is_strict_result(*self, input.model(), r),
    {
        let errors = self.validate_input(&input);
        if errors.len() > 0 {
            let joined = join_strings(&errors, "; ");
            let msg = crate::text::concat("REJECTED: ", joined.as_str());
            let mut output = FieldMap::new();
            output.insert(String::from_str("_error"), Value::String(msg));
            output.insert(String::from_str("_valid"), Value::Bool(false));
            let mut path: Vec<String> = Vec::new();
            path.push(String::from_str("input_validation"));
            proof {
                assert(names_view(path@) =~= seq!["input_validation"@]);
            }
            return MicrogramResult { name: self.name.clone(), success: false, path, output, duration_us: 0 };
        }
        self.run(input)
    }

    /// One chain step: `run_strict` when `strict`, else `run`.
    pub fn run_step(&self, input: FieldMap, strict: bool) -> (r: MicrogramResult)
        ensures
            is_step_result(*self, input.model(), strict, r),
    {
        if strict {
            let r = self.run_strict(input);
            proof {
                if ingress_errors(*self, input.model()).len() != 0 {
                    assert(r.output.model().contains_key("_error"@));
                }
            }
            r
        } else {
            self.run(input)
        }
    }

    /// Execute with validation of the input before the tree and of the output
    /// after it. Without a declared interface this is a plain run.
    pub fn run_validated(&self, input: FieldMap) -> (r: ValidatedResult)
        ensures
            is_validated_result(*self, input.model(), r),
    {
        let ingress_errors = self.validate_input(&input);
        if ingress_errors.len() > 0 {
            let joined = join_strings(&ingress_errors, "; ");
            let msg = crate::text::concat("Ingress: ", joined.as_str());
            let mut output = FieldMap::new();
            output.insert(String::from_str("_error"), Value::String(msg));
            output.insert(String::from_str("_valid"), Value::Bool(false));
            let mut path: Vec<String> = Vec::new();
            path.push(String::from_str("ingress_validation"));
            proof {
                assert(names_view(path@) =~= seq!["ingress_validation"@]);
            }
            return ValidatedResult {
                result: MicrogramResult { name: self.name.clone(), success: false, path, output, duration_us: 0 },
                ingress_errors,
                egress_errors: Vec::new(),
            };
        }
        let result = self.run(input);
        let egress_errors = if result.success {
            self.validate_output(&result.output)
        } else {
            Vec::new()
        };
        proof {
            if !result.success {
                assert(names_view(egress_errors@) =~= Seq::<Seq<char>>::empty());
            }
        }
        let success = result.success && egress_errors.len() == 0;
        ValidatedResult {
            result: MicrogramResult {
                name: result.name,
                success,
                path: result.path,
                output: result.output,
                duration_us: result.duration_us,
            },
            ingress_errors: Vec::new(),
            egress_errors,
        }
    }

    /// Run every self-test and compare each expected field with the output.
    pub fn test(&self) -> (r: TestResult)
        ensures
            is_test_result(*self, r),
    {
        let mut results: Vec<SingleTestResult> = Vec::new();
        let mut passed: usize = 0;
        let mut i: usize = 0;
        while i < self.tests.len()
            invariant
                i <= self.tests@.len(),
                results@.len() == i,
                passed == passed_count(results@),
                passed <= i,
                forall|j: int| 0 <= j < i ==> {
                    let t = #[trigger] self.tests@[j];
                    let s = results@[j];
                    &&& s.index == j
                    &&& s.input.model() == t.input.model()
                    &&& s.expected.model() == t.expect.model()
                    &&& s.actual.model() == run_output(*self, t.input.model())
                    &&& names_view(s.path@) == tree_run(*self, t.input.model()).path
                    &&& s.passed == (last_failure(t.expect.entries@, s.actual) is None)
                    &&& s.passed ==> expectations_hold(t.expect.model(), s.actual.model())
                &&& keys_unique(t.expect.entries@) ==> s.passed == expectations_hold(t.expect.model(), s.actual.model())
                    &&& match s.mismatch {
                        None => last_failure(t.expect.entries@, s.actual) is None,
                        Some(m) => last_failure(t.expect.entries@, s.actual) == Some(m@),
                    }
                },
            decreases self.tests@.len() - i,
        {
            let test = &self.tests[i];
            let result = self.run(test.input.clone());
            let (ok, mismatch) = check_expectations(&test.expect, &result.output, ", got nothing");
            if ok {
                passed = passed + 1;
            }
            let single = SingleTestResult {
                index: i,
                passed: ok,
                input: test.input.clone(),
                expected: test.expect.clone(),
                actual: result.output,
                path: result.path,
                mismatch,
            };
            let ghost before = results@;
            results.push(single);
            proof {
                assert(results@.drop_last() =~= before);
            }
            i = i + 1;
        }
        TestResult { name: self.name.clone(), total: self.tests.len(), passed, failed: self.tests.len() - passed, results }
    }
}

/// `r` reports running every self-test of `mg` and comparing each expected
/// field with the output.
pub open spec fn is_test_result(mg: Microgram, r: TestResult) -> bool {
    &&& r.name@ == mg.name@
    &&& r.total == mg.tests@.len()
    &&& r.results@.len() == mg.tests@.len()
    &&& r.passed + r.failed == r.total
    &&& r.passed == passed_count(r.results@)
    &&& forall|i: int| 0 <= i < mg.tests@.len() ==> {
        let t = #[trigger] mg.tests@[i];
        let s = r.results@[i];
        &&& s.index == i
        &&& s.input.model() == t.input.model()
        &&& s.expected.model() == t.expect.model()
        &&& s.actual.model() == run_output(mg, t.input.model())
        &&& names_view(s.path@) == tree_run(mg, t.input.model()).path
        &&& s.passed == (last_failure(t.expect.entries@, s.actual) is None)
        &&& s.passed ==> expectations_hold(t.expect.model(), s.actual.model())
        &&& keys_unique(t.expect.entries@) ==> s.passed == expectations_hold(t.expect.model(), s.actual.model())
        &&& match s.mismatch {
            None => last_failure(t.expect.entries@, s.actual) is None,
            Some(m) => last_failure(t.expect.entries@, s.actual) == Some(m@),
        }
    }
}

/// The self-test report adds up: one result per test, in order, each with
/// the output of `run` on the test's input; `passed` counts the passing
/// results and `failed` the others; a result carries a mismatch exactly when
/// it fails; and a test whose expectations name each field once passes
/// exactly when every expected field is in the output with an equal value.
pub proof fn lemma_test_report(mg: Microgram, r: TestResult)
    requires
        is_test_result(mg, r),
    ensures
        r.total == mg.tests@.len(),
        r.results@.len() == r.total,
        r.passed == passed_count(r.results@),
        r.failed == r.total - r.passed,
        forall|i: int| 0 <= i < r.total ==> (#[trigger] r.results@[i]).index == i,
        forall|i: int| 0 <= i < r.total ==> (#[trigger] r.results@[i]).actual.model() == run_output(mg, mg.tests@[i].input.model()),
        forall|i: int| 0 <= i < r.total ==> ((#[trigger] r.results@[i]).mismatch is Some <==> !r.results@[i].passed),
        forall|i: int|
            0 <= i < r.total && keys_unique(mg.tests@[i].expect.entries@) ==> ((#[trigger] r.results@[i]).passed
                <==> expectations_hold(mg.tests@[i].expect.model(), r.results@[i].actual.model())),
{
    assert forall|i: int| 0 <= i < r.total implies ((#[trigger] r.results@[i]).mismatch is Some <==> !r.results@[i].passed) by {
        let t = mg.tests@[i];
        assert(r.results@[i].passed == (last_failure(t.expect.entries@, r.results@[i].actual) is None));
    }
    assert forall|i: int| 0 <= i < r.total implies (#[trigger] r.results@[i]).index == i by {
        let t = mg.tests@[i];
    }
    assert forall|i: int| 0 <= i < r.total implies (#[trigger] r.results@[i]).actual.model() == run_output(mg, mg.tests@[i].input.model()) by {
        let t = mg.tests@[i];
    }
    assert forall|i: int|
        0 <= i < r.total && keys_unique(mg.tests@[i].expect.entries@) implies ((#[trigger] r.results@[i]).passed
            <==> expectations_hold(mg.tests@[i].expect.model(), r.results@[i].actual.model())) by {
        let t = mg.tests@[i];
    }
}

/// Every expected entry of `t` (shadowed ones included) is in `out` with an equal value.
pub open spec fn test_passes(t: MicrogramTest, out: Map<Seq<char>, ValueModel>) -> bool {
    forall|j: int|
        0 <= j < t.expect.entries@.len() ==> out.contains_key((#[trigger] t.expect.entries@[j]).0@) && out[t.expect.entries@[j].0@]
            == t.expect.entries@[j].1.model()
}

/// Every self-test of `mg` passes.
pub open spec fn passes_all(mg: Microgram) -> bool {
    forall|i: int| 0 <= i < mg.tests@.len() ==> test_passes(#[trigger] mg.tests@[i], run_output(mg, mg.tests@[i].input.model()))
}

proof fn lemma_passed_count_all(s: Seq<SingleTestResult>)
    ensures
        passed_count(s) <= s.len(),
        (passed_count(s) == s.len()) == (forall|i: int| 0 <= i < s.len() ==> (#[trigger] s[i]).passed),
    decreases s.len(),
{
    if s.len() > 0 {
        lemma_passed_count_all(s.drop_last());
        assert forall|i: int| 0 <= i < s.len() - 1 implies s.drop_last()[i] == s[i] by {}
    }
}

/// A test result reports no failure exactly when every self-test passes.
pub proof fn lemma_no_failures(mg: Microgram, r: TestResult)
    requires
        is_test_result(mg, r),
    ensures
        (r.failed == 0) == passes_all(mg),
{
    lemma_passed_count_all(r.results@);
    assert forall|i: int| 0 <= i < mg.tests@.len() implies (#[trigger] r.results@[i]).passed == test_passes(
        mg.tests@[i],
        run_output(mg, mg.tests@[i].input.model()),
    ) by {
        let t = mg.tests@[i];
        let s = r.results@[i];
        lemma_last_failure_none(t.expect.entries@, s.actual, ", got nothing"@);
        assert forall|j: int| 0 <= j < t.expect.entries@.len() implies (expectation_failure(
            #[trigger] t.expect.entries@[j],
            s.actual,
        ) is None) == (s.actual.model().contains_key(t.expect.entries@[j].0@) && s.actual.model()[t.expect.entries@[j].0@]
            == t.expect.entries@[j].1.model()) by {
            lemma_entries_model_at(s.actual.entries@, t.expect.entries@[j].0@);
        }
    }
    if passes_all(mg) {
        assert forall|i: int| 0 <= i < r.results@.len() implies (#[trigger] r.results@[i]).passed by {
            assert(test_passes(mg.tests@[i], run_output(mg, mg.tests@[i].input.model())));
        }
    }
    if r.failed == 0 {
        assert forall|i: int| 0 <= i < mg.tests@.len() implies test_passes(
            #[trigger] mg.tests@[i],
            run_output(mg, mg.tests@[i].input.model()),
        ) by {
            assert(r.results@[i].passed);
        }
    }
}

/// Number of passed results.
pub open spec fn passed_count(s: Seq<SingleTestResult>) -> nat
    decreases s.len(),
{
    if s.len() == 0 {
        0
    } else {
        passed_count(s.drop_last()) + if s[s.len() - 1].passed {
            1nat
        } else {
            0nat
        }
    }
}

/// Texts joined with a separator.
pub open spec fn join_with(parts: Seq<Seq<char>>, sep: Seq<char>) -> Seq<char>
    decreases parts.len(),
{
    if parts.len() == 0 {
        Seq::empty()
    } else if parts.len() == 1 {
        parts[0]
    } else {
        join_with(parts.drop_last(), sep) + sep + parts[parts.len() - 1]
    }
}

/// Strings joined with a separator, computed.
pub fn join_strings(parts: &Vec<String>, sep: &str) -> (r: String)
    ensures
        r@ == join_with(names_view(parts@), sep@),
{
    let mut s = String::new();
    let mut i: usize = 0;
    while i < parts.len()
        invariant
            i <= parts@.len(),
            s@ == join_with(names_view(parts@.subrange(0, i as int)), sep@),
        decreases parts@.len() - i,
    {
        proof {
            assert(names_view(parts@.subrange(0, i + 1)).drop_last() =~= names_view(parts@.subrange(0, i as int)));
        }
        if i > 0 {
            s.append(sep);
        }
        s.append(parts[i].as_str());
        proof {
            if i == 0 {
                assert(s@ =~= join_with(names_view(parts@.subrange(0, 1)), sep@));
            } else {
                assert(s@ =~= join_with(names_view(parts@.subrange(0, i + 1)), sep@));
            }
        }
        i = i + 1;
    }
    proof {
        assert(parts@.subrange(0, parts@.len() as int) =~= parts@);
    }
    s
}

pub proof fn lemma_last_failure_none(expect: Seq<(String, Value)>, actual: FieldMap, missing: Seq<char>)
    ensures
        (last_failure_as(expect, actual, missing) is None) == (forall|i: int|
            0 <= i < expect.len() ==> expectation_failure_as(#[trigger] expect[i], actual, missing) is None),
    decreases expect.len(),
{
    if expect.len() > 0 {
        lemma_last_failure_none(expect.drop_last(), actual, missing);
        assert forall|i: int| 0 <= i < expect.len() - 1 implies expect.drop_last()[i] == expect[i] by {}
    }
}

/// When no entry reports a failure, all expectations hold in meaning; with
/// unique expected keys the converse holds too.
pub proof fn lemma_expectations_hold(expect: FieldMap, actual: FieldMap, missing: Seq<char>)
    ensures
        (last_failure_as(expect.entries@, actual, missing) is None) ==> expectations_hold(expect.model(), actual.model()),
        keys_unique(expect.entries@) ==> ((last_failure_as(expect.entries@, actual, missing) is None) == expectations_hold(
            expect.model(),
            actual.model(),
        )),
{
    lemma_last_failure_none(expect.entries@, actual, missing);
    crate::value::lemma_entries_model_dom(expect.entries@);
    if last_failure_as(expect.entries@, actual, missing) is None {
        assert forall|k: Seq<char>| #[trigger] expect.model().contains_key(k) implies actual.model().contains_key(k)
            && actual.model()[k] == expect.model()[k] by {
            lemma_entries_model_at(expect.entries@, k);
            lemma_last_index(expect.entries@, k);
            let q = last_index(expect.entries@, k);
            assert(expectation_failure_as(expect.entries@[q], actual, missing) is None);
            lemma_entries_model_at(actual.entries@, k);
            lemma_last_index(actual.entries@, k);
        }
    } else if keys_unique(expect.entries@) {
        let i = choose|i: int| 0 <= i < expect.entries@.len() && !(expectation_failure_as(#[trigger] expect.entries@[i], actual, missing) is None);
        let k = expect.entries@[i].0@;
        lemma_entries_model_at(expect.entries@, k);
        lemma_last_index(expect.entries@, k);
        lemma_entries_model_at(actual.entries@, k);
        lemma_last_index(actual.entries@, k);
        let q = last_index(expect.entries@, k);
        assert(q == i);
        assert(expect.model().contains_key(k));
        assert(!(actual.model().contains_key(k) && actual.model()[k] == expect.model()[k]));
    }
}

/// Compare each expected field with `actual`; returns whether all hold and
/// the message of the last one that failed.
pub fn check_expectations(expect: &FieldMap, actual: &FieldMap, missing: &str) -> (r: (bool, Option<String>))
    ensures
        r.0 == (last_failure_as(expect.entries@, *actual, missing@) is None),
        r.0 ==> expectations_hold(expect.model(), actual.model()),
        keys_unique(expect.entries@) ==> r.0 == expectations_hold(expect.model(), actual.model()),
        match r.1 {
            None => last_failure_as(expect.entries@, *actual, missing@) is None,
            Some(m) => last_failure_as(expect.entries@, *actual, missing@) == Some(m@),
        },
{
    proof {
        lemma_expectations_hold(*expect, *actual, missing@);
    }
    let mut ok = true;
    let mut mismatch: Option<String> = None;
    let mut i: usize = 0;
    while i < expect.entries.len()
        invariant
            i <= expect.entries@.len(),
            ok == (last_failure_as(expect.entries@.subrange(0, i as int), *actual, missing@) is None),
            match mismatch {
                None => last_failure_as(expect.entries@.subrange(0, i as int), *actual, missing@) is None,
                Some(m) => last_failure_as(expect.entries@.subrange(0, i as int), *actual, missing@) == Some(m@),
            },
        decreases expect.entries@.len() - i,
    {
        let key = expect.entries[i].0.as_str();
        let expected = &expect.entries[i].1;
        proof {
            assert(expect.entries@.subrange(0, i + 1).drop_last() =~= expect.entries@.subrange(0, i as int));
            lemma_entries_model_at(actual.entries@, key@);
        }
        match actual.position(key) {
            Some(j) => {
                if !actual.entries[j].1.equals(expected) {
                    let e = value_debug(expected);
                    let a = value_debug(&actual.entries[j].1);
                    mismatch = Some(join5(key, ": expected ", e.as_str(), ", got ", a.as_str()));
                    ok = false;
                }
            },
            None => {
                let e = value_debug(expected);
                mismatch = Some(join5(key, ": expected ", e.as_str(), missing, ""));
                ok = false;
                proof {
                    reveal_strlit("");
                    assert(mismatch->0@ =~= key@ + ": expected "@ + debug_text(*expected) + missing@);
                }
            },
        }
        i = i + 1;
    }
    proof {
        assert(expect.entries@.subrange(0, expect.entries@.len() as int) =~= expect.entries@);
    }
    (ok, mismatch)
}

/// Run the self-tests of every microgram, in order.
pub fn test_all(micrograms: &Vec<Microgram>) -> (r: Vec<TestResult>)
    ensures
        r@.len() == micrograms@.len(),
        forall|i: int| 0 <= i < r@.len() ==> is_test_result(micrograms@[i], #[trigger] r@[i]),
{
    let mut out: Vec<TestResult> = Vec::new();
    let mut i: usize = 0;
    while i < micrograms.len()
        invariant
            i <= micrograms@.len(),
            out@.len() == i,
            forall|j: int| 0 <= j < i ==> is_test_result(micrograms@[j], #[trigger] out@[j]),
        decreases micrograms@.len() - i,
    {
        out.push(micrograms[i].test());
        i = i + 1;
    }
    out
}

} // verus!
