//! Named chain and process definitions, with end-to-end test cases.
use vstd::prelude::*;
use crate::value::{Value, ValueModel, FieldMap};
use crate::microgram::{Microgram, MicrogramResult, PrimitiveSignature, last_failure_as, check_expectations, join5, join7};
use crate::chain::{ChainResult, chain_refs, chain_accumulate_refs, is_chain_run, is_accumulate_run, first_named, find_named, derefs};
use crate::signature_validator::{SignatureValidation, validate_chain_signatures_refs};
use crate::chain_loop::{LoopResult, LoopHalt, chain_loop_refs, is_loop_run, opt_str_view, opt_value_model, copy_names};
use crate::engine::{names_view, opt_view};
use crate::debug::{str_debug_text, str_debug, usize_to_decimal, nat_decimal};
use crate::text::{seq_starts_with, seq_ends_with};

verus! {

// ───────────────────────────── definitions ─────────────────────────────

/// A test case of a chain: an input, the fields expected in the final output,
/// and, optionally, the expected decision path of each step (steps past the
/// end of the list are not checked).
#[derive(Debug)]
pub struct ChainTestCase {
    pub name: String,
    pub input: FieldMap,
    pub expect: FieldMap,
    pub expect_paths: Vec<Vec<String>>,
}

/// A named chain: an ordered list of microgram names, with test cases.
#[derive(Debug)]
pub struct ChainDefinition {
    pub name: String,
    pub description: String,
    pub version: String,
    /// Directory of the micrograms, relative to the chain file.
    pub micrograms_dir: String,
    pub steps: Vec<String>,
    pub tests: Vec<ChainTestCase>,
    /// Run in context accumulation mode (outputs merged into a running context).
    pub accumulate: bool,
}

/// Outcome of one chain test case.
#[derive(Debug)]
pub struct SingleChainTestResult {
    pub name: String,
    pub passed: bool,
    pub input: FieldMap,
    pub expected: FieldMap,
    pub actual: FieldMap,
    pub mismatch: Option<String>,
}

/// Outcome of testing one chain definition.
#[derive(Debug)]
pub struct ChainTestResult {
    pub chain_name: String,
    pub total: usize,
    pub passed: usize,
    pub failed: usize,
    pub results: Vec<SingleChainTestResult>,
    /// Primitive signature validation of the chain's micrograms, when run.
    pub signature_validation: Option<SignatureValidation>,
}

/// Version of a definition that gives none.
pub fn default_version() -> (r: String)
    ensures
        r@ == "0.1.0"@,
{
    String::from_str("0.1.0")
}

/// Micrograms directory of a definition that gives none.
pub fn default_micrograms_dir() -> (r: String)
    ensures
        r@ == "../micrograms"@,
{
    String::from_str("../micrograms")
}

// ───────────────────────────── name resolution ─────────────────────────────

/// The micrograms that `names` select: for each name, the first microgram
/// that carries it.
pub open spec fn resolved(all: Seq<Microgram>, names: Seq<Seq<char>>) -> Seq<Microgram> {
    names.map_values(|n: Seq<char>| all[first_named(all, n)])
}

/// Every name is carried by some microgram.
pub open spec fn all_resolve(all: Seq<Microgram>, names: Seq<Seq<char>>) -> bool {
    forall|i: int| 0 <= i < names.len() ==> first_named(all, #[trigger] names[i]) >= 0
}

/// The names that no microgram carries, in order (repeats kept).
pub open spec fn unresolved(all: Seq<Microgram>, names: Seq<Seq<char>>) -> Seq<Seq<char>>
    decreases names.len(),
{
    if names.len() == 0 {
        Seq::empty()
    } else {
        let prev = unresolved(all, names.drop_last());
        if first_named(all, names[names.len() - 1]) < 0 {
            prev.push(names[names.len() - 1])
        } else {
            prev
        }
    }
}

/// Select the micrograms named in `names`; also returns the names that none carries.
fn resolve_steps<'a>(all: &'a [Microgram], names: &Vec<String>) -> (r: (Vec<&'a Microgram>, Vec<String>))
    ensures
        names_view(r.1@) == unresolved(all@, names_view(names@)),
        (r.1@.len() == 0) == all_resolve(all@, names_view(names@)),
        r.1@.len() == 0 ==> derefs(r.0@) == resolved(all@, names_view(names@)),
{
    let ghost ns = names_view(names@);
    let mut ordered: Vec<&'a Microgram> = Vec::new();
    let mut missing: Vec<String> = Vec::new();
    let mut i: usize = 0;
    while i < names.len()
        invariant
            ns == names_view(names@),
            i <= names@.len(),
            names_view(missing@) == unresolved(all@, ns.subrange(0, i as int)),
            (missing@.len() == 0) == (forall|j: int| 0 <= j < i ==> first_named(all@, #[trigger] ns[j]) >= 0),
            missing@.len() == 0 ==> ordered@.len() == i,
            missing@.len() == 0 ==> forall|j: int| 0 <= j < i ==> *(#[trigger] ordered@[j]) == all@[first_named(all@, ns[j])],
        decreases names@.len() - i,
    {
        proof {
            assert(ns.subrange(0, i + 1).drop_last() =~= ns.subrange(0, i as int));
            assert(ns[i as int] == names@[i as int]@);
        }
        let ghost mb = missing@;
        let ghost ob = ordered@;
        match find_named(all, names[i].as_str()) {
            Some(m) => {
                ordered.push(m);
                proof {
                    if missing@.len() == 0 {
                        assert forall|j: int| 0 <= j < i + 1 implies *(#[trigger] ordered@[j]) == all@[first_named(all@, ns[j])] by {
                            if j < i {
                                assert(ordered@[j] == ob[j]);
                            }
                        }
                    }
                }
            },
            None => {
                missing.push(names[i].clone());
                proof {
                    assert(names_view(missing@) =~= names_view(mb).push(ns[i as int]));
                }
            },
        }
        i = i + 1;
    }
    proof {
        assert(ns.subrange(0, names@.len() as int) =~= ns);
        if missing@.len() == 0 {
            assert(derefs(ordered@) =~= resolved(all@, ns));
        }
    }
    (ordered, missing)
}

// ───────────────────────────── rendering ─────────────────────────────

/// The `{:?}` renderings of strings, separated by `, `.
pub open spec fn quoted_items(s: Seq<Seq<char>>) -> Seq<char>
    decreases s.len(),
{
    if s.len() == 0 {
        Seq::empty()
    } else if s.len() == 1 {
        str_debug_text(s[0])
    } else {
        quoted_items(s.drop_last()) + ", "@ + str_debug_text(s[s.len() - 1])
    }
}

/// The `{:?}` rendering of a list of strings: `["a", "b"]`.
pub open spec fn quoted_list(s: Seq<Seq<char>>) -> Seq<char> {
    "["@ + quoted_items(s) + "]"@
}

/// The `{:?}` rendering of a list of strings, computed.
pub fn quoted_list_of(v: &Vec<String>) -> (r: String)
    ensures
        r@ == quoted_list(names_view(v@)),
{
    let ghost ns = names_view(v@);
    let mut s = String::from_str("[");
    let mut i: usize = 0;
    while i < v.len()
        invariant
            ns == names_view(v@),
            i <= v@.len(),
            s@ == "["@ + quoted_items(ns.subrange(0, i as int)),
        decreases v@.len() - i,
    {
        let ghost before = s@;
        let q = str_debug(v[i].as_str());
        if i > 0 {
            s.append(", ");
        }
        s.append(q.as_str());
        proof {
            let t = ns.subrange(0, i + 1);
            assert(t.drop_last() =~= ns.subrange(0, i as int));
            assert(t[t.len() - 1] == v@[i as int]@);
            if i == 0 {
                assert(quoted_items(ns.subrange(0, 0)) =~= Seq::<char>::empty());
                assert(s@ =~= "["@ + quoted_items(t));
            } else {
                assert(s@ =~= "["@ + quoted_items(t));
            }
        }
        i = i + 1;
    }
    s.append("]");
    proof {
        assert(ns.subrange(0, v@.len() as int) =~= ns);
    }
    s
}

// ───────────────────────────── chain tests ─────────────────────────────

/// What a plain chain's result holds (not strict).
pub open spec fn is_plain_run(ms: Seq<Microgram>, init: Map<Seq<char>, ValueModel>, c: ChainResult) -> bool {
    &&& is_chain_run(ms, init, false, c.steps@)
    &&& c.success == (c.steps@.len() == ms.len() && (c.steps@.len() > 0 ==> c.steps@[c.steps@.len() - 1].success))
    &&& c.final_output.model() == if c.steps@.len() == 0 {
        Map::<Seq<char>, ValueModel>::empty()
    } else {
        c.steps@[c.steps@.len() - 1].output.model()
    }
}

/// What the chain run of a test case holds: accumulating or plain, not strict.
pub open spec fn is_case_run(ms: Seq<Microgram>, init: Map<Seq<char>, ValueModel>, acc: bool, c: ChainResult) -> bool {
    if acc {
        is_accumulate_run(ms, init, false, c)
    } else {
        is_plain_run(ms, init, c)
    }
}

/// The message of a step whose decision path differs from the expected one.
pub open spec fn path_message(k: nat, name: Seq<char>, expected: Seq<Seq<char>>, actual: Seq<Seq<char>>) -> Seq<char> {
    "path["@ + nat_decimal(k) + "] ("@ + name + "): expected "@ + quoted_list(expected) + ", got "@ + quoted_list(actual)
}

/// The message of the last of the first `n` steps whose path differs from
/// the expected one, if any does.
pub open spec fn last_path_mismatch(expected: Seq<Vec<String>>, steps: Seq<MicrogramResult>, n: nat) -> Option<Seq<char>>
    decreases n,
{
    if n == 0 {
        None
    } else {
        let k = (n - 1) as nat;
        if names_view(steps[k as int].path@) != names_view(expected[k as int]@) {
            Some(path_message(k, steps[k as int].name@, names_view(expected[k as int]@), names_view(steps[k as int].path@)))
        } else {
            last_path_mismatch(expected, steps, k)
        }
    }
}

/// Number of steps whose path a test case checks.
pub open spec fn paths_checked(t: ChainTestCase, c: ChainResult) -> nat {
    if t.expect_paths@.len() < c.steps@.len() {
        t.expect_paths@.len()
    } else {
        c.steps@.len()
    }
}

/// The verdict on a test case given its chain run: a path mismatch wins over
/// a field mismatch; the case passes when there is neither.
pub open spec fn case_verdict(t: ChainTestCase, c: ChainResult, passed: bool, mismatch: Option<Seq<char>>) -> bool {
    let pm = last_path_mismatch(t.expect_paths@, c.steps@, paths_checked(t, c));
    let em = last_failure_as(t.expect.entries@, c.final_output, ", not in output"@);
    &&& passed == (pm is None && em is None)
    &&& mismatch == if pm is Some {
        pm
    } else {
        em
    }
}

/// What the result of a test case holds when every step resolved to `ms`.
pub open spec fn is_case_result(ms: Seq<Microgram>, acc: bool, t: ChainTestCase, s: SingleChainTestResult) -> bool {
    &&& s.name@ == t.name@
    &&& s.input.model() == t.input.model()
    &&& s.expected.model() == t.expect.model()
    &&& exists|c: ChainResult|
        #[trigger] is_case_run(ms, t.input.model(), acc, c) && s.actual == c.final_output && case_verdict(
            t,
            c,
            s.passed,
            opt_view(s.mismatch),
        )
}

/// The message of a chain whose steps are not all available.
pub open spec fn missing_message(missing: Seq<Seq<char>>) -> Seq<char> {
    "Missing micrograms: "@ + quoted_list(missing)
}

/// What the result of a test case holds when some step did not resolve.
pub open spec fn is_missing_result(missing: Seq<Seq<char>>, t: ChainTestCase, s: SingleChainTestResult) -> bool {
    &&& s.name@ == t.name@
    &&& !s.passed
    &&& s.input.model() == t.input.model()
    &&& s.expected.model() == t.expect.model()
    &&& s.actual.model() == Map::<Seq<char>, ValueModel>::empty()
    &&& opt_view(s.mismatch) == Some(missing_message(missing))
}

/// Number of passed chain test cases.
pub open spec fn chain_passed_count(s: Seq<SingleChainTestResult>) -> nat
    decreases s.len(),
{
    if s.len() == 0 {
        0
    } else {
        chain_passed_count(s.drop_last()) + if s[s.len() - 1].passed {
            1nat
        } else {
            0nat
        }
    }
}

/// What testing a chain definition against the micrograms `all` returns.
pub open spec fn is_chain_test_result(d: ChainDefinition, all: Seq<Microgram>, r: ChainTestResult) -> bool {
    &&& is_chain_test_outcome(d, all, r)
    &&& r.signature_validation is None
}

/// The test outcomes of a chain definition against the micrograms `all`.
pub open spec fn is_chain_test_outcome(d: ChainDefinition, all: Seq<Microgram>, r: ChainTestResult) -> bool {
    let names = names_view(d.steps@);
    &&& r.chain_name@ == d.name@
    &&& r.total == d.tests@.len()
    &&& r.results@.len() == d.tests@.len()
    &&& r.passed == chain_passed_count(r.results@)
    &&& r.passed + r.failed == r.total
    &&& if all_resolve(all, names) {
        forall|i: int| 0 <= i < d.tests@.len() ==> is_case_result(resolved(all, names), d.accumulate, #[trigger] d.tests@[i], r.results@[i])
    } else {
        forall|i: int| 0 <= i < d.tests@.len() ==> is_missing_result(unresolved(all, names), #[trigger] d.tests@[i], r.results@[i])
    }
}

/// The message for step `k` whose path differs, computed.
fn path_message_of(k: usize, name: &String, expected: &Vec<String>, actual: &Vec<String>) -> (r: String)
    ensures
        r@ == path_message(k as nat, name@, names_view(expected@), names_view(actual@)),
{
    let ks = usize_to_decimal(k);
    let e = quoted_list_of(expected);
    let a = quoted_list_of(actual);
    let mut s = join7("path[", ks.as_str(), "] (", name.as_str(), "): expected ", e.as_str(), ", got ");
    s.append(a.as_str());
    s
}

/// Run one test case over the resolved steps.
fn run_case(ordered: &Vec<&Microgram>, acc: bool, t: &ChainTestCase) -> (s: SingleChainTestResult)
    ensures
        is_case_result(derefs(ordered@), acc, *t, s),
{
    let ghost ms = derefs(ordered@);
    let c = if acc {
        chain_accumulate_refs(ordered, t.input.clone(), false)
    } else {
        chain_refs(ordered, t.input.clone(), false)
    };
    assert(is_case_run(ms, t.input.model(), acc, c));
    let (fields_ok, field_mismatch) = check_expectations(&t.expect, &c.final_output, ", not in output");
    let n = if t.expect_paths.len() < c.steps.len() {
        t.expect_paths.len()
    } else {
        c.steps.len()
    };
    let mut path_mismatch: Option<String> = None;
    let mut k: usize = 0;
    while k < n
        invariant
            k <= n,
            n == paths_checked(*t, c),
            n <= t.expect_paths@.len(),
            n <= c.steps@.len(),
            opt_view(path_mismatch) == last_path_mismatch(t.expect_paths@, c.steps@, k as nat),
        decreases n - k,
    {
        if !crate::chain_loop::same_names(&c.steps[k].path, &t.expect_paths[k]) {
            path_mismatch = Some(path_message_of(k, &c.steps[k].name, &t.expect_paths[k], &c.steps[k].path));
        }
        k = k + 1;
    }
    let (passed, mismatch) = match path_mismatch {
        Some(m) => (false, Some(m)),
        None => (fields_ok, field_mismatch),
    };
    let s = SingleChainTestResult {
        name: t.name.clone(),
        passed,
        input: t.input.clone(),
        expected: t.expect.clone(),
        actual: c.final_output,
        mismatch,
    };
    assert(case_verdict(*t, c, s.passed, opt_view(s.mismatch)));
    s
}

impl ChainDefinition {
    /// Run every test case of the chain against `micrograms`: each step is the
    /// first microgram with that name; when some step has none, every case
    /// fails with the list of missing names. A case passes when every expected
    /// field is in the final output with an equal value and every checked
    /// step took the expected decision path.
    pub fn test(&self, micrograms: &[Microgram]) -> (r: ChainTestResult)
        ensures
            is_chain_test_result(*self, micrograms@, r),
    {
        let ghost names = names_view(self.steps@);
        let (ordered, missing) = resolve_steps(micrograms, &self.steps);
        let mut results: Vec<SingleChainTestResult> = Vec::new();
        let mut passed: usize = 0;
        let mut i: usize = 0;
        if missing.len() > 0 {
            let msg = concat_missing(&missing);
            while i < self.tests.len()
                invariant
                    i <= self.tests@.len(),
                    results@.len() == i,
                    chain_passed_count(results@) == 0,
                    msg@ == missing_message(unresolved(micrograms@, names)),
                    forall|j: int| 0 <= j < i ==> is_missing_result(unresolved(micrograms@, names), #[trigger] self.tests@[j], results@[j]),
                decreases self.tests@.len() - i,
            {
                let t = &self.tests[i];
                let s = SingleChainTestResult {
                    name: t.name.clone(),
                    passed: false,
                    input: t.input.clone(),
                    expected: t.expect.clone(),
                    actual: FieldMap::new(),
                    mismatch: Some(msg.clone()),
                };
                let ghost before = results@;
                results.push(s);
                proof {
                    assert(results@.drop_last() =~= before);
                    assert forall|j: int| 0 <= j < i + 1 implies is_missing_result(unresolved(micrograms@, names), #[trigger] self.tests@[j], results@[j]) by {
                        if j < i {
                            assert(results@[j] == before[j]);
                        }
                    }
                }
                i = i + 1;
            }
        } else {
            while i < self.tests.len()
                invariant
                    i <= self.tests@.len(),
                    results@.len() == i,
                    passed == chain_passed_count(results@),
                    passed <= i,
                    derefs(ordered@) == resolved(micrograms@, names),
                    forall|j: int| 0 <= j < i ==> is_case_result(resolved(micrograms@, names), self.accumulate, #[trigger] self.tests@[j], results@[j]),
                decreases self.tests@.len() - i,
            {
                let s = run_case(&ordered, self.accumulate, &self.tests[i]);
                if s.passed {
                    passed = passed + 1;
                }
                let ghost before = results@;
                results.push(s);
                proof {
                    assert(results@.drop_last() =~= before);
                    assert forall|j: int| 0 <= j < i + 1 implies is_case_result(resolved(micrograms@, names), self.accumulate, #[trigger] self.tests@[j], results@[j]) by {
                        if j < i {
                            assert(results@[j] == before[j]);
                        }
                    }
                }
                i = i + 1;
            }
        }
        ChainTestResult {
            chain_name: self.name.clone(),
            total: self.tests.len(),
            passed,
            failed: self.tests.len() - passed,
            results,
            signature_validation: None,
        }
    }
}

/// The message for missing steps, computed.
fn concat_missing(missing: &Vec<String>) -> (r: String)
    ensures
        r@ == missing_message(names_view(missing@)),
{
    let l = quoted_list_of(missing);
    let mut s = String::from_str("Missing micrograms: ");
    s.append(l.as_str());
    s
}


// ───────────────────────────── processes ─────────────────────────────

/// A test case of a process: the fields expected in the final state, and
/// optionally the number of iterations and the kind of halt.
#[derive(Debug)]
pub struct ProcessTestCase {
    pub name: String,
    pub input: FieldMap,
    pub expect: FieldMap,
    pub expect_iterations: Option<usize>,
    /// "MaxIterations", "HaltCondition", "Convergence" or "ChainFailure".
    pub expect_halt: Option<String>,
}

/// A process: a chain that loops under the control of a halt condition, an
/// optional governor step appended to the chain, and an iteration ceiling.
#[derive(Debug)]
pub struct ProcessDefinition {
    pub name: String,
    pub description: String,
    pub version: String,
    pub micrograms_dir: String,
    /// The chain body, by microgram name.
    pub steps: Vec<String>,
    pub accumulate: bool,
    /// Iteration ceiling.
    pub max_iterations: usize,
    pub detect_convergence: bool,
    /// Output field whose value can halt the loop.
    pub halt_field: Option<String>,
    /// The value of the halt field that halts the loop.
    pub halt_value: Option<Value>,
    /// Name of a governor microgram appended to the chain.
    pub governor: Option<String>,
    pub trajectory: bool,
    pub primitive_signature: Option<PrimitiveSignature>,
    pub tests: Vec<ProcessTestCase>,
}

/// Outcome of one process test case.
#[derive(Debug)]
pub struct SingleProcessTestResult {
    pub name: String,
    pub passed: bool,
    pub iterations: usize,
    pub halt_reason: String,
    pub expected: FieldMap,
    pub actual: FieldMap,
    pub mismatch: Option<String>,
}

/// Outcome of testing one process definition.
#[derive(Debug)]
pub struct ProcessTestResult {
    pub process_name: String,
    pub total: usize,
    pub passed: usize,
    pub failed: usize,
    pub results: Vec<SingleProcessTestResult>,
}

/// Iteration ceiling of a process that gives none.
pub fn default_max_iterations() -> (r: usize)
    ensures
        r == 10,
{
    10
}

/// The steps a process runs: its chain, then its governor if it has one.
pub open spec fn effective_names(d: ProcessDefinition) -> Seq<Seq<char>> {
    match d.governor {
        Some(g) => names_view(d.steps@).push(g@),
        None => names_view(d.steps@),
    }
}

/// The halt field of a process: the configured one, else `loop_action` when
/// a governor is present.
pub open spec fn halt_field_of(d: ProcessDefinition) -> Option<Seq<char>> {
    match d.halt_field {
        Some(f) => Some(f@),
        None => if d.governor is Some {
            Some("loop_action"@)
        } else {
            None
        },
    }
}

/// The halt value of a process: the configured one, else the string `HALT`
/// when a governor is present.
pub open spec fn halt_value_of(d: ProcessDefinition) -> Option<ValueModel> {
    match d.halt_value {
        Some(v) => Some(v.model()),
        None => if d.governor is Some {
            Some(ValueModel::Str("HALT"@))
        } else {
            None
        },
    }
}

/// Index of the first name that no microgram carries, or -1.
pub open spec fn first_unresolved(all: Seq<Microgram>, names: Seq<Seq<char>>) -> int {
    if exists|i: int| 0 <= i < names.len() && first_named(all, names[i]) < 0 {
        choose|i: int|
            0 <= i < names.len() && first_named(all, names[i]) < 0 && forall|j: int|
                0 <= j < i ==> first_named(all, #[trigger] names[j]) >= 0
    } else {
        -1
    }
}

/// The error for a step that no microgram carries.
pub open spec fn step_not_found(name: Seq<char>) -> Seq<char> {
    "Microgram '"@ + name + "' not found"@
}

/// What running a process on `input` returns.
pub open spec fn is_process_run(d: ProcessDefinition, all: Seq<Microgram>, input: Map<Seq<char>, ValueModel>, r: Result<LoopResult, String>) -> bool {
    let names = effective_names(d);
    match r {
        Ok(l) => {
            &&& all_resolve(all, names)
            &&& is_loop_run(resolved(all, names), input, d.max_iterations, halt_field_of(d), halt_value_of(d), false, l)
        },
        Err(e) => {
            &&& !all_resolve(all, names)
            &&& e@ == step_not_found(names[first_unresolved(all, names)])
        },
    }
}

impl ProcessDefinition {
    /// The chain steps, then the governor if any.
    fn effective_steps(&self) -> (r: Vec<String>)
        ensures
            names_view(r@) == effective_names(*self),
    {
        let mut steps = copy_names(&self.steps);
        match &self.governor {
            Some(g) => {
                let ghost before = steps@;
                steps.push(g.clone());
                proof {
                    assert(names_view(steps@) =~= names_view(before).push(g@));
                }
            },
            None => {},
        }
        steps
    }

    /// Run the process: select the micrograms of the effective steps (the
    /// first missing one is an error), then loop the chain (not strict) with
    /// the process's ceiling and halt condition.
    pub fn run(&self, micrograms: &[Microgram], input: FieldMap) -> (r: Result<LoopResult, String>)
        ensures
            is_process_run(*self, micrograms@, input.model(), r),
    {
        let effective = self.effective_steps();
        let ghost names = effective_names(*self);
        let mut ordered: Vec<&Microgram> = Vec::new();
        let mut i: usize = 0;
        while i < effective.len()
            invariant
                names == names_view(effective@),
                names == effective_names(*self),
                i <= effective@.len(),
                ordered@.len() == i,
                forall|j: int| 0 <= j < i ==> first_named(micrograms@, #[trigger] names[j]) >= 0,
                forall|j: int| 0 <= j < i ==> *(#[trigger] ordered@[j]) == micrograms@[first_named(micrograms@, names[j])],
            decreases effective@.len() - i,
        {
            proof {
                assert(names[i as int] == effective@[i as int]@);
            }
            match find_named(micrograms, effective[i].as_str()) {
                Some(m) => {
                    let ghost before = ordered@;
                    ordered.push(m);
                    proof {
                        assert forall|j: int| 0 <= j < i + 1 implies *(#[trigger] ordered@[j]) == micrograms@[first_named(micrograms@, names[j])] by {
                            if j < i {
                                assert(ordered@[j] == before[j]);
                            }
                        }
                    }
                },
                None => {
                    proof {
                        let w = choose|q: int|
                            0 <= q < names.len() && first_named(micrograms@, names[q]) < 0 && forall|j: int|
                                0 <= j < q ==> first_named(micrograms@, #[trigger] names[j]) >= 0;
                        assert(first_named(micrograms@, names[i as int]) < 0);
                        assert(0 <= i < names.len() && first_named(micrograms@, names[i as int]) < 0 && forall|j: int|
                            0 <= j < i ==> first_named(micrograms@, #[trigger] names[j]) >= 0);
                        assert(first_unresolved(micrograms@, names) == w);
                        assert(!all_resolve(micrograms@, names));
                        if w < i {
                            assert(first_named(micrograms@, names[w]) >= 0);
                        }
                        if w > i {
                            assert(first_named(micrograms@, names[i as int]) >= 0);
                        }
                        assert(w == i);
                    }
                    let e = join5("Microgram '", effective[i].as_str(), "' not found", "", "");
                    proof {
                        reveal_strlit("");
                        assert(e@ =~= step_not_found(names[i as int]));
                    }
                    return Err(e);
                },
            }
            i = i + 1;
        }
        proof {
            assert(derefs(ordered@) =~= resolved(micrograms@, names));
        }
        let field: Option<&str> = match &self.halt_field {
            Some(f) => Some(f.as_str()),
            None => if self.governor.is_some() {
                Some("loop_action")
            } else {
                None
            },
        };
        let value_owned: Option<Value> = match &self.halt_value {
            Some(v) => Some(v.clone()),
            None => if self.governor.is_some() {
                Some(Value::String(String::from_str("HALT")))
            } else {
                None
            },
        };
        let value: Option<&Value> = match &value_owned {
            Some(v) => Some(v),
            None => None,
        };
        assert(opt_str_view(field) == halt_field_of(*self));
        assert(opt_value_model(value) == halt_value_of(*self));
        Ok(chain_loop_refs(&ordered, input, self.max_iterations, field, value, false))
    }
}

/// How a loop's halt is reported in a test result.
pub open spec fn halt_text(h: LoopHalt) -> Seq<char> {
    match h {
        LoopHalt::MaxIterations => "MaxIterations"@,
        LoopHalt::HaltCondition { field, .. } => "HaltCondition("@ + field@ + ")"@,
        LoopHalt::Convergence { iteration } => "Convergence("@ + nat_decimal(iteration as nat) + ")"@,
        LoopHalt::ChainFailure { iteration, step } => "ChainFailure("@ + nat_decimal(iteration as nat) + ", "@ + step@ + ")"@,
    }
}

/// The kind of a loop's halt.
pub open spec fn halt_kind(h: LoopHalt) -> Seq<char> {
    match h {
        LoopHalt::MaxIterations => "MaxIterations"@,
        LoopHalt::HaltCondition { .. } => "HaltCondition"@,
        LoopHalt::Convergence { .. } => "Convergence"@,
        LoopHalt::ChainFailure { .. } => "ChainFailure"@,
    }
}

/// The iteration check of a test case, if it fails.
pub open spec fn iterations_failure(t: ProcessTestCase, l: LoopResult) -> Option<Seq<char>> {
    match t.expect_iterations {
        Some(n) => if n != l.iterations {
            Some("iterations: expected "@ + nat_decimal(n as nat) + ", got "@ + nat_decimal(l.iterations as nat))
        } else {
            None
        },
        None => None,
    }
}

/// The halt check of a test case, if it fails.
pub open spec fn halt_failure(t: ProcessTestCase, l: LoopResult) -> Option<Seq<char>> {
    match t.expect_halt {
        Some(h) => if h@ != halt_kind(l.halt_reason) {
            Some("halt_reason: expected "@ + h@ + ", got "@ + halt_kind(l.halt_reason))
        } else {
            None
        },
        None => None,
    }
}

/// The verdict on a process test case given its loop: the halt check wins
/// over the iteration check, which wins over a field mismatch.
pub open spec fn process_verdict(t: ProcessTestCase, l: LoopResult, passed: bool, mismatch: Option<Seq<char>>) -> bool {
    let em = last_failure_as(t.expect.entries@, l.final_state, ", not in output"@);
    let im = iterations_failure(t, l);
    let hm = halt_failure(t, l);
    &&& passed == (em is None && im is None && hm is None)
    &&& mismatch == if hm is Some {
        hm
    } else if im is Some {
        im
    } else {
        em
    }
}

/// What the result of a process test case holds.
pub open spec fn is_process_case_result(d: ProcessDefinition, all: Seq<Microgram>, t: ProcessTestCase, s: SingleProcessTestResult) -> bool {
    let names = effective_names(d);
    &&& s.name@ == t.name@
    &&& s.expected.model() == t.expect.model()
    &&& if all_resolve(all, names) {
        exists|l: LoopResult|
            #[trigger] is_loop_run(resolved(all, names), t.input.model(), d.max_iterations, halt_field_of(d), halt_value_of(d), false, l)
                && s.iterations == l.iterations && s.halt_reason@ == halt_text(l.halt_reason) && s.actual == l.final_state
                && process_verdict(t, l, s.passed, opt_view(s.mismatch))
    } else {
        &&& !s.passed
        &&& s.iterations == 0
        &&& s.halt_reason@ == "LoadError"@
        &&& s.actual.model() == Map::<Seq<char>, ValueModel>::empty()
        &&& opt_view(s.mismatch) == Some(step_not_found(names[first_unresolved(all, names)]))
    }
}

/// Number of passed process test cases.
pub open spec fn process_passed_count(s: Seq<SingleProcessTestResult>) -> nat
    decreases s.len(),
{
    if s.len() == 0 {
        0
    } else {
        process_passed_count(s.drop_last()) + if s[s.len() - 1].passed {
            1nat
        } else {
            0nat
        }
    }
}

/// What testing a process definition against the micrograms `all` returns.
pub open spec fn is_process_test_result(d: ProcessDefinition, all: Seq<Microgram>, r: ProcessTestResult) -> bool {
    &&& r.process_name@ == d.name@
    &&& r.total == d.tests@.len()
    &&& r.results@.len() == d.tests@.len()
    &&& r.passed == process_passed_count(r.results@)
    &&& r.passed + r.failed == r.total
    &&& forall|i: int| 0 <= i < d.tests@.len() ==> is_process_case_result(d, all, #[trigger] d.tests@[i], r.results@[i])
}

/// Render a loop's halt, computed.
fn halt_text_of(h: &LoopHalt) -> (r: String)
    ensures
        r@ == halt_text(*h),
{
    proof {
        reveal_strlit("");
    }
    match h {
        LoopHalt::MaxIterations => String::from_str("MaxIterations"),
        LoopHalt::HaltCondition { field, .. } => join5("HaltCondition(", field.as_str(), ")", "", ""),
        LoopHalt::Convergence { iteration } => {
            let n = usize_to_decimal(*iteration);
            join5("Convergence(", n.as_str(), ")", "", "")
        },
        LoopHalt::ChainFailure { iteration, step } => {
            let n = usize_to_decimal(*iteration);
            join5("ChainFailure(", n.as_str(), ", ", step.as_str(), ")")
        },
    }
}

/// The kind of a loop's halt, computed.
fn halt_kind_of(h: &LoopHalt) -> (r: &'static str)
    ensures
        r@ == halt_kind(*h),
{
    match h {
        LoopHalt::MaxIterations => "MaxIterations",
        LoopHalt::HaltCondition { .. } => "HaltCondition",
        LoopHalt::Convergence { .. } => "Convergence",
        LoopHalt::ChainFailure { .. } => "ChainFailure",
    }
}

/// Run one process test case.
fn run_process_case(d: &ProcessDefinition, all: &[Microgram], t: &ProcessTestCase) -> (s: SingleProcessTestResult)
    ensures
        is_process_case_result(*d, all@, *t, s),
{
    let l = match d.run(all, t.input.clone()) {
        Ok(l) => l,
        Err(e) => {
            let s = SingleProcessTestResult {
                name: t.name.clone(),
                passed: false,
                iterations: 0,
                halt_reason: String::from_str("LoadError"),
                expected: t.expect.clone(),
                actual: FieldMap::new(),
                mismatch: Some(e),
            };
            return s;
        },
    };
    let halt_reason = halt_text_of(&l.halt_reason);
    let (fields_ok, field_mismatch) = check_expectations(&t.expect, &l.final_state, ", not in output");
    let mut passed = fields_ok;
    let mut mismatch = field_mismatch;
    match t.expect_iterations {
        Some(n) => {
            if n != l.iterations {
                let a = usize_to_decimal(n);
                let b = usize_to_decimal(l.iterations);
                mismatch = Some(join5("iterations: expected ", a.as_str(), ", got ", b.as_str(), ""));
                proof {
                    reveal_strlit("");
                }
                passed = false;
            }
        },
        None => {},
    }
    match &t.expect_halt {
        Some(h) => {
            let kind = halt_kind_of(&l.halt_reason);
            if !crate::value::str_eq(kind, h.as_str()) {
                mismatch = Some(join5("halt_reason: expected ", h.as_str(), ", got ", kind, ""));
                proof {
                    reveal_strlit("");
                }
                passed = false;
            }
        },
        None => {},
    }
    let ghost lr = l;
    let s = SingleProcessTestResult {
        name: t.name.clone(),
        passed,
        iterations: l.iterations,
        halt_reason,
        expected: t.expect.clone(),
        actual: l.final_state,
        mismatch,
    };
    assert(process_verdict(*t, lr, s.passed, opt_view(s.mismatch)));
    s
}

impl ProcessDefinition {
    /// Run every test case of the process: a case whose steps do not all
    /// resolve fails with the load error; otherwise it passes when every
    /// expected field is in the final state with an equal value, the number of
    /// iterations is the expected one (if given) and the loop halted for the
    /// expected kind of reason (if given).
    pub fn test(&self, micrograms: &[Microgram]) -> (r: ProcessTestResult)
        ensures
            is_process_test_result(*self, micrograms@, r),
    {
        let mut results: Vec<SingleProcessTestResult> = Vec::new();
        let mut passed: usize = 0;
        let mut i: usize = 0;
        while i < self.tests.len()
            invariant
                i <= self.tests@.len(),
                results@.len() == i,
                passed == process_passed_count(results@),
                passed <= i,
                forall|j: int| 0 <= j < i ==> is_process_case_result(*self, micrograms@, #[trigger] self.tests@[j], results@[j]),
            decreases self.tests@.len() - i,
        {
            let s = run_process_case(self, micrograms, &self.tests[i]);
            if s.passed {
                passed = passed + 1;
            }
            let ghost before = results@;
            results.push(s);
            proof {
                assert(results@.drop_last() =~= before);
                assert forall|j: int| 0 <= j < i + 1 implies is_process_case_result(*self, micrograms@, #[trigger] self.tests@[j], results@[j]) by {
                    if j < i {
                        assert(results@[j] == before[j]);
                    }
                }
            }
            i = i + 1;
        }
        ProcessTestResult {
            process_name: self.name.clone(),
            total: self.tests.len(),
            passed,
            failed: self.tests.len() - passed,
            results,
        }
    }
}


// ───────────────────────────── suites ─────────────────────────────

/// The micrograms of the names that resolve, in order (missing names skipped).
pub open spec fn found_steps(all: Seq<Microgram>, names: Seq<Seq<char>>) -> Seq<Microgram>
    decreases names.len(),
{
    if names.len() == 0 {
        Seq::empty()
    } else {
        let prev = found_steps(all, names.drop_last());
        let k = first_named(all, names[names.len() - 1]);
        if k >= 0 {
            prev.push(all[k])
        } else {
            prev
        }
    }
}

fn find_found<'a>(all: &'a [Microgram], names: &Vec<String>) -> (r: Vec<&'a Microgram>)
    ensures
        derefs(r@) == found_steps(all@, names_view(names@)),
{
    let ghost ns = names_view(names@);
    let mut found: Vec<&'a Microgram> = Vec::new();
    let mut i: usize = 0;
    while i < names.len()
        invariant
            ns == names_view(names@),
            i <= names@.len(),
            derefs(found@) == found_steps(all@, ns.subrange(0, i as int)),
        decreases names@.len() - i,
    {
        proof {
            assert(ns.subrange(0, i + 1).drop_last() =~= ns.subrange(0, i as int));
            assert(ns[i as int] == names@[i as int]@);
            crate::chain::lemma_first_named(all@, ns[i as int]);
        }
        let ghost before = found@;
        match find_named(all, names[i].as_str()) {
            Some(m) => {
                found.push(m);
                proof {
                    assert(derefs(found@) =~= derefs(before).push(*m));
                }
            },
            None => {},
        }
        i = i + 1;
    }
    proof {
        assert(ns.subrange(0, names@.len() as int) =~= ns);
    }
    found
}

/// What testing one loaded chain returns: its test outcomes, and the
/// signature validation of the steps that resolve when there is one.
pub open spec fn is_suite_chain_result(d: ChainDefinition, all: Seq<Microgram>, r: ChainTestResult) -> bool {
    let found = found_steps(all, names_view(d.steps@));
    &&& is_chain_test_outcome(d, all, r)
    &&& found.len() == 0 ==> r.signature_validation is None
    &&& found.len() > 0 ==> r.signature_validation is Some && crate::signature_validator::is_signature_validation(
        d.name@,
        found,
        r.signature_validation->0,
    )
}

/// Test every chain definition against its micrograms (each loaded from the
/// chain's micrograms directory), then validate the primitive signatures of
/// the chain's steps that resolve, when any does.
pub fn test_chains(loaded: &[(ChainDefinition, Vec<Microgram>)]) -> (r: Vec<ChainTestResult>)
    ensures
        r@.len() == loaded@.len(),
        forall|i: int| 0 <= i < loaded@.len() ==> is_suite_chain_result(loaded@[i].0, loaded@[i].1@, #[trigger] r@[i]),
{
    let mut out: Vec<ChainTestResult> = Vec::new();
    let mut i: usize = 0;
    while i < loaded.len()
        invariant
            i <= loaded@.len(),
            out@.len() == i,
            forall|j: int| 0 <= j < i ==> is_suite_chain_result(loaded@[j].0, loaded@[j].1@, #[trigger] out@[j]),
        decreases loaded@.len() - i,
    {
        let d = &loaded[i].0;
        let mgs = &loaded[i].1;
        let mut result = d.test(mgs.as_slice());
        let found = find_found(mgs.as_slice(), &d.steps);
        if found.len() > 0 {
            let v = validate_chain_signatures_refs(d.name.as_str(), &found);
            result.signature_validation = Some(v);
        }
        let ghost before = out@;
        out.push(result);
        proof {
            assert forall|j: int| 0 <= j < i + 1 implies is_suite_chain_result(loaded@[j].0, loaded@[j].1@, #[trigger] out@[j]) by {
                if j < i {
                    assert(out@[j] == before[j]);
                }
            }
        }
        i = i + 1;
    }
    out
}

/// Test every process definition against its micrograms (each loaded from
/// the process's micrograms directory).
pub fn test_processes(loaded: &[(ProcessDefinition, Vec<Microgram>)]) -> (r: Vec<ProcessTestResult>)
    ensures
        r@.len() == loaded@.len(),
        forall|i: int| 0 <= i < loaded@.len() ==> is_process_test_result(loaded@[i].0, loaded@[i].1@, #[trigger] r@[i]),
{
    let mut out: Vec<ProcessTestResult> = Vec::new();
    let mut i: usize = 0;
    while i < loaded.len()
        invariant
            i <= loaded@.len(),
            out@.len() == i,
            forall|j: int| 0 <= j < i ==> is_process_test_result(loaded@[j].0, loaded@[j].1@, #[trigger] out@[j]),
        decreases loaded@.len() - i,
    {
        let result = loaded[i].0.test(loaded[i].1.as_slice());
        let ghost before = out@;
        out.push(result);
        proof {
            assert forall|j: int| 0 <= j < i + 1 implies is_process_test_result(loaded@[j].0, loaded@[j].1@, #[trigger] out@[j]) by {
                if j < i {
                    assert(out@[j] == before[j]);
                }
            }
        }
        i = i + 1;
    }
    out
}

// ───────────────────────────── micrograms directory ─────────────────────────────

/// `std::path::Path::parent` of a path given as text, rendered back to
/// text. The standard library documents that the empty path has no parent
/// and that a parent is the path without its final component, so the given
/// path starts with it; which component is final follows the platform's
/// path rules and is not stated.
#[verifier::external_body]
fn path_parent(p: &str) -> (r: Option<String>)
    ensures
        p@.len() == 0 ==> r is None,
        r is Some ==> seq_starts_with(p@, r->0@),
{
    match std::path::Path::new(p).parent() {
        Some(q) => Some(q.to_string_lossy().into_owned()),
        None => None,
    }
}

/// The prefix `\\?\` that opens a Windows verbatim path.
pub open spec fn verbatim_prefix() -> Seq<char> {
    seq!['\\', '\\', '?', '\\']
}

/// `std::path::Path::join` of two paths given as text, rendered back to
/// text. As `PathBuf::push` documents, the joined path either appends `rel`
/// to `base` or replaces the base with it, so it ends with `rel`; the one
/// exception is a base with a Windows verbatim prefix, where the joined path
/// is normalized. Where separators go follows the platform and is not
/// stated.
#[verifier::external_body]
fn path_join(base: &str, rel: &str) -> (r: String)
    ensures
        seq_ends_with(r@, rel@) || seq_starts_with(base@, verbatim_prefix()),
{
    std::path::Path::new(base).join(rel).to_string_lossy().into_owned()
}

/// The directory of a definition file, or "." when it has none.
fn definition_dir(file: &str) -> (r: String)
    ensures
        file@.len() == 0 ==> r@ == "."@,
        seq_starts_with(r@, verbatim_prefix()) ==> seq_starts_with(file@, verbatim_prefix()),
{
    match path_parent(file) {
        Some(p) => {
            proof {
                if seq_starts_with(p@, verbatim_prefix()) {
                    assert(file@.subrange(0, 4) =~= p@.subrange(0, 4));
                }
            }
            p
        },
        None => {
            let r = String::from_str(".");
            proof {
                reveal_strlit(".");
            }
            r
        },
    }
}

impl ChainDefinition {
    /// The micrograms directory, resolved against the directory of the chain
    /// file (`.` when the file has none) by `Path::join`: the result ends with
    /// the micrograms directory, unless the chain file's path has a Windows
    /// verbatim prefix. Where separators go follows the platform.
    pub fn resolve_mcg_dir(&self, chain_file: &str) -> (r: String)
        ensures
            seq_ends_with(r@, self.micrograms_dir@) || seq_starts_with(chain_file@, verbatim_prefix()),
    {
        let dir = definition_dir(chain_file);
        path_join(dir.as_str(), self.micrograms_dir.as_str())
    }
}

impl ProcessDefinition {
    /// The micrograms directory, resolved against the directory of the
    /// process file (`.` when the file has none) by `Path::join`: the result
    /// ends with the micrograms directory, unless the process file's path has
    /// a Windows verbatim prefix. Where separators go follows the platform.
    pub fn resolve_mcg_dir(&self, process_file: &str) -> (r: String)
        ensures
            seq_ends_with(r@, self.micrograms_dir@) || seq_starts_with(process_file@, verbatim_prefix()),
    {
        let dir = definition_dir(process_file);
        path_join(dir.as_str(), self.micrograms_dir.as_str())
    }
}

} // verus!
