//! Looping chains and path snapshots.
use vstd::prelude::*;
use crate::value::{Value, ValueModel, FieldMap};
use crate::microgram::{Microgram, MicrogramResult};
use crate::chain::{
    ChainResult, chain_accumulate, chain_accumulate_refs, is_accumulate_run, acc_success, acc_final,
    merge_into, add_duration, derefs, select_named, named_sequence, first_named, first_missing,
    not_found_message,
};
use crate::engine::names_view;

verus! {

/// Why a loop stopped.
#[derive(Debug)]
pub enum LoopHalt {
    /// The iteration ceiling was reached.
    MaxIterations,
    /// The halt field held the halt value.
    HaltCondition { field: String, value: Value },
    /// A step of the chain failed.
    ChainFailure { iteration: usize, step: String },
    /// The output equalled the previous iteration's output.
    Convergence { iteration: usize },
}

/// Result of a looped chain.
#[derive(Debug)]
pub struct LoopResult {
    pub success: bool,
    pub iterations: usize,
    pub halt_reason: LoopHalt,
    pub iteration_results: Vec<ChainResult>,
    pub final_state: FieldMap,
    pub total_duration_us: u64,
    pub trajectory: Vec<FieldMap>,
}

/// Input of iteration `k`: the initial input with every earlier iteration's
/// output merged over it.
pub open spec fn loop_in(mgs: Seq<Microgram>, init: Map<Seq<char>, ValueModel>, strict: bool, k: nat) -> Map<
    Seq<char>,
    ValueModel,
>
    decreases k,
{
    if k == 0 {
        init
    } else {
        let prev = loop_in(mgs, init, strict, (k - 1) as nat);
        prev.union_prefer_right(acc_final(mgs, prev, strict))
    }
}

/// Output of iteration `k`.
pub open spec fn loop_out(mgs: Seq<Microgram>, init: Map<Seq<char>, ValueModel>, strict: bool, k: nat) -> Map<
    Seq<char>,
    ValueModel,
> {
    acc_final(mgs, loop_in(mgs, init, strict, k), strict)
}

/// The halt field holds the halt value in `out`.
pub open spec fn halt_hit(field: Option<Seq<char>>, value: Option<ValueModel>, out: Map<Seq<char>, ValueModel>) -> bool {
    match (field, value) {
        (Some(f), Some(v)) => out.contains_key(f) && out[f] == v,
        _ => false,
    }
}

/// Iteration `k` fails.
pub open spec fn loop_fails(mgs: Seq<Microgram>, init: Map<Seq<char>, ValueModel>, strict: bool, k: int) -> bool {
    !acc_success(mgs, loop_in(mgs, init, strict, k as nat), strict)
}

/// Iteration `k` reproduces the previous iteration's output.
pub open spec fn loop_converges(mgs: Seq<Microgram>, init: Map<Seq<char>, ValueModel>, strict: bool, k: int) -> bool {
    k > 0 && loop_out(mgs, init, strict, k as nat) == loop_out(mgs, init, strict, (k - 1) as nat)
}

/// The loop stops after iteration `k`.
pub open spec fn loop_stops(
    mgs: Seq<Microgram>,
    init: Map<Seq<char>, ValueModel>,
    strict: bool,
    field: Option<Seq<char>>,
    value: Option<ValueModel>,
    k: int,
) -> bool {
    ||| loop_fails(mgs, init, strict, k)
    ||| halt_hit(field, value, loop_out(mgs, init, strict, k as nat))
    ||| loop_converges(mgs, init, strict, k)
}

/// Name of the first step that did not succeed, or "unknown".
pub open spec fn first_failed_name(steps: Seq<MicrogramResult>) -> Seq<char>
    decreases steps.len(),
{
    if steps.len() == 0 {
        "unknown"@
    } else if !steps[0].success {
        steps[0].name@
    } else {
        first_failed_name(steps.drop_first())
    }
}

fn find_failed_name(steps: &Vec<MicrogramResult>) -> (r: String)
    ensures
        r@ == first_failed_name(steps@),
{
    let mut i: usize = 0;
    proof {
        assert(steps@.subrange(0, steps@.len() as int) =~= steps@);
    }
    while i < steps.len()
        invariant
            i <= steps@.len(),
            first_failed_name(steps@) == first_failed_name(steps@.subrange(i as int, steps@.len() as int)),
        decreases steps@.len() - i,
    {
        proof {
            assert(steps@.subrange(i as int, steps@.len() as int).drop_first() =~= steps@.subrange(i + 1, steps@.len() as int));
        }
        if !steps[i].success {
            return steps[i].name.clone();
        }
        i = i + 1;
    }
    proof {
        assert(steps@.subrange(i as int, steps@.len() as int).len() == 0);
    }
    String::from_str("unknown")
}

/// View of an optional string slice.
pub open spec fn opt_str_view(s: Option<&str>) -> Option<Seq<char>> {
    match s {
        Some(x) => Some(x@),
        None => None,
    }
}

/// Meaning of an optional value reference.
pub open spec fn opt_value_model(v: Option<&Value>) -> Option<ValueModel> {
    match v {
        Some(x) => Some(x.model()),
        None => None,
    }
}

/// What a loop's result holds.
pub open spec fn is_loop_run(
    mgs: Seq<Microgram>,
    init: Map<Seq<char>, ValueModel>,
    max_iterations: usize,
    field: Option<Seq<char>>,
    value: Option<ValueModel>,
    strict: bool,
    r: LoopResult,
) -> bool {
    let max: int = if max_iterations == 0 {
        100
    } else {
        max_iterations as int
    };
    let n = r.iterations as int;
    let k = n - 1;
    &&& 1 <= n <= max
    &&& forall|j: int| 0 <= j < n - 1 ==> !#[trigger] loop_stops(mgs, init, strict, field, value, j)
    &&& n < max ==> loop_stops(mgs, init, strict, field, value, k)
    &&& r.iteration_results@.len() == n
    &&& forall|j: int| 0 <= j < n ==> is_accumulate_run(mgs, loop_in(mgs, init, strict, j as nat), strict, #[trigger] r.iteration_results@[j])
    &&& r.trajectory@.len() == n
    &&& forall|j: int| 0 <= j < n ==> (#[trigger] r.trajectory@[j]).model() == loop_out(mgs, init, strict, j as nat)
    &&& r.final_state.model() == loop_out(mgs, init, strict, k as nat)
    &&& r.success == !loop_fails(mgs, init, strict, k)
    &&& match r.halt_reason {
        LoopHalt::ChainFailure { iteration, step } => {
            &&& loop_fails(mgs, init, strict, k)
            &&& iteration == k
            &&& step@ == first_failed_name(r.iteration_results@[k].steps@)
        },
        LoopHalt::HaltCondition { field: f, value: v } => {
            &&& !loop_fails(mgs, init, strict, k)
            &&& halt_hit(field, value, loop_out(mgs, init, strict, k as nat))
            &&& Some(f@) == field
            &&& Some(v.model()) == value
        },
        LoopHalt::Convergence { iteration } => {
            &&& !loop_fails(mgs, init, strict, k)
            &&& !halt_hit(field, value, loop_out(mgs, init, strict, k as nat))
            &&& loop_converges(mgs, init, strict, k)
            &&& iteration == k
        },
        LoopHalt::MaxIterations => {
            &&& !loop_stops(mgs, init, strict, field, value, k)
            &&& n == max
        },
    }
}

/// Loop over references: see [`chain_loop`].
#[verifier::loop_isolation(false)]
pub fn chain_loop_refs(
    mgs: &Vec<&Microgram>,
    initial_input: FieldMap,
    max_iterations: usize,
    halt_field: Option<&str>,
    halt_value: Option<&Value>,
    strict: bool,
) -> (r: LoopResult)
    ensures
        is_loop_run(
            derefs(mgs@),
            initial_input.model(),
            max_iterations,
            opt_str_view(halt_field),
            opt_value_model(halt_value),
            strict,
            r,
        ),
{
    let ghost ms = derefs(mgs@);
    let ghost init = initial_input.model();
    let ghost field = opt_str_view(halt_field);
    let ghost value = opt_value_model(halt_value);
    let max: usize = if max_iterations == 0 {
        100
    } else {
        max_iterations
    };
    let mut current_input = initial_input;
    let mut iteration_results: Vec<ChainResult> = Vec::new();
    let mut trajectory: Vec<FieldMap> = Vec::new();
    let mut total_us: u64 = 0;
    let mut prev_output: Option<FieldMap> = None;
    let mut i: usize = 0;
    while i < max
        invariant
            ms == derefs(mgs@),
            1 <= max,
            max == if max_iterations == 0 {
                100
            } else {
                max_iterations
            },
            i <= max,
            current_input.model() == loop_in(ms, init, strict, i as nat),
            iteration_results@.len() == i,
            trajectory@.len() == i,
            forall|j: int| 0 <= j < i ==> is_accumulate_run(ms, loop_in(ms, init, strict, j as nat), strict, #[trigger] iteration_results@[j]),
            forall|j: int| 0 <= j < i ==> (#[trigger] trajectory@[j]).model() == loop_out(ms, init, strict, j as nat),
            forall|j: int| 0 <= j < i ==> !#[trigger] loop_stops(ms, init, strict, field, value, j),
            i == 0 ==> prev_output is None,
            i > 0 ==> prev_output is Some && prev_output->0.model() == loop_out(ms, init, strict, (i - 1) as nat),
        decreases max - i,
    {
        let result = chain_accumulate_refs(mgs, current_input.clone(), strict);
        total_us = add_duration(total_us, result.total_duration_us);
        if !result.success {
            let failed_step = find_failed_name(&result.steps);
            let ghost tb = trajectory@;
            trajectory.push(result.final_output.clone());
            let final_state = result.final_output.clone();
            let ghost rb = iteration_results@;
            iteration_results.push(result);
            proof {
                assert forall|j: int| 0 <= j < i + 1 implies (#[trigger] trajectory@[j]).model() == loop_out(ms, init, strict, j as nat) by {
                    if j < i {
                        assert(trajectory@[j] == tb[j]);
                    }
                }
                assert forall|j: int| 0 <= j < i + 1 implies is_accumulate_run(ms, loop_in(ms, init, strict, j as nat), strict, #[trigger] iteration_results@[j]) by {
                    if j < i {
                        assert(iteration_results@[j] == rb[j]);
                    }
                }
            }
            return LoopResult {
                success: false,
                iterations: i + 1,
                halt_reason: LoopHalt::ChainFailure { iteration: i, step: failed_step },
                iteration_results,
                final_state,
                total_duration_us: total_us,
                trajectory,
            };
        }
        let output = result.final_output.clone();
        let ghost tb = trajectory@;
        trajectory.push(output.clone());
        let ghost rb = iteration_results@;
        proof {
            assert forall|j: int| 0 <= j < i + 1 implies (#[trigger] trajectory@[j]).model() == loop_out(ms, init, strict, j as nat) by {
                if j < i {
                    assert(trajectory@[j] == tb[j]);
                }
            }
        }
        let hit = match (halt_field, halt_value) {
            (Some(f), Some(v)) => match output.get(f) {
                Some(actual) => actual.equals(v),
                None => false,
            },
            _ => false,
        };
        if hit {
            iteration_results.push(result);
            proof {
                assert forall|j: int| 0 <= j < i + 1 implies is_accumulate_run(ms, loop_in(ms, init, strict, j as nat), strict, #[trigger] iteration_results@[j]) by {
                    if j < i {
                        assert(iteration_results@[j] == rb[j]);
                    }
                }
            }
            let (f, v) = match (halt_field, halt_value) {
                (Some(f), Some(v)) => (String::from_str(f), v.clone()),
                _ => (String::new(), Value::Null),
            };
            return LoopResult {
                success: true,
                iterations: i + 1,
                halt_reason: LoopHalt::HaltCondition { field: f, value: v },
                iteration_results,
                final_state: output,
                total_duration_us: total_us,
                trajectory,
            };
        }
        let converged = match &prev_output {
            Some(prev) => output.same_as(prev),
            None => false,
        };
        if converged {
            iteration_results.push(result);
            proof {
                assert forall|j: int| 0 <= j < i + 1 implies is_accumulate_run(ms, loop_in(ms, init, strict, j as nat), strict, #[trigger] iteration_results@[j]) by {
                    if j < i {
                        assert(iteration_results@[j] == rb[j]);
                    }
                }
            }
            return LoopResult {
                success: true,
                iterations: i + 1,
                halt_reason: LoopHalt::Convergence { iteration: i },
                iteration_results,
                final_state: output,
                total_duration_us: total_us,
                trajectory,
            };
        }
        proof {
            assert(!loop_stops(ms, init, strict, field, value, i as int));
        }
        merge_into(&mut current_input, &output);
        prev_output = Some(output);
        iteration_results.push(result);
        proof {
            assert forall|j: int| 0 <= j < i + 1 implies is_accumulate_run(ms, loop_in(ms, init, strict, j as nat), strict, #[trigger] iteration_results@[j]) by {
                if j < i {
                    assert(iteration_results@[j] == rb[j]);
                }
            }
            assert forall|j: int| 0 <= j < i + 1 implies !#[trigger] loop_stops(ms, init, strict, field, value, j) by {}
        }
        i = i + 1;
    }
    proof {
        assert(i == max);
        assert(!loop_stops(ms, init, strict, field, value, (max - 1) as int));
    }
    let final_state = trajectory[trajectory.len() - 1].clone();
    proof {
        assert(trajectory@[max - 1].model() == loop_out(ms, init, strict, (max - 1) as nat));
    }
    LoopResult {
        success: true,
        iterations: max,
        halt_reason: LoopHalt::MaxIterations,
        iteration_results,
        final_state,
        total_duration_us: total_us,
        trajectory,
    }
}

/// Loop a chain: run it repeatedly with accumulation, merging each
/// iteration's output into the next iteration's input.
///
/// Halt conditions, checked in order after each iteration: a failed step;
/// the halt field holding the halt value; an output equal to the previous
/// one; the iteration ceiling (100 when `max_iterations` is 0).
pub fn chain_loop(
    micrograms: &[Microgram],
    initial_input: FieldMap,
    max_iterations: usize,
    halt_field: Option<&str>,
    halt_value: Option<&Value>,
    strict: bool,
) -> (r: LoopResult)
    ensures
        is_loop_run(
            micrograms@,
            initial_input.model(),
            max_iterations,
            opt_str_view(halt_field),
            opt_value_model(halt_value),
            strict,
            r,
        ),
{
    let refs = crate::chain::as_refs(micrograms);
    proof {
        assert(derefs(refs@) =~= micrograms@);
    }
    chain_loop_refs(&refs, initial_input, max_iterations, halt_field, halt_value, strict)
}

/// Load-free `chain_loop_by_names`: pick the named micrograms from `all` and
/// loop them (not strict).
pub fn chain_loop_by_names(
    all: &[Microgram],
    dir: &str,
    names: &[&str],
    initial_input: FieldMap,
    max_iterations: usize,
    halt_field: Option<&str>,
    halt_value: Option<&Value>,
) -> (r: Result<LoopResult, String>)
    ensures
        match r {
            Ok(l) => {
                &&& forall|i: int| 0 <= i < names@.len() ==> first_named(all@, (#[trigger] names@[i])@) >= 0
                &&& is_loop_run(
                    named_sequence(all@, names@),
                    initial_input.model(),
                    max_iterations,
                    opt_str_view(halt_field),
                    opt_value_model(halt_value),
                    false,
                    l,
                )
            },
            Err(e) => {
                &&& exists|i: int| 0 <= i < names@.len() && first_named(all@, (#[trigger] names@[i])@) < 0
                &&& e@ == not_found_message(names@[first_missing(all@, names@)]@, dir@)
            },
        },
{
    match select_named(all, dir, names) {
        Ok(refs) => {
            proof {
                assert(derefs(refs@) =~= named_sequence(all@, names@));
            }
            Ok(chain_loop_refs(&refs, initial_input, max_iterations, halt_field, halt_value, false))
        },
        Err(e) => Err(e),
    }
}

// ───────────────────────────── path snapshots ─────────────────────────────

/// A step whose decision path differs from the expected one.
#[derive(Debug)]
pub struct PathMismatch {
    pub step_index: usize,
    pub step_name: String,
    pub expected_path: Vec<String>,
    pub actual_path: Vec<String>,
}

/// Result of checking decision paths.
#[derive(Debug)]
pub struct PathSnapshotResult {
    pub success: bool,
    pub steps_checked: usize,
    pub mismatches: Vec<PathMismatch>,
}

/// Indices of the checked steps whose path differs from the expected one.
pub open spec fn path_mismatch_indices(expected: Seq<Vec<String>>, steps: Seq<MicrogramResult>, n: nat) -> Seq<nat>
    decreases n,
{
    if n == 0 {
        Seq::empty()
    } else {
        let k = (n - 1) as nat;
        let prev = path_mismatch_indices(expected, steps, k);
        if names_view(steps[k as int].path@) != names_view(expected[k as int]@) {
            prev.push(k)
        } else {
            prev
        }
    }
}

/// True when two sequences of strings have equal views.
pub fn same_names(a: &Vec<String>, b: &Vec<String>) -> (r: bool)
    ensures
        r == (names_view(a@) == names_view(b@)),
{
    if a.len() != b.len() {
        proof {
            assert(names_view(a@).len() != names_view(b@).len());
        }
        return false;
    }
    let mut i: usize = 0;
    while i < a.len()
        invariant
            i <= a@.len(),
            a@.len() == b@.len(),
            forall|j: int| 0 <= j < i ==> a@[j]@ == b@[j]@,
        decreases a@.len() - i,
    {
        if a[i] != b[i] {
            proof {
                assert(names_view(a@)[i as int] != names_view(b@)[i as int]);
            }
            return false;
        }
        i = i + 1;
    }
    proof {
        assert(names_view(a@) =~= names_view(b@));
    }
    true
}

/// A copy of a sequence of strings.
pub fn copy_names(a: &Vec<String>) -> (r: Vec<String>)
    ensures
        names_view(r@) == names_view(a@),
{
    let mut r: Vec<String> = Vec::new();
    let mut i: usize = 0;
    while i < a.len()
        invariant
            i <= a@.len(),
            r@.len() == i,
            names_view(r@) == names_view(a@.subrange(0, i as int)),
        decreases a@.len() - i,
    {
        let ghost before = r@;
        r.push(a[i].clone());
        proof {
            assert forall|j: int| 0 <= j < i + 1 implies names_view(r@)[j] == names_view(a@.subrange(0, i + 1))[j] by {
                if j < i {
                    assert(r@[j] == before[j]);
                    assert(names_view(before)[j] == names_view(a@.subrange(0, i as int))[j]);
                }
            }
            assert(names_view(r@) =~= names_view(a@.subrange(0, i + 1)));
        }
        i = i + 1;
    }
    proof {
        assert(a@.subrange(0, a@.len() as int) =~= a@);
    }
    r
}

/// Run a chain with accumulation and compare each step's decision path with
/// the expected one. Steps beyond the expectations are not checked.
pub fn chain_verify_paths(
    micrograms: &[Microgram],
    initial_input: FieldMap,
    expected_paths: &[Vec<String>],
    strict: bool,
) -> (r: (ChainResult, PathSnapshotResult))
    ensures
        is_accumulate_run(micrograms@, initial_input.model(), strict, r.0),
        r.1.steps_checked == if expected_paths@.len() < r.0.steps@.len() {
            expected_paths@.len()
        } else {
            r.0.steps@.len()
        },
        r.1.mismatches@.len() == path_mismatch_indices(expected_paths@, r.0.steps@, r.1.steps_checked as nat).len(),
        forall|j: int| 0 <= j < r.1.mismatches@.len() ==> {
            let m = #[trigger] r.1.mismatches@[j];
            let k = path_mismatch_indices(expected_paths@, r.0.steps@, r.1.steps_checked as nat)[j];
            &&& m.step_index == k
            &&& m.step_name@ == r.0.steps@[k as int].name@
            &&& names_view(m.expected_path@) == names_view(expected_paths@[k as int]@)
            &&& names_view(m.actual_path@) == names_view(r.0.steps@[k as int].path@)
        },
        r.1.success == (r.1.mismatches@.len() == 0),
{
    let result = chain_accumulate(micrograms, initial_input, strict);
    let mut mismatches: Vec<PathMismatch> = Vec::new();
    let steps_checked = if expected_paths.len() < result.steps.len() {
        expected_paths.len()
    } else {
        result.steps.len()
    };
    let mut i: usize = 0;
    while i < steps_checked
        invariant
            i <= steps_checked,
            steps_checked <= expected_paths@.len(),
            steps_checked <= result.steps@.len(),
            mismatches@.len() == path_mismatch_indices(expected_paths@, result.steps@, i as nat).len(),
            forall|j: int| 0 <= j < mismatches@.len() ==> {
                let m = #[trigger] mismatches@[j];
                let k = path_mismatch_indices(expected_paths@, result.steps@, i as nat)[j];
                &&& m.step_index == k
                &&& m.step_name@ == result.steps@[k as int].name@
                &&& names_view(m.expected_path@) == names_view(expected_paths@[k as int]@)
                &&& names_view(m.actual_path@) == names_view(result.steps@[k as int].path@)
            },
        decreases steps_checked - i,
    {
        let actual = &result.steps[i].path;
        if !same_names(actual, &expected_paths[i]) {
            let ghost before = mismatches@;
            mismatches.push(
                PathMismatch {
                    step_index: i,
                    step_name: result.steps[i].name.clone(),
                    expected_path: copy_names(&expected_paths[i]),
                    actual_path: copy_names(actual),
                },
            );
            proof {
                assert forall|j: int| 0 <= j < mismatches@.len() implies {
                    let m = #[trigger] mismatches@[j];
                    let k = path_mismatch_indices(expected_paths@, result.steps@, (i + 1) as nat)[j];
                    &&& m.step_index == k
                    &&& m.step_name@ == result.steps@[k as int].name@
                    &&& names_view(m.expected_path@) == names_view(expected_paths@[k as int]@)
                    &&& names_view(m.actual_path@) == names_view(result.steps@[k as int].path@)
                } by {
                    if j < before.len() {
                        assert(mismatches@[j] == before[j]);
                    }
                }
            }
        }
        i = i + 1;
    }
    let success = mismatches.len() == 0;
    (result, PathSnapshotResult { success, steps_checked, mismatches })
}

} // verus!
