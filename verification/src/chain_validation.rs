//! Chains with boundary validation at every step, and dry-run validation.
use vstd::prelude::*;
use crate::value::{Value, ValueModel, FieldMap};
use crate::microgram::{
    Microgram, ValidatedResult, ingress_errors, egress_errors_of, run_output, validated_output,
    is_validated_result,
};
use crate::chain::{with_aliases, without_internal, merge_into, public_fields, apply_aliases, add_duration, as_refs, derefs};
use crate::engine::names_view;
use crate::text::{seq_contains, str_contains, concat};
use crate::debug::{nat_decimal, usize_to_decimal};

verus! {

/// Severity of a boundary error: whether the chain must halt.
#[derive(Debug, Clone, Copy, PartialEq, Eq, Structural)]
pub enum BoundaryErrorSeverity {
    /// A required field is missing: downstream steps will fail.
    Missing,
    /// A field has the wrong type: downstream steps may still succeed.
    TypeMismatch,
}

/// The engine primitive a boundary error belongs to.
#[derive(Debug, Clone, Copy, PartialEq, Eq, Structural)]
pub enum EnginePrimitive {
    Seal,
    Convert,
    Time,
    Lubricate,
    Transfer,
}

/// A boundary error with its step, direction, severity and a recommendation.
#[derive(Debug)]
pub struct BoundaryError {
    pub step_index: usize,
    pub step_name: String,
    pub direction: String,
    pub message: String,
    pub severity: BoundaryErrorSeverity,
    pub primitive: EnginePrimitive,
    pub recommendation: String,
}

/// Result of a validated chain.
#[derive(Debug)]
pub struct ValidatedChainResult {
    pub success: bool,
    pub steps: Vec<ValidatedResult>,
    pub final_output: FieldMap,
    pub total_duration_us: u64,
    pub boundary_errors: Vec<String>,
    pub boundary_findings: Vec<BoundaryError>,
}

/// Severity of an error message: Missing when it reports a missing required field.
pub open spec fn severity_of(err: Seq<char>) -> BoundaryErrorSeverity {
    if seq_contains(err, "Missing required"@) {
        BoundaryErrorSeverity::Missing
    } else {
        BoundaryErrorSeverity::TypeMismatch
    }
}

/// Primitive and recommendation for an error in a direction.
pub open spec fn primitive_of(direction: Seq<char>, message: Seq<char>) -> (EnginePrimitive, Seq<char>) {
    if direction == "ingress"@ {
        if seq_contains(message, "Missing required"@) {
            (EnginePrimitive::Seal, "Add required field to upstream output or insert adapter microgram"@)
        } else if seq_contains(message, "expected type"@) {
            (EnginePrimitive::Seal, "Schema types disagree \u{2014} add type-converting adapter"@)
        } else {
            (EnginePrimitive::Seal, "Ingress contract violation \u{2014} inspect upstream output schema"@)
        }
    } else if direction == "egress"@ {
        if seq_contains(message, "Missing required"@) {
            (EnginePrimitive::Convert, "Decision tree path doesn't produce required output \u{2014} add missing return nodes"@)
        } else if seq_contains(message, "expected type"@) {
            (EnginePrimitive::Convert, "Tree produces wrong type \u{2014} check return node values"@)
        } else {
            (EnginePrimitive::Convert, "Egress contract violation \u{2014} inspect return node schema"@)
        }
    } else {
        (EnginePrimitive::Transfer, "Interface contract violation \u{2014} inspect chain topology"@)
    }
}

/// Classify an error message as Missing (halt-worthy) or TypeMismatch (warning).
pub fn classify_error_severity(err: &str) -> (r: BoundaryErrorSeverity)
    ensures
        r == severity_of(err@),
{
    if str_contains(err, "Missing required") {
        BoundaryErrorSeverity::Missing
    } else {
        BoundaryErrorSeverity::TypeMismatch
    }
}

/// Classify a boundary error into an engine primitive and a recommendation.
pub fn classify_primitive(direction: &str, message: &str) -> (r: (EnginePrimitive, &'static str))
    ensures
        r.0 == primitive_of(direction@, message@).0,
        r.1@ == primitive_of(direction@, message@).1,
{
    if crate::value::str_eq(direction, "ingress") {
        if str_contains(message, "Missing required") {
            (EnginePrimitive::Seal, "Add required field to upstream output or insert adapter microgram")
        } else if str_contains(message, "expected type") {
            (EnginePrimitive::Seal, "Schema types disagree \u{2014} add type-converting adapter")
        } else {
            (EnginePrimitive::Seal, "Ingress contract violation \u{2014} inspect upstream output schema")
        }
    } else if crate::value::str_eq(direction, "egress") {
        if str_contains(message, "Missing required") {
            (EnginePrimitive::Convert, "Decision tree path doesn't produce required output \u{2014} add missing return nodes")
        } else if str_contains(message, "expected type") {
            (EnginePrimitive::Convert, "Tree produces wrong type \u{2014} check return node values")
        } else {
            (EnginePrimitive::Convert, "Egress contract violation \u{2014} inspect return node schema")
        }
    } else {
        (EnginePrimitive::Transfer, "Interface contract violation \u{2014} inspect chain topology")
    }
}

/// Meaning of a boundary error.
pub struct FindingModel {
    pub step_index: nat,
    pub step_name: Seq<char>,
    pub direction: Seq<char>,
    pub message: Seq<char>,
    pub severity: BoundaryErrorSeverity,
    pub primitive: EnginePrimitive,
    pub recommendation: Seq<char>,
}

impl BoundaryError {
    pub open spec fn model(&self) -> FindingModel {
        FindingModel {
            step_index: self.step_index as nat,
            step_name: self.step_name@,
            direction: self.direction@,
            message: self.message@,
            severity: self.severity,
            primitive: self.primitive,
            recommendation: self.recommendation@,
        }
    }
}

/// Meanings of a sequence of boundary errors.
pub open spec fn findings_view(s: Seq<BoundaryError>) -> Seq<FindingModel> {
    s.map_values(|b: BoundaryError| b.model())
}

/// The finding for one error.
pub open spec fn finding_for(k: nat, name: Seq<char>, direction: Seq<char>, e: Seq<char>) -> FindingModel {
    FindingModel {
        step_index: k,
        step_name: name,
        direction,
        message: e,
        severity: severity_of(e),
        primitive: primitive_of(direction, e).0,
        recommendation: primitive_of(direction, e).1,
    }
}

/// The flat message for one error.
pub open spec fn step_message(k: nat, name: Seq<char>, direction: Seq<char>, e: Seq<char>) -> Seq<char> {
    "Step "@ + nat_decimal(k) + " ("@ + name + "): "@ + direction + ": "@ + e
}

/// Messages of one step's errors in one direction.
pub open spec fn step_messages(k: nat, name: Seq<char>, direction: Seq<char>, errs: Seq<Seq<char>>) -> Seq<Seq<char>> {
    errs.map_values(|e: Seq<char>| step_message(k, name, direction, e))
}

/// Findings of one step's errors in one direction.
pub open spec fn step_findings(k: nat, name: Seq<char>, direction: Seq<char>, errs: Seq<Seq<char>>) -> Seq<FindingModel> {
    errs.map_values(|e: Seq<char>| finding_for(k, name, direction, e))
}

/// Append the messages and findings of one step's errors in one direction.
fn record_errors(
    messages: &mut Vec<String>,
    findings: &mut Vec<BoundaryError>,
    k: usize,
    name: &str,
    direction: &str,
    errs: &Vec<String>,
)
    ensures
        names_view(final(messages)@) == names_view(old(messages)@) + step_messages(k as nat, name@, direction@, names_view(errs@)),
        findings_view(final(findings)@) == findings_view(old(findings)@) + step_findings(k as nat, name@, direction@, names_view(errs@)),
{
    let ghost m0 = names_view(messages@);
    let ghost f0 = findings_view(findings@);
    let kd = usize_to_decimal(k);
    let mut i: usize = 0;
    while i < errs.len()
        invariant
            i <= errs@.len(),
            kd@ == nat_decimal(k as nat),
            names_view(messages@) == m0 + step_messages(k as nat, name@, direction@, names_view(errs@.subrange(0, i as int))),
            findings_view(findings@) == f0 + step_findings(k as nat, name@, direction@, names_view(errs@.subrange(0, i as int))),
        decreases errs@.len() - i,
    {
        let e = errs[i].as_str();
        let mut msg = concat("Step ", kd.as_str());
        msg.append(" (");
        msg.append(name);
        msg.append("): ");
        msg.append(direction);
        msg.append(": ");
        msg.append(e);
        let (primitive, recommendation) = classify_primitive(direction, e);
        let severity = classify_error_severity(e);
        let ghost mb = messages@;
        let ghost fb = findings@;
        messages.push(msg);
        findings.push(
            BoundaryError {
                step_index: k,
                step_name: String::from_str(name),
                direction: String::from_str(direction),
                message: String::from_str(e),
                severity,
                primitive,
                recommendation: String::from_str(recommendation),
            },
        );
        proof {
            assert(names_view(errs@.subrange(0, i + 1)) =~= names_view(errs@.subrange(0, i as int)).push(errs@[i as int]@));
            assert(names_view(messages@) =~= names_view(mb).push(msg@));
            assert(findings_view(findings@) =~= findings_view(fb).push(findings@[findings@.len() - 1].model()));
            assert(names_view(messages@) =~= m0 + step_messages(k as nat, name@, direction@, names_view(errs@.subrange(0, i + 1))));
            assert(findings_view(findings@) =~= f0 + step_findings(k as nat, name@, direction@, names_view(errs@.subrange(0, i + 1))));
        }
        i = i + 1;
    }
    proof {
        assert(errs@.subrange(0, errs@.len() as int) =~= errs@);
    }
}

/// Context before step `k` of a validated chain: outputs replace it, or are
/// merged into it when `accumulate`.
pub open spec fn vctx(mgs: Seq<Microgram>, init: Map<Seq<char>, ValueModel>, k: nat, accumulate: bool) -> Map<
    Seq<char>,
    ValueModel,
>
    decreases k,
{
    if k == 0 {
        init
    } else {
        let c = vctx(mgs, init, (k - 1) as nat, accumulate);
        let out = run_output(mgs[k - 1], with_aliases(c, mgs[k - 1]));
        if accumulate {
            c.union_prefer_right(out)
        } else {
            out
        }
    }
}

/// Input of step `k` of a validated chain.
pub open spec fn vinput(mgs: Seq<Microgram>, init: Map<Seq<char>, ValueModel>, k: nat, accumulate: bool) -> Map<
    Seq<char>,
    ValueModel,
> {
    with_aliases(vctx(mgs, init, k, accumulate), mgs[k as int])
}

/// Whether a validated chain goes on after step `k`: the input passed, the tree
/// ran without error, and no required output is missing. An egress type
/// mismatch is recorded and the chain goes on.
pub open spec fn vcontinues(mgs: Seq<Microgram>, init: Map<Seq<char>, ValueModel>, k: int, accumulate: bool) -> bool {
    let inp = vinput(mgs, init, k as nat, accumulate);
    let eg = egress_errors_of(mgs[k as int], inp);
    &&& ingress_errors(mgs[k as int], inp).len() == 0
    &&& !run_output(mgs[k as int], inp).contains_key("_error"@)
    &&& !exists|j: int| 0 <= j < eg.len() && severity_of(#[trigger] eg[j]) == BoundaryErrorSeverity::Missing
}

/// Flat messages of the first `n` steps.
pub open spec fn vmessages(mgs: Seq<Microgram>, init: Map<Seq<char>, ValueModel>, n: nat, accumulate: bool) -> Seq<Seq<char>>
    decreases n,
{
    if n == 0 {
        Seq::empty()
    } else {
        let k = (n - 1) as nat;
        let inp = vinput(mgs, init, k, accumulate);
        let ing = ingress_errors(mgs[k as int], inp);
        let eg = if ing.len() == 0 {
            egress_errors_of(mgs[k as int], inp)
        } else {
            Seq::empty()
        };
        vmessages(mgs, init, k, accumulate) + step_messages(k, mgs[k as int].name@, "ingress"@, ing) + step_messages(
            k,
            mgs[k as int].name@,
            "egress"@,
            eg,
        )
    }
}

/// Findings of the first `n` steps.
pub open spec fn vfindings(mgs: Seq<Microgram>, init: Map<Seq<char>, ValueModel>, n: nat, accumulate: bool) -> Seq<FindingModel>
    decreases n,
{
    if n == 0 {
        Seq::empty()
    } else {
        let k = (n - 1) as nat;
        let inp = vinput(mgs, init, k, accumulate);
        let ing = ingress_errors(mgs[k as int], inp);
        let eg = if ing.len() == 0 {
            egress_errors_of(mgs[k as int], inp)
        } else {
            Seq::empty()
        };
        vfindings(mgs, init, k, accumulate) + step_findings(k, mgs[k as int].name@, "ingress"@, ing) + step_findings(
            k,
            mgs[k as int].name@,
            "egress"@,
            eg,
        )
    }
}

/// The saturating sum of the validated steps' durations.
pub open spec fn vsteps_duration(s: Seq<ValidatedResult>) -> int
    decreases s.len(),
{
    if s.len() == 0 {
        0
    } else {
        crate::pipe::sat_add(vsteps_duration(s.drop_last()), s.last().result.duration_us as int)
    }
}

/// What a validated chain's result holds.
pub open spec fn is_validated_chain(mgs: Seq<Microgram>, init: Map<Seq<char>, ValueModel>, accumulate: bool, r: ValidatedChainResult) -> bool {
    let n = r.steps@.len();
    &&& n <= mgs.len()
    &&& forall|i: int| 0 <= i < n ==> is_validated_result(mgs[i], vinput(mgs, init, i as nat, accumulate), #[trigger] r.steps@[i])
    &&& forall|i: int| 0 <= i < n - 1 ==> #[trigger] vcontinues(mgs, init, i, accumulate)
    &&& names_view(r.boundary_errors@) == vmessages(mgs, init, n, accumulate)
    &&& findings_view(r.boundary_findings@) == vfindings(mgs, init, n, accumulate)
    &&& r.total_duration_us == vsteps_duration(r.steps@)
    &&& if n < mgs.len() || (n > 0 && !vcontinues(mgs, init, n - 1, accumulate)) {
        &&& n > 0
        &&& !vcontinues(mgs, init, n - 1, accumulate)
        &&& !r.success
        &&& r.final_output.model() == validated_output(mgs[n - 1], vinput(mgs, init, (n - 1) as nat, accumulate))
    } else {
        &&& n == mgs.len()
        &&& r.success == (r.boundary_errors@.len() == 0)
        &&& r.final_output.model() == if accumulate {
            without_internal(vctx(mgs, init, n, accumulate))
        } else if n == 0 {
            Map::<Seq<char>, ValueModel>::empty()
        } else {
            run_output(mgs[n - 1], vinput(mgs, init, (n - 1) as nat, accumulate))
        }
    }
}

/// True when some error reports a missing required field.
pub fn any_missing(errs: &Vec<String>) -> (r: bool)
    ensures
        r == exists|j: int| 0 <= j < errs@.len() && severity_of(#[trigger] errs@[j]@) == BoundaryErrorSeverity::Missing,
{
    let mut i: usize = 0;
    while i < errs.len()
        invariant
            i <= errs@.len(),
            forall|j: int| 0 <= j < i ==> severity_of(#[trigger] errs@[j]@) != BoundaryErrorSeverity::Missing,
        decreases errs@.len() - i,
    {
        if classify_error_severity(errs[i].as_str()) == BoundaryErrorSeverity::Missing {
            return true;
        }
        i = i + 1;
    }
    false
}

/// Chain micrograms with ingress and egress validation at every step.
///
/// Each step runs through `run_validated`. The chain halts on an ingress
/// error, on a tree that fails, or on a missing required output; an egress
/// type mismatch is recorded and the chain goes on, and the chain then does
/// not succeed. With `accumulate`, outputs are merged into the running
/// context instead of replacing it.
#[verifier::loop_isolation(false)]
pub fn chain_validated(micrograms: &[Microgram], initial_input: FieldMap, accumulate: bool) -> (r: ValidatedChainResult)
    ensures
        is_validated_chain(micrograms@, initial_input.model(), accumulate, r),
{
    let ghost ms = micrograms@;
    let ghost init = initial_input.model();
    let mut context = initial_input;
    let mut steps: Vec<ValidatedResult> = Vec::new();
    let mut total_us: u64 = 0;
    let mut boundary_errors: Vec<String> = Vec::new();
    let mut boundary_findings: Vec<BoundaryError> = Vec::new();
    let mut i: usize = 0;
    proof {
        assert(names_view(boundary_errors@) =~= Seq::<Seq<char>>::empty());
        assert(findings_view(boundary_findings@) =~= Seq::<FindingModel>::empty());
    }
    while i < micrograms.len()
        invariant
            ms == micrograms@,
            i <= ms.len(),
            steps@.len() == i,
            total_us == vsteps_duration(steps@),
            forall|j: int| 0 <= j < i ==> is_validated_result(ms[j], vinput(ms, init, j as nat, accumulate), #[trigger] steps@[j]),
            forall|j: int| 0 <= j < i ==> #[trigger] vcontinues(ms, init, j, accumulate),
            context.model() == vctx(ms, init, i as nat, accumulate),
            names_view(boundary_errors@) == vmessages(ms, init, i as nat, accumulate),
            findings_view(boundary_findings@) == vfindings(ms, init, i as nat, accumulate),
        decreases ms.len() - i,
    {
        let mg = &micrograms[i];
        let mut step_input = context.clone();
        apply_aliases(&mut step_input, mg);
        let vr = mg.run_validated(step_input);
        total_us = add_duration(total_us, vr.result.duration_us);
        record_errors(&mut boundary_errors, &mut boundary_findings, i, mg.name.as_str(), "ingress", &vr.ingress_errors);
        record_errors(&mut boundary_errors, &mut boundary_findings, i, mg.name.as_str(), "egress", &vr.egress_errors);
        proof {
            let inp = vinput(ms, init, i as nat, accumulate);
            if ingress_errors(ms[i as int], inp).len() != 0 {
                assert(names_view(vr.egress_errors@) =~= Seq::<Seq<char>>::empty());
            }
            assert(names_view(boundary_errors@) =~= vmessages(ms, init, (i + 1) as nat, accumulate));
            assert(findings_view(boundary_findings@) =~= vfindings(ms, init, (i + 1) as nat, accumulate));
        }
        let halt = vr.ingress_errors.len() > 0 || vr.result.output.contains_key("_error") || any_missing(&vr.egress_errors);
        proof {
            let inp = vinput(ms, init, i as nat, accumulate);
            assert(names_view(vr.ingress_errors@).len() == vr.ingress_errors@.len());
            assert(names_view(vr.egress_errors@).len() == vr.egress_errors@.len());
            if ingress_errors(ms[i as int], inp).len() == 0 {
                let eg = egress_errors_of(ms[i as int], inp);
                assert(names_view(vr.egress_errors@) == eg);
                assert(vr.result.output.model() == run_output(ms[i as int], inp));
                if exists|j: int| 0 <= j < eg.len() && severity_of(#[trigger] eg[j]) == BoundaryErrorSeverity::Missing {
                    let j = choose|j: int| 0 <= j < eg.len() && severity_of(#[trigger] eg[j]) == BoundaryErrorSeverity::Missing;
                    assert(vr.egress_errors@[j]@ == eg[j]);
                }
                if exists|j: int| 0 <= j < vr.egress_errors@.len() && severity_of(#[trigger] vr.egress_errors@[j]@) == BoundaryErrorSeverity::Missing {
                    let j = choose|j: int| 0 <= j < vr.egress_errors@.len() && severity_of(#[trigger] vr.egress_errors@[j]@) == BoundaryErrorSeverity::Missing;
                    assert(eg[j] == vr.egress_errors@[j]@);
                }
            }
            assert(halt == !vcontinues(ms, init, i as int, accumulate));
        }
        if halt {
            let final_output = vr.result.output.clone();
            let ghost before = steps@;
            steps.push(vr);
            proof {
                assert(steps@.drop_last() =~= before);
                assert forall|j: int| 0 <= j < i + 1 implies is_validated_result(ms[j], vinput(ms, init, j as nat, accumulate), #[trigger] steps@[j]) by {
                    if j < i {
                        assert(steps@[j] == before[j]);
                    }
                }
            }
            return ValidatedChainResult {
                success: false,
                steps,
                final_output,
                total_duration_us: total_us,
                boundary_errors,
                boundary_findings,
            };
        }
        if accumulate {
            merge_into(&mut context, &vr.result.output);
        } else {
            context = vr.result.output.clone();
        }
        let ghost before = steps@;
        steps.push(vr);
        proof {
            assert(steps@.drop_last() =~= before);
            assert forall|j: int| 0 <= j < i + 1 implies is_validated_result(ms[j], vinput(ms, init, j as nat, accumulate), #[trigger] steps@[j]) by {
                if j < i {
                    assert(steps@[j] == before[j]);
                }
            }
        }
        i = i + 1;
    }
    let final_output = if accumulate {
        public_fields(&context)
    } else if steps.len() > 0 {
        steps[steps.len() - 1].result.output.clone()
    } else {
        FieldMap::new()
    };
    let success = boundary_errors.len() == 0;
    ValidatedChainResult { success, steps, final_output, total_duration_us: total_us, boundary_errors, boundary_findings }
}

} // verus!
