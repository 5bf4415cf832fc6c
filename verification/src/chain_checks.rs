//! Checking a chain without running it, and checking its outputs by
//! running each step's self-tests.
use vstd::prelude::*;
use crate::value::{Value, ValueModel, FieldMap};
use crate::microgram::{Microgram, input_errors, output_errors, run_output};
use crate::chain::{with_aliases, apply_aliases};
use crate::chain_validation::{
    BoundaryErrorSeverity, EnginePrimitive, severity_of, primitive_of, any_missing, classify_primitive,
};
use crate::strmap::{StrMap, live_keys};
use crate::engine::names_view;

verus! {

/// One step's input errors found by the dry run.
#[derive(Debug, Clone)]
pub struct StepValidationError {
    pub step_index: usize,
    pub step_name: String,
    pub errors: Vec<String>,
}

/// Two steps that declare the same output field: in accumulate mode the
/// later one overwrites the earlier one's value.
#[derive(Debug, Clone)]
pub struct FieldCollision {
    pub field_name: String,
    pub first_step: usize,
    pub first_step_name: String,
    pub second_step: usize,
    pub second_step_name: String,
}

/// Result of the dry run over a whole chain.
#[derive(Debug, Clone)]
pub struct ChainValidationResult {
    pub valid: bool,
    pub steps_checked: usize,
    pub step_errors: Vec<StepValidationError>,
    pub total_errors: usize,
    pub field_collisions: Vec<FieldCollision>,
}

/// A step error as plain values: index, name, messages.
pub type StepErrorView = (nat, Seq<char>, Seq<Seq<char>>);

/// A collision as plain values: field, first step and name, second step and name.
pub type CollisionView = (Seq<char>, nat, Seq<char>, nat, Seq<char>);

/// State of the dry run after some steps.
pub struct DryRun {
    /// The simulated input of the next step.
    pub input: Map<Seq<char>, ValueModel>,
    /// For each declared output field, the first step that declares it.
    pub owners: Map<Seq<char>, (nat, Seq<char>)>,
    pub errors: Seq<StepErrorView>,
    pub collisions: Seq<CollisionView>,
}

/// Declared output fields of a step, each once, in declaration order.
pub open spec fn declared_outputs(mg: Microgram) -> Seq<Seq<char>> {
    match mg.interface {
        Some(iface) => live_keys(iface.outputs.entries@, iface.outputs.entries@.len() as int),
        None => Seq::empty(),
    }
}

/// The dry run over the declared fields `fields` of step `i` named `name`:
/// a field that an earlier step declared is a collision, otherwise this step
/// becomes its owner; a field the input lacks is added as null.
pub open spec fn declare_outputs(st: DryRun, fields: Seq<Seq<char>>, i: nat, name: Seq<char>) -> DryRun
    decreases fields.len(),
{
    if fields.len() == 0 {
        st
    } else {
        let prev = declare_outputs(st, fields.drop_last(), i, name);
        let f = fields.last();
        let (owners, collisions) = if prev.owners.contains_key(f) {
            (prev.owners, prev.collisions.push((f, prev.owners[f].0, prev.owners[f].1, i, name)))
        } else {
            (prev.owners.insert(f, (i, name)), prev.collisions)
        };
        let input = if prev.input.contains_key(f) {
            prev.input
        } else {
            prev.input.insert(f, ValueModel::Null)
        };
        DryRun { input, owners, errors: prev.errors, collisions }
    }
}

/// The dry run after the first `k` steps.
pub open spec fn dry_run(mgs: Seq<Microgram>, init: Map<Seq<char>, ValueModel>, k: nat) -> DryRun
    decreases k,
{
    if k == 0 {
        DryRun { input: init, owners: Map::empty(), errors: Seq::empty(), collisions: Seq::empty() }
    } else {
        let prev = dry_run(mgs, init, (k - 1) as nat);
        let i = (k - 1) as nat;
        let mg = mgs[i as int];
        let input = with_aliases(prev.input, mg);
        let errs = match mg.interface {
            Some(iface) => input_errors(iface.inputs.entries@, input),
            None => Seq::empty(),
        };
        let errors = if errs.len() > 0 {
            prev.errors.push((i, mg.name@, errs))
        } else {
            prev.errors
        };
        declare_outputs(
            DryRun { input, owners: prev.owners, errors, collisions: prev.collisions },
            declared_outputs(mg),
            i,
            mg.name@,
        )
    }
}

/// Total number of messages over all step errors.
pub open spec fn message_count(s: Seq<StepErrorView>) -> nat
    decreases s.len(),
{
    if s.len() == 0 {
        0
    } else {
        message_count(s.drop_last()) + s.last().2.len()
    }
}

proof fn lemma_declare_keeps_errors(st: DryRun, fields: Seq<Seq<char>>, i: nat, name: Seq<char>)
    ensures
        declare_outputs(st, fields, i, name).errors == st.errors,
    decreases fields.len(),
{
    if fields.len() > 0 {
        lemma_declare_keeps_errors(st, fields.drop_last(), i, name);
    }
}

/// `n`, or `usize::MAX` when `n` does not fit.
pub open spec fn capped(n: nat) -> nat {
    if n <= usize::MAX {
        n
    } else {
        usize::MAX as nat
    }
}

impl StepValidationError {
    pub open spec fn view_of(self) -> StepErrorView {
        (self.step_index as nat, self.step_name@, names_view(self.errors@))
    }
}

impl FieldCollision {
    pub open spec fn view_of(self) -> CollisionView {
        (
            self.field_name@,
            self.first_step as nat,
            self.first_step_name@,
            self.second_step as nat,
            self.second_step_name@,
        )
    }
}

pub open spec fn step_errors_view(s: Seq<StepValidationError>) -> Seq<StepErrorView> {
    s.map_values(|e: StepValidationError| e.view_of())
}

pub open spec fn collisions_view(s: Seq<FieldCollision>) -> Seq<CollisionView> {
    s.map_values(|c: FieldCollision| c.view_of())
}

/// Meaning of the table of owners.
pub open spec fn owners_model(m: StrMap<(usize, String)>) -> Map<Seq<char>, (nat, Seq<char>)> {
    m.model().map_values(|o: (usize, String)| (o.0 as nat, o.1@))
}

/// Validate every step of a chain against the data that would reach it,
/// without running any tree: each step's aliases are applied, its input is
/// checked against its declared inputs, and its declared outputs are added
/// (as null where absent) to the data passed on. Steps that declare an
/// output field an earlier step declared are reported as collisions. The
/// chain is valid when no step has input errors and nothing collides.
pub fn chain_validate_all(micrograms: &[Microgram], initial_input: &FieldMap) -> (r: ChainValidationResult)
    ensures
        ({
            let d = dry_run(micrograms@, initial_input.model(), micrograms@.len() as nat);
            &&& step_errors_view(r.step_errors@) == d.errors
            &&& collisions_view(r.field_collisions@) == d.collisions
            &&& r.total_errors == capped(message_count(d.errors))
            &&& r.steps_checked == micrograms@.len()
            &&& r.valid == (d.errors.len() == 0 && d.collisions.len() == 0)
        }),
{
    let ghost mgs = micrograms@;
    let ghost init = initial_input.model();
    let mut input = initial_input.clone();
    let mut owners: StrMap<(usize, String)> = StrMap::new();
    let mut step_errors: Vec<StepValidationError> = Vec::new();
    let mut collisions: Vec<FieldCollision> = Vec::new();
    let mut total: usize = 0;
    proof {
        assert(owners_model(owners) =~= Map::<Seq<char>, (nat, Seq<char>)>::empty());
        assert(step_errors_view(step_errors@) =~= Seq::<StepErrorView>::empty());
        assert(collisions_view(collisions@) =~= Seq::<CollisionView>::empty());
    }
    let n = micrograms.len();
    let mut i: usize = 0;
    while i < n
        invariant
            mgs == micrograms@,
            init == initial_input.model(),
            n == mgs.len(),
            i <= n,
            ({
                let d = dry_run(mgs, init, i as nat);
                &&& input.model() == d.input
                &&& owners_model(owners) == d.owners
                &&& step_errors_view(step_errors@) == d.errors
                &&& collisions_view(collisions@) == d.collisions
                &&& total as nat == capped(message_count(d.errors))
            }),
        decreases n - i,
    {
        let mg = &micrograms[i];
        let ghost d0 = dry_run(mgs, init, i as nat);
        apply_aliases(&mut input, mg);
        let errors = mg.validate_input(&input);
        let ghost eb = step_errors@;
        let ghost ev = names_view(errors@);
        proof {
            assert(ev.len() == errors@.len());
        }
        if errors.len() > 0 {
            let count = errors.len();
            total = total.saturating_add(count);
            step_errors.push(StepValidationError { step_index: i, step_name: mg.name.clone(), errors });
            proof {
                assert(step_errors_view(step_errors@) =~= step_errors_view(eb).push((i as nat, mg.name@, ev)));
                assert(step_errors_view(step_errors@).drop_last() =~= step_errors_view(eb));
            }
        }
        let ghost before = DryRun {
            input: input.model(),
            owners: owners_model(owners),
            errors: step_errors_view(step_errors@),
            collisions: collisions_view(collisions@),
        };
        match &mg.interface {
            Some(iface) => {
                let fields = iface.outputs.keys();
                let mut j: usize = 0;
                while j < fields.len()
                    invariant
                        j <= fields@.len(),
                        ({
                            let d = declare_outputs(before, names_view(fields@).subrange(0, j as int), i as nat, mg.name@);
                            &&& input.model() == d.input
                            &&& owners_model(owners) == d.owners
                            &&& step_errors_view(step_errors@) == d.errors
                            &&& collisions_view(collisions@) == d.collisions
                        }),
                    decreases fields@.len() - j,
                {
                    let f = &fields[j];
                    let ghost prev = declare_outputs(before, names_view(fields@).subrange(0, j as int), i as nat, mg.name@);
                    proof {
                        assert(names_view(fields@).subrange(0, j + 1).drop_last() =~= names_view(fields@).subrange(
                            0,
                            j as int,
                        ));
                    }
                    match owners.get(f.as_str()) {
                        Some(owner) => {
                            let ghost cb = collisions@;
                            collisions.push(
                                FieldCollision {
                                    field_name: f.clone(),
                                    first_step: owner.0,
                                    first_step_name: owner.1.clone(),
                                    second_step: i,
                                    second_step_name: mg.name.clone(),
                                },
                            );
                            proof {
                                assert(collisions_view(collisions@) =~= collisions_view(cb).push(collisions@.last().view_of()));
                            }
                        },
                        None => {
                            let ghost ob = owners_model(owners);
                            owners.insert(f.clone(), (i, mg.name.clone()));
                            proof {
                                assert(owners_model(owners) =~= ob.insert(f@, (i as nat, mg.name@)));
                            }
                        },
                    }
                    if !input.contains_key(f.as_str()) {
                        input.insert(f.clone(), Value::Null);
                    }
                    j = j + 1;
                }
                proof {
                    assert(names_view(fields@).subrange(0, fields@.len() as int) =~= names_view(fields@));
                }
            },
            None => {},
        }
        proof {
            let d1 = dry_run(mgs, init, (i + 1) as nat);
            assert(mg == mgs[i as int]);
            assert(before == DryRun {
                input: with_aliases(d0.input, *mg),
                owners: d0.owners,
                errors: d1.errors,
                collisions: d0.collisions,
            }) by {
                lemma_declare_keeps_errors(
                    DryRun {
                        input: with_aliases(d0.input, *mg),
                        owners: d0.owners,
                        errors: before.errors,
                        collisions: d0.collisions,
                    },
                    declared_outputs(*mg),
                    i as nat,
                    mg.name@,
                );
            }
            lemma_declare_keeps_errors(before, declared_outputs(*mg), i as nat, mg.name@);
        }
        i = i + 1;
    }
    let valid = step_errors.len() == 0 && collisions.len() == 0;
    ChainValidationResult { valid, steps_checked: n, step_errors, total_errors: total, field_collisions: collisions }
}


/// One self-test whose output breaks the step's declared outputs.
#[derive(Debug, Clone)]
pub struct EgressFinding {
    pub step_index: usize,
    pub step_name: String,
    pub test_index: usize,
    pub errors: Vec<String>,
    pub severity: BoundaryErrorSeverity,
    pub primitive: EnginePrimitive,
    pub recommendation: String,
}

/// Result of checking the outputs of every step's self-tests.
#[derive(Debug, Clone)]
pub struct ChainEgressValidationResult {
    pub valid: bool,
    pub steps_checked: usize,
    pub findings: Vec<EgressFinding>,
    pub total_findings: usize,
}

/// A finding as plain values.
pub type EgressView = (nat, Seq<char>, nat, Seq<Seq<char>>, BoundaryErrorSeverity, EnginePrimitive, Seq<char>);

impl EgressFinding {
    pub open spec fn view_of(self) -> EgressView {
        (
            self.step_index as nat,
            self.step_name@,
            self.test_index as nat,
            names_view(self.errors@),
            self.severity,
            self.primitive,
            self.recommendation@,
        )
    }
}

pub open spec fn egress_view(s: Seq<EgressFinding>) -> Seq<EgressView> {
    s.map_values(|f: EgressFinding| f.view_of())
}

/// Missing when some message reports a missing field, TypeMismatch otherwise.
pub open spec fn worst_severity(errs: Seq<Seq<char>>) -> BoundaryErrorSeverity {
    if exists|j: int| 0 <= j < errs.len() && severity_of(#[trigger] errs[j]) == BoundaryErrorSeverity::Missing {
        BoundaryErrorSeverity::Missing
    } else {
        BoundaryErrorSeverity::TypeMismatch
    }
}

/// Output errors of step `mg` on its `t`-th self-test.
pub open spec fn test_output_errors(mg: Microgram, t: int) -> Seq<Seq<char>> {
    match mg.interface {
        Some(iface) => output_errors(iface.outputs.entries@, run_output(mg, mg.tests@[t].input.model())),
        None => Seq::empty(),
    }
}

/// Findings of the first `n` self-tests of step `i`.
pub open spec fn test_findings(mg: Microgram, i: nat, n: int) -> Seq<EgressView>
    decreases n,
{
    if n <= 0 {
        Seq::empty()
    } else {
        let prev = test_findings(mg, i, n - 1);
        let errs = test_output_errors(mg, n - 1);
        if errs.len() > 0 {
            let (p, rec) = primitive_of("egress"@, errs[0]);
            prev.push((i, mg.name@, (n - 1) as nat, errs, worst_severity(errs), p, rec))
        } else {
            prev
        }
    }
}

/// Findings of the first `k` steps; steps without an interface are skipped.
pub open spec fn egress_findings(mgs: Seq<Microgram>, k: nat) -> Seq<EgressView>
    decreases k,
{
    if k == 0 {
        Seq::empty()
    } else {
        let prev = egress_findings(mgs, (k - 1) as nat);
        let mg = mgs[k - 1];
        if mg.interface is Some {
            prev + test_findings(mg, (k - 1) as nat, mg.tests@.len() as int)
        } else {
            prev
        }
    }
}

/// Run each step's self-tests and check the actual outputs against the
/// step's declared outputs. Every test whose output breaks them is a
/// finding, classified by its messages; the chain is valid when there is
/// none.
pub fn chain_validate_egress(micrograms: &[Microgram]) -> (r: ChainEgressValidationResult)
    ensures
        egress_view(r.findings@) == egress_findings(micrograms@, micrograms@.len() as nat),
        r.total_findings == r.findings@.len(),
        r.steps_checked == micrograms@.len(),
        r.valid == (r.findings@.len() == 0),
{
    let ghost mgs = micrograms@;
    let mut findings: Vec<EgressFinding> = Vec::new();
    let n = micrograms.len();
    let mut i: usize = 0;
    while i < n
        invariant
            mgs == micrograms@,
            n == mgs.len(),
            i <= n,
            egress_view(findings@) == egress_findings(mgs, i as nat),
        decreases n - i,
    {
        let mg = &micrograms[i];
        let ghost start = egress_view(findings@);
        if mg.interface.is_some() {
            let mut t: usize = 0;
            while t < mg.tests.len()
                invariant
                    mg == mgs[i as int],
                    mg.interface is Some,
                    t <= mg.tests@.len(),
                    egress_view(findings@) == start + test_findings(*mg, i as nat, t as int),
                decreases mg.tests@.len() - t,
            {
                let result = mg.run(mg.tests[t].input.clone());
                let errors = mg.validate_output(&result.output);
                let ghost errs = names_view(errors@);
                proof {
                    assert(errs == test_output_errors(*mg, t as int));
                    assert(errs.len() == errors@.len());
                }
                if errors.len() > 0 {
                    let missing = any_missing(&errors);
                    let severity = if missing {
                        BoundaryErrorSeverity::Missing
                    } else {
                        BoundaryErrorSeverity::TypeMismatch
                    };
                    let (primitive, recommendation) = classify_primitive("egress", errors[0].as_str());
                    proof {
                        if missing {
                            let j = choose|j: int| 0 <= j < errors@.len() && severity_of(#[trigger] errors@[j]@)
                                == BoundaryErrorSeverity::Missing;
                            assert(severity_of(errs[j]) == BoundaryErrorSeverity::Missing);
                        } else {
                            assert forall|j: int| 0 <= j < errs.len() implies severity_of(#[trigger] errs[j])
                                != BoundaryErrorSeverity::Missing by {
                                assert(errs[j] == errors@[j]@);
                            }
                        }
                        assert(severity == worst_severity(errs));
                    }
                    let ghost fb = findings@;
                    findings.push(
                        EgressFinding {
                            step_index: i,
                            step_name: mg.name.clone(),
                            test_index: t,
                            errors,
                            severity,
                            primitive,
                            recommendation: String::from_str(recommendation),
                        },
                    );
                    proof {
                        assert(egress_view(findings@) =~= egress_view(fb).push(findings@.last().view_of()));
                    }
                }
                t = t + 1;
            }
        }
        proof {
            assert(mg == mgs[i as int]);
            if mg.interface is None {
                assert(egress_findings(mgs, (i + 1) as nat) == start);
            }
        }
        i = i + 1;
    }
    let total = findings.len();
    ChainEgressValidationResult { valid: total == 0, steps_checked: n, findings, total_findings: total }
}

} // verus!
