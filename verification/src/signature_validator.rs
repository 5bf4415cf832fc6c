//! Primitive signature chain validation.
//!
//! A coherent causality chain does not go from a correlation-dominant step
//! (κ) to a persistence-dominant step (π) without a causality-dominant step
//! (→) after the correlation, and ends with a step that establishes (→) or
//! persists (π). Mapping steps (μ) are bridges and restore nothing.
use vstd::prelude::*;
use crate::microgram::Microgram;
use crate::microgram::join5;
use crate::chain::{as_refs, derefs};
use crate::value::str_eq;

verus! {

/// Severity of a signature finding.
#[derive(Debug, Clone, PartialEq, Eq, Structural)]
pub enum FindingSeverity {
    /// The chain breaks the conservation rule (κ→π without →).
    Error,
    /// A step has no signature, so it cannot be checked.
    Warning,
    /// An observation about the chain's structure.
    Info,
}

/// One finding of the validation.
#[derive(Debug, Clone)]
pub struct SignatureFinding {
    pub severity: FindingSeverity,
    pub step_index: usize,
    pub step_name: String,
    pub message: String,
}

/// Result of validating a chain's primitive signatures.
#[derive(Debug, Clone)]
pub struct SignatureValidation {
    pub chain_name: String,
    pub valid: bool,
    pub findings: Vec<SignatureFinding>,
    /// The dominant primitive of each step, "?" where a step has none.
    pub signature_sequence: Vec<String>,
    /// Whether the chain both establishes (→) and persists (π).
    pub handoff_complete: bool,
}

/// A finding as plain values: severity, step index, step name, message.
pub type FindingView = (FindingSeverity, nat, Seq<char>, Seq<char>);

impl SignatureFinding {
    pub open spec fn view_of(self) -> FindingView {
        (self.severity, self.step_index as nat, self.step_name@, self.message@)
    }
}

/// Views of a sequence of findings.
pub open spec fn findings_view(s: Seq<SignatureFinding>) -> Seq<FindingView> {
    s.map_values(|f: SignatureFinding| f.view_of())
}

/// The dominant primitive of a step, "?" when it has no signature.
pub open spec fn dominant_of(mg: Microgram) -> Seq<char> {
    match mg.primitive_signature {
        Some(sig) => sig.dominant@,
        None => "?"@,
    }
}

/// One of the first `n` steps carries a signature whose dominant is `sym`.
pub open spec fn seen_before(mgs: Seq<Microgram>, n: int, sym: Seq<char>) -> bool {
    exists|j: int| 0 <= j < n && (#[trigger] mgs[j]).primitive_signature is Some && dominant_of(mgs[j]) == sym
}

/// Before step `n`, a correlation step (κ) has come with no causality step
/// (→) after it: the last of the two kinds to occur is κ.
pub open spec fn kappa_open(mgs: Seq<Microgram>, n: int) -> bool
    decreases n,
{
    if n <= 0 {
        false
    } else if dominant_of(mgs[n - 1]) == "\u{3BA}"@ {
        true
    } else if dominant_of(mgs[n - 1]) == "\u{2192}"@ {
        false
    } else {
        kappa_open(mgs, n - 1)
    }
}

pub open spec fn missing_signature_message(name: Seq<char>) -> Seq<char> {
    "No primitive_signature on '"@ + name + "' \u{2014} cannot validate chain integrity"@
}

pub open spec fn bypass_message(name: Seq<char>) -> Seq<char> {
    "Conservation law violation: '"@ + name
        + "' (\u{3C0}) follows \u{3BA} without \u{2192} restoration. Cannot persist causality that was never established. Insert a causality assessment step (Naranjo/WHO-UMC) before persistence."@
}

pub open spec fn jump_message(prev: Seq<char>, name: Seq<char>) -> Seq<char> {
    "Direct \u{3BA}\u{2192}\u{3C0} jump at step "@ + prev + " \u{2192} "@ + name
        + ". Signal detection (\u{3BA}) cannot feed directly into regulatory action (\u{3C0}). The \u{2192} failure mode table proves: without temporal ordering and boundary, \u{3BA} is correlation, not causation."@
}

pub open spec fn terminal_message(last: Seq<char>) -> Seq<char> {
    "Chain ends with '"@ + last
        + "'-dominant step. Expected \u{2192} (causality established) or \u{3C0} (action persisted) as terminal."@
}

pub open spec fn handoff_message() -> Seq<char> {
    "Chain restores \u{2192} from \u{3BA} but does not persist to \u{3C0}. Handoff incomplete: \u{2192} fires, \u{2203} catches, but \u{3C0} does not hold."@
}

/// Findings raised at step `i`.
pub open spec fn step_findings(mgs: Seq<Microgram>, i: int) -> Seq<FindingView> {
    let mg = mgs[i];
    let name = mg.name@;
    if mg.primitive_signature is None {
        seq![(FindingSeverity::Warning, i as nat, name, missing_signature_message(name))]
    } else {
        let d = dominant_of(mg);
        let bypass: Seq<FindingView> = if d == "\u{3C0}"@ && kappa_open(mgs, i) {
            seq![(FindingSeverity::Error, i as nat, name, bypass_message(name))]
        } else {
            Seq::empty()
        };
        let jump: Seq<FindingView> = if i > 0 && d == "\u{3C0}"@ && dominant_of(mgs[i - 1]) == "\u{3BA}"@ {
            seq![(FindingSeverity::Error, i as nat, name, jump_message(mgs[i - 1].name@, name))]
        } else {
            Seq::empty()
        };
        bypass + jump
    }
}

/// Findings raised at the first `n` steps.
pub open spec fn findings_upto(mgs: Seq<Microgram>, n: int) -> Seq<FindingView>
    decreases n,
{
    if n <= 0 {
        Seq::empty()
    } else {
        findings_upto(mgs, n - 1) + step_findings(mgs, n - 1)
    }
}

/// All findings of a chain: the steps' findings, then the terminal
/// observation, then the handoff observation.
pub open spec fn chain_findings(mgs: Seq<Microgram>) -> Seq<FindingView> {
    let n = mgs.len() as int;
    let last_name = mgs[n - 1].name@;
    let last = dominant_of(mgs[n - 1]);
    let terminal: Seq<FindingView> = if n > 0 && last != "\u{2192}"@ && last != "\u{3C0}"@ {
        seq![(FindingSeverity::Info, (n - 1) as nat, last_name, terminal_message(last))]
    } else {
        Seq::empty()
    };
    let handoff: Seq<FindingView> = if seen_before(mgs, n, "\u{3BA}"@) && seen_before(mgs, n, "\u{2192}"@)
        && !seen_before(mgs, n, "\u{3C0}"@) {
        seq![(FindingSeverity::Info, (n - 1) as nat, last_name, handoff_message())]
    } else {
        Seq::empty()
    };
    findings_upto(mgs, n) + terminal + handoff
}

/// Some finding is an error.
pub open spec fn has_error(fs: Seq<FindingView>) -> bool {
    exists|i: int| 0 <= i < fs.len() && (#[trigger] fs[i]).0 == FindingSeverity::Error
}

fn finding(severity: FindingSeverity, step_index: usize, step_name: &str, message: String) -> (f: SignatureFinding)
    ensures
        f.view_of() == (severity, step_index as nat, step_name@, message@),
{
    SignatureFinding { severity, step_index, step_name: String::from_str(step_name), message }
}

/// What validating the primitive signatures of `mgs` under the chain name
/// `name` returns.
pub open spec fn is_signature_validation(name: Seq<char>, mgs: Seq<Microgram>, r: SignatureValidation) -> bool {
    &&& r.chain_name@ == name
    &&& r.signature_sequence@.len() == mgs.len()
    &&& forall|i: int| 0 <= i < mgs.len() ==> (#[trigger] r.signature_sequence@[i])@ == dominant_of(mgs[i])
    &&& findings_view(r.findings@) == chain_findings(mgs)
    &&& r.valid == !has_error(chain_findings(mgs))
    &&& r.handoff_complete == (seen_before(mgs, mgs.len() as int, "\u{2192}"@) && seen_before(mgs, mgs.len() as int, "\u{3C0}"@))
}

/// Validate that a chain's primitive signatures form a coherent sequence:
/// a step without a signature is a warning; a persistence step (π) reached
/// from a correlation step (κ) with no causality step (→) after that κ, and a
/// π step right after a κ step, are errors; a chain that does not end on → or π,
/// and one that establishes causality from κ without persisting it, get an
/// informational finding. The chain is valid when no finding is an error.
pub fn validate_chain_signatures(chain_name: &str, micrograms: &[Microgram]) -> (r: SignatureValidation)
    ensures
        r.chain_name@ == chain_name@,
        r.signature_sequence@.len() == micrograms@.len(),
        forall|i: int| 0 <= i < micrograms@.len() ==> (#[trigger] r.signature_sequence@[i])@ == dominant_of(micrograms@[i]),
        findings_view(r.findings@) == chain_findings(micrograms@),
        r.valid == !has_error(chain_findings(micrograms@)),
        r.handoff_complete == (seen_before(micrograms@, micrograms@.len() as int, "\u{2192}"@) && seen_before(
            micrograms@,
            micrograms@.len() as int,
            "\u{3C0}"@,
        )),
{
    let refs = as_refs(micrograms);
    proof {
        assert(derefs(refs@) =~= micrograms@);
    }
    validate_chain_signatures_refs(chain_name, &refs)
}

/// Signature validation over references: see [`validate_chain_signatures`].
pub fn validate_chain_signatures_refs(chain_name: &str, refs: &Vec<&Microgram>) -> (r: SignatureValidation)
    ensures
        r.chain_name@ == chain_name@,
        r.signature_sequence@.len() == derefs(refs@).len(),
        forall|i: int| 0 <= i < derefs(refs@).len() ==> (#[trigger] r.signature_sequence@[i])@ == dominant_of(derefs(refs@)[i]),
        findings_view(r.findings@) == chain_findings(derefs(refs@)),
        r.valid == !has_error(chain_findings(derefs(refs@))),
        r.handoff_complete == (seen_before(derefs(refs@), derefs(refs@).len() as int, "\u{2192}"@) && seen_before(
            derefs(refs@),
            derefs(refs@).len() as int,
            "\u{3C0}"@,
        )),
{
    let ghost mgs = derefs(refs@);
    let n = refs.len();
    let mut findings: Vec<SignatureFinding> = Vec::new();
    let mut sequence: Vec<String> = Vec::new();
    let mut saw_kappa = false;
    let mut saw_arrow = false;
    let mut saw_pi = false;
    let mut open_kappa = false;
    let mut i: usize = 0;
    while i < n
        invariant
            open_kappa == kappa_open(mgs, i as int),
            mgs == derefs(refs@),
            n == mgs.len(),
            i <= n,
            sequence@.len() == i,
            forall|j: int| 0 <= j < i ==> (#[trigger] sequence@[j])@ == dominant_of(mgs[j]),
            findings_view(findings@) == findings_upto(mgs, i as int),
            saw_kappa == seen_before(mgs, i as int, "\u{3BA}"@),
            saw_arrow == seen_before(mgs, i as int, "\u{2192}"@),
            saw_pi == seen_before(mgs, i as int, "\u{3C0}"@),
        decreases n - i,
    {
        let mg: &Microgram = refs[i];
        let ghost fb = findings@;
        let ghost sb = sequence@;
        match &mg.primitive_signature {
            None => {
                sequence.push(String::from_str("?"));
                let msg = join5(
                    "No primitive_signature on '",
                    mg.name.as_str(),
                    "' \u{2014} cannot validate chain integrity",
                    "",
                    "",
                );
                proof {
                    reveal_strlit("");
                }
                findings.push(finding(FindingSeverity::Warning, i, mg.name.as_str(), msg));
                proof {
                    reveal_strlit("?");
                    reveal_strlit("\u{3BA}");
                    reveal_strlit("\u{2192}");
                    assert("?"@[0] != "\u{3BA}"@[0]);
                    assert("?"@[0] != "\u{2192}"@[0]);
                    assert(kappa_open(mgs, i + 1) == kappa_open(mgs, i as int));
                    assert(findings_view(findings@) =~= findings_view(fb) + step_findings(mgs, i as int));
                    assert forall|sym: Seq<char>| seen_before(mgs, i + 1, sym) == seen_before(mgs, i as int, sym) by {
                        if seen_before(mgs, i + 1, sym) {
                            let j = choose|j: int| 0 <= j < i + 1 && (#[trigger] mgs[j]).primitive_signature is Some
                                && dominant_of(mgs[j]) == sym;
                            assert(j != i);
                        }
                    }
                    assert forall|j: int| 0 <= j < i + 1 implies (#[trigger] sequence@[j])@ == dominant_of(mgs[j]) by {
                        if j < i {
                            assert(sequence@[j] == sb[j]);
                        }
                    }
                }
            },
            Some(sig) => {
                let dominant = sig.dominant.as_str();
                sequence.push(sig.dominant.clone());
                let is_pi = str_eq(dominant, "\u{3C0}");
                if is_pi && open_kappa {
                    let msg = join5(
                        "Conservation law violation: '",
                        mg.name.as_str(),
                        "' (\u{3C0}) follows \u{3BA} without \u{2192} restoration. Cannot persist causality that was never established. Insert a causality assessment step (Naranjo/WHO-UMC) before persistence.",
                        "",
                        "",
                    );
                    proof {
                        reveal_strlit("");
                    }
                    findings.push(finding(FindingSeverity::Error, i, mg.name.as_str(), msg));
                }
                let ghost fm = findings@;
                if i > 0 && is_pi && str_eq(sequence[i - 1].as_str(), "\u{3BA}") {
                    let msg = join5(
                        "Direct \u{3BA}\u{2192}\u{3C0} jump at step ",
                        refs[i - 1].name.as_str(),
                        " \u{2192} ",
                        mg.name.as_str(),
                        ". Signal detection (\u{3BA}) cannot feed directly into regulatory action (\u{3C0}). The \u{2192} failure mode table proves: without temporal ordering and boundary, \u{3BA} is correlation, not causation.",
                    );
                    findings.push(finding(FindingSeverity::Error, i, mg.name.as_str(), msg));
                }
                if str_eq(dominant, "\u{3BA}") {
                    saw_kappa = true;
                    open_kappa = true;
                }
                if str_eq(dominant, "\u{2192}") {
                    saw_arrow = true;
                    open_kappa = false;
                }
                if is_pi {
                    saw_pi = true;
                }
                proof {
                    reveal_strlit("\u{3BA}");
                    reveal_strlit("\u{2192}");
                    assert("\u{3BA}"@[0] != "\u{2192}"@[0]);
                    assert(kappa_open(mgs, i + 1) == open_kappa);
                    if i > 0 {
                        assert(sequence@[i - 1] == sb[i - 1]);
                    }
                    assert(findings_view(findings@) =~= findings_view(fb) + step_findings(mgs, i as int));
                    assert forall|sym: Seq<char>|
                        #![trigger seen_before(mgs, i + 1, sym)]
                        seen_before(mgs, i + 1, sym) == (seen_before(mgs, i as int, sym) || dominant_of(mgs[i as int])
                            == sym) by {
                        if seen_before(mgs, i as int, sym) {
                            let j = choose|j: int| 0 <= j < i && (#[trigger] mgs[j]).primitive_signature is Some
                                && dominant_of(mgs[j]) == sym;
                            assert(0 <= j < i + 1 && mgs[j].primitive_signature is Some && dominant_of(mgs[j]) == sym);
                        }
                        if dominant_of(mgs[i as int]) == sym {
                            assert(mgs[i as int].primitive_signature is Some);
                        }
                        if seen_before(mgs, i + 1, sym) {
                            let j = choose|j: int| 0 <= j < i + 1 && (#[trigger] mgs[j]).primitive_signature is Some
                                && dominant_of(mgs[j]) == sym;
                            if j < i {
                                assert(seen_before(mgs, i as int, sym));
                            }
                        }
                    }
                    assert forall|j: int| 0 <= j < i + 1 implies (#[trigger] sequence@[j])@ == dominant_of(mgs[j]) by {
                        if j < i {
                            assert(sequence@[j] == sb[j]);
                        }
                    }
                }
            },
        }
        proof {
            assert(findings_upto(mgs, i + 1) == findings_upto(mgs, i as int) + step_findings(mgs, i as int));
        }
        i = i + 1;
    }
    let ghost fs = findings@;
    if n > 0 {
        let last = sequence[n - 1].as_str();
        if !str_eq(last, "\u{2192}") && !str_eq(last, "\u{3C0}") {
            let msg = join5(
                "Chain ends with '",
                last,
                "'-dominant step. Expected \u{2192} (causality established) or \u{3C0} (action persisted) as terminal.",
                "",
                "",
            );
            proof {
                reveal_strlit("");
            }
            findings.push(finding(FindingSeverity::Info, n - 1, refs[n - 1].name.as_str(), msg));
        }
    }
    let ghost ft = findings@;
    if saw_kappa && saw_arrow && !saw_pi {
        findings.push(
            finding(
                FindingSeverity::Info,
                n - 1,
                refs[n - 1].name.as_str(),
                String::from_str(
                    "Chain restores \u{2192} from \u{3BA} but does not persist to \u{3C0}. Handoff incomplete: \u{2192} fires, \u{2203} catches, but \u{3C0} does not hold.",
                ),
            ),
        );
    }
    proof {
        if n == 0 {
            assert(!seen_before(mgs, 0, "\u{3BA}"@));
        }
        assert(findings_view(findings@) =~= chain_findings(mgs));
    }
    let mut has_errors = false;
    let mut k: usize = 0;
    while k < findings.len()
        invariant
            k <= findings@.len(),
            has_errors == exists|j: int| 0 <= j < k && (#[trigger] findings@[j]).severity == FindingSeverity::Error,
        decreases findings@.len() - k,
    {
        if findings[k].severity == FindingSeverity::Error {
            has_errors = true;
        }
        k = k + 1;
    }
    proof {
        let fv = findings_view(findings@);
        if has_errors {
            let j = choose|j: int| 0 <= j < k && (#[trigger] findings@[j]).severity == FindingSeverity::Error;
            assert(fv[j].0 == FindingSeverity::Error);
        }
        if has_error(fv) {
            let j = choose|j: int| 0 <= j < fv.len() && (#[trigger] fv[j]).0 == FindingSeverity::Error;
            assert(findings@[j].severity == FindingSeverity::Error);
        }
    }
    SignatureValidation {
        chain_name: String::from_str(chain_name),
        valid: !has_errors,
        findings,
        signature_sequence: sequence,
        handoff_complete: saw_arrow && saw_pi,
    }
}

} // verus!
