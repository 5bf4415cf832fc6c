//! Plain parts of the statistics toolkit: confidence levels, assumption
//! checks and the input of the 2x2 chi-square test.
use vstd::prelude::*;

verus! {

/// Epistemic confidence level, from L1 (established fact) to L6 (unknown).
#[derive(Debug, Clone, Copy, PartialEq, Eq, Structural)]
pub enum EpistemicLevel {
    /// Established fact.
    L1,
    /// Strong evidence.
    L2,
    /// Moderate evidence.
    L3,
    /// Weak evidence.
    L4,
    /// Insufficient evidence.
    L5,
    /// Unknown or unmeasurable.
    L6,
}

/// The name of a level.
pub open spec fn level_name(l: EpistemicLevel) -> Seq<char> {
    match l {
        EpistemicLevel::L1 => "L1"@,
        EpistemicLevel::L2 => "L2"@,
        EpistemicLevel::L3 => "L3"@,
        EpistemicLevel::L4 => "L4"@,
        EpistemicLevel::L5 => "L5"@,
        EpistemicLevel::L6 => "L6"@,
    }
}

impl EpistemicLevel {
    /// The name of this level: "L1" to "L6".
    pub fn as_str(&self) -> (r: &'static str)
        ensures
            r@ == level_name(*self),
    {
        match self {
            EpistemicLevel::L1 => "L1",
            EpistemicLevel::L2 => "L2",
            EpistemicLevel::L3 => "L3",
            EpistemicLevel::L4 => "L4",
            EpistemicLevel::L5 => "L5",
            EpistemicLevel::L6 => "L6",
        }
    }
}

/// Result of checking one assumption of a test.
#[derive(Debug, Clone)]
pub struct AssumptionCheck {
    pub name: String,
    pub passed: bool,
    pub message: String,
    /// "info", "warning" or "error".
    pub severity: String,
}

/// A 2x2 contingency table.
#[derive(Debug, Clone, Copy)]
pub struct ChiSquareInput {
    /// Exposed, with the event.
    pub a: i64,
    /// Exposed, without the event.
    pub b: i64,
    /// Not exposed, with the event.
    pub c: i64,
    /// Not exposed, without the event.
    pub d: i64,
}

} // verus!
