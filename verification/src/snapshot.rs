//! Snapshots of a set of micrograms: the micrograms, when they were taken,
//! and whether their self-tests pass.
use vstd::prelude::*;
use crate::microgram::{Microgram, passes_all, lemma_no_failures};
use crate::chain_checks::capped;

verus! {

/// The state of a set of micrograms at a point in time.
#[derive(Debug)]
pub struct Snapshot {
    /// RFC 3339 time of the snapshot.
    pub timestamp: String,
    pub micrograms: Vec<Microgram>,
    /// Number of self-tests, saturating at `usize::MAX`.
    pub total_tests: usize,
    /// Every self-test of every microgram passes.
    pub all_pass: bool,
}

/// Number of self-tests of some micrograms, each sum saturating at `usize::MAX`.
pub open spec fn tests_total(mgs: Seq<Microgram>) -> nat
    decreases mgs.len(),
{
    if mgs.len() == 0 {
        0
    } else {
        capped(tests_total(mgs.drop_last()) + mgs[mgs.len() - 1].tests@.len())
    }
}

impl Snapshot {
    /// The snapshot of `micrograms` taken at `timestamp`: each microgram's
    /// self-tests are run.
    pub fn of(micrograms: Vec<Microgram>, timestamp: String) -> (s: Snapshot)
        ensures
            s.micrograms == micrograms,
            s.timestamp == timestamp,
            s.total_tests == tests_total(micrograms@),
            s.all_pass == forall|i: int| 0 <= i < micrograms@.len() ==> passes_all(#[trigger] micrograms@[i]),
    {
        let mut total: usize = 0;
        let mut all_pass = true;
        let mut i: usize = 0;
        while i < micrograms.len()
            invariant
                i <= micrograms@.len(),
                total == tests_total(micrograms@.take(i as int)),
                all_pass == forall|j: int| 0 <= j < i ==> passes_all(#[trigger] micrograms@[j]),
            decreases micrograms@.len() - i,
        {
            let r = micrograms[i].test();
            proof {
                lemma_no_failures(micrograms@[i as int], r);
                assert(micrograms@.take(i + 1).drop_last() =~= micrograms@.take(i as int));
            }
            total = total.saturating_add(r.total);
            if r.failed > 0 {
                all_pass = false;
            }
            i = i + 1;
        }
        proof {
            assert(micrograms@.take(micrograms@.len() as int) =~= micrograms@);
        }
        Snapshot { timestamp, micrograms, total_tests: total, all_pass }
    }
}

} // verus!
