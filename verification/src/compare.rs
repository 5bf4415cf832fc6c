//! Comparing micrograms: a structural and behavioural diff of two, and the
//! matrix of every microgram run on every other one's tests.
use vstd::prelude::*;
use crate::value::{Value, ValueModel, FieldMap, last_index, lemma_entries_model_at, lemma_last_index};
use crate::engine::names_view;
use crate::microgram::{Microgram, run_output, expectations_hold};
use crate::interface::{input_variables, output_fields, condition_vars, return_fields, node_seq, contains_name};
use crate::compose::{can_feed_with_aliases, resolved_input};
use crate::strmap::StrMap;
use crate::chain_checks::capped;

verus! {

/// Structural and behavioural differences between two micrograms.
#[derive(Debug, Clone)]
pub struct DiffResult {
    pub left: String,
    pub right: String,
    pub same_inputs: bool,
    pub same_outputs: bool,
    pub shared_inputs: Vec<String>,
    pub left_only_inputs: Vec<String>,
    pub right_only_inputs: Vec<String>,
    pub shared_outputs: Vec<String>,
    pub left_only_outputs: Vec<String>,
    pub right_only_outputs: Vec<String>,
    /// Pairs of tests (one of each) with equal inputs.
    pub test_overlap: usize,
    /// Of those, how many give equal outputs.
    pub behavior_matches: usize,
    /// Of those, how many give different outputs.
    pub behavior_diverges: usize,
    /// Some output of the left one feeds some input of the right one.
    pub compatible: bool,
}

/// The names of `a` that `b` holds (or does not hold), in order.
pub open spec fn filter_in(a: Seq<Seq<char>>, b: Seq<Seq<char>>, inside: bool) -> Seq<Seq<char>>
    decreases a.len(),
{
    if a.len() == 0 {
        Seq::empty()
    } else {
        let prev = filter_in(a.drop_last(), b, inside);
        if b.contains(a.last()) == inside {
            prev.push(a.last())
        } else {
            prev
        }
    }
}

fn select(a: &Vec<String>, b: &Vec<String>, inside: bool) -> (r: Vec<String>)
    ensures
        names_view(r@) == filter_in(names_view(a@), names_view(b@), inside),
{
    let mut r: Vec<String> = Vec::new();
    let mut i: usize = 0;
    while i < a.len()
        invariant
            i <= a@.len(),
            names_view(r@) == filter_in(names_view(a@).subrange(0, i as int), names_view(b@), inside),
        decreases a@.len() - i,
    {
        proof {
            assert(names_view(a@).subrange(0, i + 1).drop_last() =~= names_view(a@).subrange(0, i as int));
        }
        if contains_name(b, a[i].as_str()) == inside {
            let ghost before = r@;
            r.push(a[i].clone());
            proof {
                assert(names_view(r@) =~= names_view(before).push(a@[i as int]@));
            }
        }
        i = i + 1;
    }
    proof {
        assert(names_view(a@).subrange(0, a@.len() as int) =~= names_view(a@));
    }
    r
}

/// Over the first `i` tests of `a` paired with all tests of `b` (and the
/// first `j` of `b` for test `i`): pairs with equal inputs, and how many of
/// them give equal outputs.
pub open spec fn overlap_counts(a: Microgram, b: Microgram, i: int, j: int) -> (nat, nat)
    decreases i, j,
{
    if i <= 0 {
        (0, 0)
    } else if j <= 0 {
        overlap_counts(a, b, i - 1, b.tests@.len() as int)
    } else {
        let prev = overlap_counts(a, b, i, j - 1);
        let x = a.tests@[i - 1].input.model();
        let y = b.tests@[j - 1].input.model();
        if x == y {
            let same = run_output(a, x) == run_output(b, x);
            (prev.0 + 1, prev.1 + if same {
                1nat
            } else {
                0nat
            })
        } else {
            prev
        }
    }
}

/// A copy of the aliases of a microgram.
fn copy_aliases(mg: &Microgram) -> (r: StrMap<String>)
    ensures
        r.entries@ == match mg.interface {
            Some(iface) => iface.aliases.entries@,
            None => Seq::empty(),
        },
{
    let mut v: Vec<(String, String)> = Vec::new();
    match &mg.interface {
        Some(iface) => {
            let t = &iface.aliases.entries;
            let mut i: usize = 0;
            while i < t.len()
                invariant
                    t == &iface.aliases.entries,
                    i <= t@.len(),
                    v@ == t@.subrange(0, i as int),
                decreases t@.len() - i,
            {
                v.push((t[i].0.clone(), t[i].1.clone()));
                proof {
                    assert(v@ =~= t@.subrange(0, i + 1));
                }
                i = i + 1;
            }
            proof {
                assert(t@.subrange(0, t@.len() as int) =~= t@);
            }
        },
        None => {},
    }
    StrMap { entries: v }
}

/// The aliases table of a microgram as plain entries.
pub open spec fn alias_entries_of(mg: Microgram) -> Seq<(String, String)> {
    match mg.interface {
        Some(iface) => iface.aliases.entries@,
        None => Seq::empty(),
    }
}

/// What `diff` of `a` and `b` holds.
pub open spec fn is_diff(a: Microgram, b: Microgram, r: DiffResult) -> bool {
    let ai = condition_vars(node_seq(a));
    let ao = return_fields(node_seq(a));
    let bi = condition_vars(node_seq(b));
    let bo = return_fields(node_seq(b));
    let counts = overlap_counts(a, b, a.tests@.len() as int, b.tests@.len() as int);
    &&& r.left@ == a.name@
    &&& r.right@ == b.name@
    &&& names_view(r.shared_inputs@) == filter_in(ai, bi, true)
    &&& names_view(r.left_only_inputs@) == filter_in(ai, bi, false)
    &&& names_view(r.right_only_inputs@) == filter_in(bi, ai, false)
    &&& names_view(r.shared_outputs@) == filter_in(ao, bo, true)
    &&& names_view(r.left_only_outputs@) == filter_in(ao, bo, false)
    &&& names_view(r.right_only_outputs@) == filter_in(bo, ao, false)
    &&& r.same_inputs == (r.left_only_inputs@.len() == 0 && r.right_only_inputs@.len() == 0)
    &&& r.same_outputs == (r.left_only_outputs@.len() == 0 && r.right_only_outputs@.len() == 0)
    &&& r.test_overlap == capped(counts.0)
    &&& r.behavior_matches == capped(counts.1)
    &&& r.behavior_diverges == capped((counts.0 - counts.1) as nat)
    &&& r.compatible == exists|i: int|
        0 <= i < ao.len() && (#[trigger] resolved_input(ao[i], bi, alias_entries_of(a), alias_entries_of(b)))
            is Some
}

/// Whether two micrograms read the same variables, and whether they produce
/// the same fields, does not depend on the order they are compared in.
pub proof fn lemma_diff_sameness_symmetric(a: Microgram, b: Microgram, ab: DiffResult, ba: DiffResult)
    requires
        is_diff(a, b, ab),
        is_diff(b, a, ba),
    ensures
        ab.same_inputs == ba.same_inputs,
        ab.same_outputs == ba.same_outputs,
{
    assert(names_view(ab.left_only_inputs@).len() == ab.left_only_inputs@.len());
    assert(names_view(ab.right_only_inputs@).len() == ab.right_only_inputs@.len());
    assert(names_view(ba.left_only_inputs@).len() == ba.left_only_inputs@.len());
    assert(names_view(ba.right_only_inputs@).len() == ba.right_only_inputs@.len());
    assert(names_view(ab.left_only_outputs@).len() == ab.left_only_outputs@.len());
    assert(names_view(ab.right_only_outputs@).len() == ab.right_only_outputs@.len());
    assert(names_view(ba.left_only_outputs@).len() == ba.left_only_outputs@.len());
    assert(names_view(ba.right_only_outputs@).len() == ba.right_only_outputs@.len());
}

/// Compare two micrograms: which variables they read and which fields they
/// produce (shared, or on one side only); over every pair of their tests
/// with equal inputs, whether both give the same output; and whether the
/// left one can feed the right one.
pub fn diff(a: &Microgram, b: &Microgram) -> (r: DiffResult)
    ensures
        is_diff(*a, *b, r),
{
    let a_inputs = input_variables(a);
    let a_outputs = output_fields(a);
    let b_inputs = input_variables(b);
    let b_outputs = output_fields(b);
    let shared_inputs = select(&a_inputs, &b_inputs, true);
    let left_only_inputs = select(&a_inputs, &b_inputs, false);
    let right_only_inputs = select(&b_inputs, &a_inputs, false);
    let shared_outputs = select(&a_outputs, &b_outputs, true);
    let left_only_outputs = select(&a_outputs, &b_outputs, false);
    let right_only_outputs = select(&b_outputs, &a_outputs, false);
    let mut overlap: usize = 0;
    let mut matches: usize = 0;
    let mut diverges: usize = 0;
    let mut i: usize = 0;
    while i < a.tests.len()
        invariant
            i <= a.tests@.len(),
            ({
                let c = overlap_counts(*a, *b, i as int, b.tests@.len() as int);
                &&& overlap == capped(c.0)
                &&& matches == capped(c.1)
                &&& diverges == capped((c.0 - c.1) as nat)
                &&& c.1 <= c.0
            }),
        decreases a.tests@.len() - i,
    {
        let mut j: usize = 0;
        proof {
            assert(overlap_counts(*a, *b, i + 1, 0) == overlap_counts(*a, *b, i as int, b.tests@.len() as int));
        }
        while j < b.tests.len()
            invariant
                i < a.tests@.len(),
                j <= b.tests@.len(),
                ({
                    let c = overlap_counts(*a, *b, i + 1, j as int);
                    &&& overlap == capped(c.0)
                    &&& matches == capped(c.1)
                    &&& diverges == capped((c.0 - c.1) as nat)
                    &&& c.1 <= c.0
                }),
            decreases b.tests@.len() - j,
        {
            if a.tests[i].input.same_as(&b.tests[j].input) {
                overlap = overlap.saturating_add(1);
                let ra = a.run(a.tests[i].input.clone());
                let rb = b.run(b.tests[j].input.clone());
                if ra.output.same_as(&rb.output) {
                    matches = matches.saturating_add(1);
                } else {
                    diverges = diverges.saturating_add(1);
                }
            }
            j = j + 1;
        }
        i = i + 1;
    }
    let a_aliases = copy_aliases(a);
    let b_aliases = copy_aliases(b);
    let a_out = a_outputs.as_slice();
    let b_in = b_inputs.as_slice();
    let compatible = can_feed_with_aliases(a_out, b_in, &a_aliases, &b_aliases);
    proof {
        let ao = return_fields(node_seq(*a));
        let bi = condition_vars(node_seq(*b));
        if compatible {
            let i = choose|i: int|
                0 <= i < a_out@.len() && (#[trigger] resolved_input(
                    a_out@[i]@,
                    names_view(b_in@),
                    a_aliases.entries@,
                    b_aliases.entries@,
                )) is Some;
            assert(ao[i] == a_outputs@[i]@);
            assert(resolved_input(ao[i], bi, alias_entries_of(*a), alias_entries_of(*b)) is Some);
        } else {
            assert forall|i: int| 0 <= i < ao.len() implies (#[trigger] resolved_input(
                ao[i],
                bi,
                alias_entries_of(*a),
                alias_entries_of(*b),
            )) is None by {
                assert(ao[i] == a_outputs@[i]@);
                assert(resolved_input(a_out@[i]@, names_view(b_in@), a_aliases.entries@, b_aliases.entries@) is None);
            }
        }
    }
    let same_inputs = left_only_inputs.len() == 0 && right_only_inputs.len() == 0;
    let same_outputs = left_only_outputs.len() == 0 && right_only_outputs.len() == 0;
    DiffResult {
        left: a.name.clone(),
        right: b.name.clone(),
        same_inputs,
        same_outputs,
        shared_inputs,
        left_only_inputs,
        right_only_inputs,
        shared_outputs,
        left_only_outputs,
        right_only_outputs,
        test_overlap: overlap,
        behavior_matches: matches,
        behavior_diverges: diverges,
        compatible,
    }
}


/// True when every field of `expect` is in `actual` with an equal value.
pub fn holds_all(expect: &FieldMap, actual: &FieldMap) -> (r: bool)
    ensures
        r == expectations_hold(expect.model(), actual.model()),
{
    let s = &expect.entries;
    let mut i: usize = 0;
    proof {
        crate::value::lemma_entries_model_dom(s@);
    }
    while i < s.len()
        invariant
            s == &expect.entries,
            i <= s@.len(),
            forall|j: int|
                0 <= j < i && last_index(s@, #[trigger] s@[j].0@) == j ==> actual.model().contains_key(s@[j].0@)
                    && actual.model()[s@[j].0@] == s@[j].1.model(),
        decreases s@.len() - i,
    {
        let live = match expect.position(s[i].0.as_str()) {
            Some(p) => p == i,
            None => false,
        };
        if live {
            let ok = match actual.get(s[i].0.as_str()) {
                Some(v) => v.equals(&s[i].1),
                None => false,
            };
            if !ok {
                proof {
                    lemma_entries_model_at(s@, s@[i as int].0@);
                    assert(expect.model().contains_key(s@[i as int].0@));
                }
                return false;
            }
        }
        i = i + 1;
    }
    proof {
        assert forall|k: Seq<char>| #[trigger] expect.model().contains_key(k) implies actual.model().contains_key(k)
            && actual.model()[k] == expect.model()[k] by {
            lemma_entries_model_at(s@, k);
            lemma_last_index(s@, k);
            let j = last_index(s@, k);
            assert(s@[j].0@ == k);
        }
    }
    true
}

/// One cell of the matrix: a runner on a donor's tests.
#[derive(Debug, Clone)]
pub struct MatrixCell {
    pub runner: String,
    pub test_from: String,
    pub total: usize,
    /// Runs that ended without error.
    pub executed: usize,
    /// Runs whose output held the donor's expected fields.
    pub matched: usize,
}

/// Every microgram run on every microgram's tests.
#[derive(Debug, Clone)]
pub struct MatrixResult {
    pub cells: Vec<MatrixCell>,
    pub total_runs: usize,
    /// Matches of a runner on another microgram's tests.
    pub cross_matches: usize,
}

/// Over the first `n` tests of `donor` run by `runner`: how many ended
/// without error, and how many held the expected fields.
pub open spec fn cell_counts(runner: Microgram, donor: Microgram, n: int) -> (nat, nat)
    decreases n,
{
    if n <= 0 {
        (0, 0)
    } else {
        let prev = cell_counts(runner, donor, n - 1);
        let t = donor.tests@[n - 1];
        let out = run_output(runner, t.input.model());
        (prev.0 + if !out.contains_key("_error"@) {
            1nat
        } else {
            0nat
        }, prev.1 + if expectations_hold(t.expect.model(), out) {
            1nat
        } else {
            0nat
        })
    }
}

proof fn lemma_cell_counts_bound(runner: Microgram, donor: Microgram, n: int)
    ensures
        cell_counts(runner, donor, n).0 <= if n <= 0 {
            0
        } else {
            n
        },
        cell_counts(runner, donor, n).1 <= if n <= 0 {
            0
        } else {
            n
        },
    decreases n,
{
    if n > 0 {
        lemma_cell_counts_bound(runner, donor, n - 1);
    }
}

/// The cell of `runner` on `donor`'s tests.
pub open spec fn cell_is(c: MatrixCell, runner: Microgram, donor: Microgram) -> bool {
    let k = cell_counts(runner, donor, donor.tests@.len() as int);
    &&& c.runner@ == runner.name@
    &&& c.test_from@ == donor.name@
    &&& c.total == donor.tests@.len()
    &&& c.executed == k.0
    &&& c.matched == k.1
}

/// Runs and cross-matches over the first `k` cells (row by row, runner `k / n`
/// and donor `k % n`).
pub open spec fn matrix_totals(all: Seq<Microgram>, k: int) -> (nat, nat)
    decreases k,
{
    if k <= 0 || all.len() == 0 {
        (0, 0)
    } else {
        let prev = matrix_totals(all, k - 1);
        let runner = all[(k - 1) / all.len() as int];
        let donor = all[(k - 1) % all.len() as int];
        let m = cell_counts(runner, donor, donor.tests@.len() as int).1;
        (prev.0 + donor.tests@.len(), prev.1 + if runner.name@ != donor.name@ {
            m
        } else {
            0
        })
    }
}

/// Run every microgram on every microgram's tests, row by row (runner, then
/// donor). A run is executed when it ends without error, and matched when
/// its output holds the donor's expected fields; matches between micrograms
/// of different names are cross-matches. Totals saturate at `usize::MAX`.
pub fn matrix(all: &[Microgram]) -> (r: MatrixResult)
    ensures
        r.cells@.len() == all@.len() * all@.len(),
        forall|i: int, j: int|
            0 <= i < all@.len() && 0 <= j < all@.len() ==> cell_is(
                #[trigger] r.cells@[i * all@.len() + j],
                all@[i],
                #[trigger] all@[j],
            ),
        r.total_runs == capped(matrix_totals(all@, (all@.len() * all@.len()) as int).0),
        r.cross_matches == capped(matrix_totals(all@, (all@.len() * all@.len()) as int).1),
{
    let n = all.len();
    let mut cells: Vec<MatrixCell> = Vec::new();
    let mut total_runs: usize = 0;
    let mut cross: usize = 0;
    let mut i: usize = 0;
    while i < n
        invariant
            n == all@.len(),
            i <= n,
            cells@.len() == i * n,
            forall|a: int, b: int| 0 <= a < i && 0 <= b < n ==> cell_is(#[trigger] cells@[a * n + b], all@[a], #[trigger] all@[b]),
            total_runs == capped(matrix_totals(all@, i * n).0),
            cross == capped(matrix_totals(all@, i * n).1),
        decreases n - i,
    {
        let runner = &all[i];
        let mut j: usize = 0;
        while j < n
            invariant
                n == all@.len(),
                i < n,
                j <= n,
                *runner == all@[i as int],
                cells@.len() == i * n + j,
                forall|a: int, b: int|
                    0 <= a < i && 0 <= b < n ==> cell_is(#[trigger] cells@[a * n + b], all@[a], #[trigger] all@[b]),
                forall|b: int| 0 <= b < j ==> cell_is(#[trigger] cells@[i * n + b], all@[i as int], all@[b]),
                total_runs == capped(matrix_totals(all@, i * n + j).0),
                cross == capped(matrix_totals(all@, i * n + j).1),
            decreases n - j,
        {
            let donor = &all[j];
            let mut executed: usize = 0;
            let mut matched: usize = 0;
            let mut t: usize = 0;
            while t < donor.tests.len()
                invariant
                    t <= donor.tests@.len(),
                    executed == cell_counts(*runner, *donor, t as int).0,
                    matched == cell_counts(*runner, *donor, t as int).1,
                decreases donor.tests@.len() - t,
            {
                proof {
                    lemma_cell_counts_bound(*runner, *donor, t as int);
                }
                let test = &donor.tests[t];
                let result = runner.run(test.input.clone());
                if result.success {
                    executed = executed + 1;
                }
                if holds_all(&test.expect, &result.output) {
                    matched = matched + 1;
                }
                t = t + 1;
            }
            total_runs = total_runs.saturating_add(donor.tests.len());
            if !crate::value::str_eq(runner.name.as_str(), donor.name.as_str()) {
                cross = cross.saturating_add(matched);
            }
            let ghost before = cells@;
            cells.push(
                MatrixCell {
                    runner: runner.name.clone(),
                    test_from: donor.name.clone(),
                    total: donor.tests.len(),
                    executed,
                    matched,
                },
            );
            proof {
                let k = i * n + j;
                assert((k as int) / (n as int) == i as int) by (nonlinear_arith)
                    requires
                        k == i * n + j,
                        0 <= j < n,
                        0 <= i,
                ;
                assert((k as int) % (n as int) == j as int) by (nonlinear_arith)
                    requires
                        k == i * n + j,
                        0 <= j < n,
                        0 <= i,
                ;
                assert forall|a: int, b: int|
                    0 <= a < i && 0 <= b < n implies cell_is(#[trigger] cells@[a * n + b], all@[a], #[trigger] all@[b]) by {
                    assert(a * n + b < i * n) by (nonlinear_arith)
                        requires
                            0 <= a < i,
                            0 <= b < n,
                    ;
                    assert(cells@[a * n + b] == before[a * n + b]);
                }
                assert forall|b: int| 0 <= b < j + 1 implies cell_is(#[trigger] cells@[i * n + b], all@[i as int], all@[b]) by {
                    if b < j {
                        assert(cells@[i * n + b] == before[i * n + b]);
                    }
                }
            }
            j = j + 1;
        }
        proof {
            assert((i + 1) * n == i * n + n) by (nonlinear_arith);
        }
        i = i + 1;
    }
    MatrixResult { cells, total_runs, cross_matches: cross }
}

} // verus!
