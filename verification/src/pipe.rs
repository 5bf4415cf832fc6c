//! Running many inputs through a microgram or a chain, and filtering,
//! projecting and counting the results.
use vstd::prelude::*;
use crate::value::{Value, ValueModel, FieldMap};
use crate::microgram::{Microgram, is_run_result};
use crate::chain::{
    ChainResult, chain_refs, select_named, derefs, is_chain_run, add_duration, first_named, first_missing,
    not_found_message, named_sequence,
};
use crate::number::{num_compare, compare_numbers};
use crate::strmap::StrMap;
use crate::debug::{debug_text, value_debug};
use crate::value::str_eq;

verus! {

/// One input's run.
#[derive(Debug)]
pub struct PipeEntry {
    pub index: usize,
    pub input: FieldMap,
    pub output: FieldMap,
    pub success: bool,
    pub duration_us: u64,
}

/// The runs of many inputs.
#[derive(Debug)]
pub struct PipeResult {
    pub total: usize,
    pub succeeded: usize,
    pub failed: usize,
    pub results: Vec<PipeEntry>,
    pub total_duration_us: u64,
}

/// `a + b`, or `u64::MAX` when it does not fit.
pub open spec fn sat_add(a: int, b: int) -> int {
    if a + b > u64::MAX {
        u64::MAX as int
    } else {
        a + b
    }
}

/// Saturating sum of the durations of the first `n` entries.
pub open spec fn duration_sum(s: Seq<PipeEntry>, n: int) -> int
    decreases n,
{
    if n <= 0 {
        0
    } else {
        sat_add(duration_sum(s, n - 1), s[n - 1].duration_us as int)
    }
}

/// Number of successful entries among the first `n`.
pub open spec fn success_count(s: Seq<PipeEntry>, n: int) -> nat
    decreases n,
{
    if n <= 0 {
        0
    } else {
        success_count(s, n - 1) + if s[n - 1].success {
            1nat
        } else {
            0nat
        }
    }
}

proof fn lemma_success_count_bound(s: Seq<PipeEntry>, n: int)
    ensures
        success_count(s, n) <= if n <= 0 {
            0
        } else {
            n
        },
    decreases n,
{
    if n > 0 {
        lemma_success_count_bound(s, n - 1);
    }
}

/// The totals of a pipe result agree with its entries.
pub open spec fn totals_hold(r: PipeResult) -> bool {
    let n = r.results@.len() as int;
    &&& r.total == n
    &&& r.succeeded == success_count(r.results@, n)
    &&& r.failed == n - success_count(r.results@, n)
    &&& r.total_duration_us == duration_sum(r.results@, n)
}

/// Run `mg` on each input in turn.
pub fn pipe(mg: &Microgram, inputs: &[FieldMap]) -> (r: PipeResult)
    ensures
        totals_hold(r),
        r.results@.len() == inputs@.len(),
        forall|i: int|
            0 <= i < inputs@.len() ==> {
                let e = #[trigger] r.results@[i];
                &&& e.index == i
                &&& e.input.model() == inputs@[i].model()
                &&& e.output.model() == crate::microgram::run_output(*mg, inputs@[i].model())
                &&& e.success == !crate::microgram::run_output(*mg, inputs@[i].model()).contains_key("_error"@)
            },
{
    let mut results: Vec<PipeEntry> = Vec::new();
    let mut succeeded: usize = 0;
    let mut total_us: u64 = 0;
    let mut i: usize = 0;
    while i < inputs.len()
        invariant
            i <= inputs@.len(),
            results@.len() == i,
            succeeded == success_count(results@, i as int),
            total_us == duration_sum(results@, i as int),
            forall|j: int|
                0 <= j < i ==> {
                    let e = #[trigger] results@[j];
                    &&& e.index == j
                    &&& e.input.model() == inputs@[j].model()
                    &&& e.output.model() == crate::microgram::run_output(*mg, inputs@[j].model())
                    &&& e.success == !crate::microgram::run_output(*mg, inputs@[j].model()).contains_key("_error"@)
                },
        decreases inputs@.len() - i,
    {
        let result = mg.run(inputs[i].clone());
        total_us = add_duration(total_us, result.duration_us);
        proof {
            lemma_success_count_bound(results@, i as int);
        }
        if result.success {
            succeeded = succeeded + 1;
        }
        let ghost before = results@;
        results.push(
            PipeEntry {
                index: i,
                input: inputs[i].clone(),
                output: result.output,
                success: result.success,
                duration_us: result.duration_us,
            },
        );
        proof {
            assert(results@.subrange(0, i as int) =~= before);
            lemma_prefix_totals(results@, before, i as int);
        }
        i = i + 1;
    }
    proof {
        lemma_success_count_bound(results@, i as int);
    }
    PipeResult {
        total: inputs.len(),
        succeeded,
        failed: inputs.len() - succeeded,
        results,
        total_duration_us: total_us,
    }
}

proof fn lemma_prefix_totals(s: Seq<PipeEntry>, t: Seq<PipeEntry>, n: int)
    requires
        0 <= n <= t.len(),
        n <= s.len(),
        forall|j: int| 0 <= j < n ==> s[j] == t[j],
    ensures
        success_count(s, n) == success_count(t, n),
        duration_sum(s, n) == duration_sum(t, n),
    decreases n,
{
    if n > 0 {
        lemma_prefix_totals(s, t, n - 1);
    }
}

/// Run the chain named by `names` (picked from `all`) on each input in
/// turn; a missing name gives "Microgram '<name>' not found in <dir>".
pub fn pipe_chain(all: &[Microgram], dir: &str, names: &[&str], inputs: &[FieldMap]) -> (r: Result<PipeResult, String>)
    ensures
        match r {
            Ok(p) => {
                let ms = named_sequence(all@, names@);
                &&& forall|i: int| 0 <= i < names@.len() ==> first_named(all@, (#[trigger] names@[i])@) >= 0
                &&& totals_hold(p)
                &&& p.results@.len() == inputs@.len()
                &&& forall|i: int|
                    0 <= i < inputs@.len() ==> {
                        let e = #[trigger] p.results@[i];
                        &&& e.index == i
                        &&& e.input.model() == inputs@[i].model()
                        &&& exists|c: ChainResult|
                            is_chain_run(ms, inputs@[i].model(), false, c.steps@) && e.output.model() == c.final_output.model()
                                && e.success == c.success && c.success == (c.steps@.len() == ms.len() && (c.steps@.len() > 0
                                ==> c.steps@[c.steps@.len() - 1].success)) && c.final_output.model() == (if c.steps@.len()
                                == 0 {
                                Map::<Seq<char>, ValueModel>::empty()
                            } else {
                                c.steps@[c.steps@.len() - 1].output.model()
                            })
                    }
            },
            Err(e) => {
                &&& exists|i: int| 0 <= i < names@.len() && first_named(all@, (#[trigger] names@[i])@) < 0
                &&& e@ == not_found_message(names@[first_missing(all@, names@)]@, dir@)
            },
        },
{
    let ordered = match select_named(all, dir, names) {
        Ok(v) => v,
        Err(e) => {
            return Err(e);
        },
    };
    let ghost ms = named_sequence(all@, names@);
    proof {
        assert(derefs(ordered@) =~= ms);
    }
    let mut results: Vec<PipeEntry> = Vec::new();
    let mut succeeded: usize = 0;
    let mut total_us: u64 = 0;
    let mut i: usize = 0;
    while i < inputs.len()
        invariant
            ms == derefs(ordered@),
            i <= inputs@.len(),
            results@.len() == i,
            succeeded == success_count(results@, i as int),
            total_us == duration_sum(results@, i as int),
            forall|j: int|
                0 <= j < i ==> {
                    let e = #[trigger] results@[j];
                    &&& e.index == j
                    &&& e.input.model() == inputs@[j].model()
                    &&& exists|c: ChainResult|
                        is_chain_run(ms, inputs@[j].model(), false, c.steps@) && e.output.model() == c.final_output.model()
                            && e.success == c.success && c.success == (c.steps@.len() == ms.len() && (c.steps@.len() > 0
                            ==> c.steps@[c.steps@.len() - 1].success)) && c.final_output.model() == (if c.steps@.len()
                            == 0 {
                            Map::<Seq<char>, ValueModel>::empty()
                        } else {
                            c.steps@[c.steps@.len() - 1].output.model()
                        })
                },
        decreases inputs@.len() - i,
    {
        let c = chain_refs(&ordered, inputs[i].clone(), false);
        let ghost cg = c;
        total_us = add_duration(total_us, c.total_duration_us);
        proof {
            lemma_success_count_bound(results@, i as int);
        }
        if c.success {
            succeeded = succeeded + 1;
        }
        let ghost before = results@;
        let success = c.success;
        let duration = c.total_duration_us;
        results.push(PipeEntry { index: i, input: inputs[i].clone(), output: c.final_output, success, duration_us: duration });
        proof {
            assert(results@.subrange(0, i as int) =~= before);
            lemma_prefix_totals(results@, before, i as int);
            assert(is_chain_run(ms, inputs@[i as int].model(), false, cg.steps@));
            assert forall|j: int| 0 <= j < i + 1 implies {
                let e = #[trigger] results@[j];
                &&& e.index == j
                &&& e.input.model() == inputs@[j].model()
                &&& exists|c: ChainResult|
                    is_chain_run(ms, inputs@[j].model(), false, c.steps@) && e.output.model() == c.final_output.model()
                        && e.success == c.success && c.success == (c.steps@.len() == ms.len() && (c.steps@.len() > 0
                        ==> c.steps@[c.steps@.len() - 1].success)) && c.final_output.model() == (if c.steps@.len() == 0 {
                        Map::<Seq<char>, ValueModel>::empty()
                    } else {
                        c.steps@[c.steps@.len() - 1].output.model()
                    })
            } by {
                if j < i {
                    assert(results@[j] == before[j]);
                } else {
                    assert(results@[j].output.model() == cg.final_output.model());
                }
            }
        }
        i = i + 1;
    }
    proof {
        lemma_success_count_bound(results@, i as int);
    }
    Ok(
        PipeResult {
            total: inputs.len(),
            succeeded,
            failed: inputs.len() - succeeded,
            results,
            total_duration_us: total_us,
        },
    )
}

// ───────────────────────────── transforms ─────────────────────────────

/// `a` stands in relation `op` to `b`: eq and neq compare meanings; gt, gte,
/// lt and lte compare numbers; anything else never holds.
pub open spec fn relation_holds(op: Seq<char>, a: ValueModel, b: ValueModel) -> bool {
    if op == "eq"@ {
        a == b
    } else if op == "neq"@ {
        a != b
    } else if op == "gt"@ {
        num_compare(a, b) == Some(1int)
    } else if op == "gte"@ {
        num_compare(a, b) == Some(1int) || num_compare(a, b) == Some(0int)
    } else if op == "lt"@ {
        num_compare(a, b) == Some(-1int)
    } else if op == "lte"@ {
        num_compare(a, b) == Some(-1int) || num_compare(a, b) == Some(0int)
    } else {
        false
    }
}

proof fn lemma_relation_names_distinct()
    ensures
        "lt"@ != "eq"@,
        "lt"@ != "gt"@,
        "gt"@ != "eq"@,
        "lte"@ != "neq"@,
        "lte"@ != "gte"@,
        "gte"@ != "neq"@,
        "lt"@ != "neq"@,
        "lt"@ != "gte"@,
        "lte"@ != "eq"@,
        "lte"@ != "gt"@,
        "lte"@ != "lt"@,
        "gte"@ != "gt"@,
        "gte"@ != "eq"@,
        "gt"@ != "neq"@,
        "eq"@ != "neq"@,
{
    reveal_strlit("lt");
    reveal_strlit("lte");
    reveal_strlit("gt");
    reveal_strlit("gte");
    reveal_strlit("eq");
    reveal_strlit("neq");
    assert("lt"@[0] != "eq"@[0]);
    assert("lt"@[0] != "gt"@[0]);
    assert("gt"@[0] != "eq"@[0]);
    assert("lte"@[0] != "neq"@[0]);
    assert("lte"@[0] != "gte"@[0]);
    assert("gte"@[0] != "neq"@[0]);
    assert("lte"@.len() != "lt"@.len());
    assert("gte"@.len() != "gt"@.len());
}

/// On integers the relations mean what arithmetic says: `a < b` for "lt",
/// `a <= b` for "lte", `a > b` for "gt", `a >= b` for "gte", `a == b` for
/// "eq" and `a != b` for "neq"; any other name never holds.
pub proof fn lemma_relation_integers(a: int, b: int, other: Seq<char>)
    requires
        other != "lt"@ && other != "lte"@ && other != "gt"@ && other != "gte"@ && other != "eq"@ && other != "neq"@,
    ensures
        relation_holds("lt"@, ValueModel::Int(a), ValueModel::Int(b)) == (a < b),
        relation_holds("lte"@, ValueModel::Int(a), ValueModel::Int(b)) == (a <= b),
        relation_holds("gt"@, ValueModel::Int(a), ValueModel::Int(b)) == (a > b),
        relation_holds("gte"@, ValueModel::Int(a), ValueModel::Int(b)) == (a >= b),
        relation_holds("eq"@, ValueModel::Int(a), ValueModel::Int(b)) == (a == b),
        relation_holds("neq"@, ValueModel::Int(a), ValueModel::Int(b)) == (a != b),
        !relation_holds(other, ValueModel::Int(a), ValueModel::Int(b)),
{
    reveal_strlit("lt");
    reveal_strlit("lte");
    reveal_strlit("gt");
    reveal_strlit("gte");
    reveal_strlit("eq");
    reveal_strlit("neq");
    lemma_relation_names_distinct();
}

/// How the relations compare, on any two values: "lt" is "gt" the other
/// way round, "lte" is "gte" the other way round, "neq" is not "eq", and
/// where the two compare as numbers "lte" is exactly not "gt" and "gte"
/// exactly not "lt".
pub proof fn lemma_relation_pairs(a: ValueModel, b: ValueModel)
    ensures
        relation_holds("lt"@, a, b) == relation_holds("gt"@, b, a),
        relation_holds("lte"@, a, b) == relation_holds("gte"@, b, a),
        relation_holds("neq"@, a, b) == !relation_holds("eq"@, a, b),
        num_compare(a, b) is Some ==> (relation_holds("lte"@, a, b) == !relation_holds("gt"@, a, b) && relation_holds(
            "gte"@,
            a,
            b,
        ) == !relation_holds("lt"@, a, b)),
{
    lemma_relation_names_distinct();
}

/// An entry is kept by an integer threshold exactly when its field holds an
/// integer in the relation to it that arithmetic gives: with "lte", a value
/// at most the threshold; with "lt", below it; with "gte", at least it;
/// with "gt", above it.
pub proof fn lemma_keeps_integers(e: PipeEntry, field: Seq<char>, a: int, b: int)
    requires
        e.output.model().contains_key(field),
        e.output.model()[field] == ValueModel::Int(a),
    ensures
        keeps(e, field, "lte"@, ValueModel::Int(b)) == (a <= b),
        keeps(e, field, "lt"@, ValueModel::Int(b)) == (a < b),
        keeps(e, field, "gte"@, ValueModel::Int(b)) == (a >= b),
        keeps(e, field, "gt"@, ValueModel::Int(b)) == (a > b),
{
    reveal_strlit("lt");
    reveal_strlit("lte");
    reveal_strlit("gt");
    reveal_strlit("gte");
    reveal_strlit("eq");
    reveal_strlit("neq");
    lemma_relation_names_distinct();
}

/// The entry's output holds `field` with a value in relation `op` to `threshold`.
pub open spec fn keeps(e: PipeEntry, field: Seq<char>, op: Seq<char>, threshold: ValueModel) -> bool {
    e.output.model().contains_key(field) && relation_holds(op, e.output.model()[field], threshold)
}

/// Positions among the first `n` entries that are kept.
pub open spec fn kept_positions(s: Seq<PipeEntry>, field: Seq<char>, op: Seq<char>, threshold: ValueModel, n: int) -> Seq<
    int,
>
    decreases n,
{
    if n <= 0 {
        Seq::empty()
    } else {
        let prev = kept_positions(s, field, op, threshold, n - 1);
        if keeps(s[n - 1], field, op, threshold) {
            prev.push(n - 1)
        } else {
            prev
        }
    }
}

/// Two entries hold the same things.
pub open spec fn same_entry(a: PipeEntry, b: PipeEntry) -> bool {
    &&& a.index == b.index
    &&& a.input.model() == b.input.model()
    &&& a.output.model() == b.output.model()
    &&& a.success == b.success
    &&& a.duration_us == b.duration_us
}

/// A copy of an entry.
pub fn copy_entry(e: &PipeEntry) -> (r: PipeEntry)
    ensures
        same_entry(r, *e),
{
    PipeEntry {
        index: e.index,
        input: e.input.clone(),
        output: e.output.clone(),
        success: e.success,
        duration_us: e.duration_us,
    }
}

fn relation(op: &str, a: &Value, b: &Value) -> (r: bool)
    ensures
        r == relation_holds(op@, a.model(), b.model()),
{
    if str_eq(op, "eq") {
        a.equals(b)
    } else if str_eq(op, "neq") {
        !a.equals(b)
    } else if str_eq(op, "gt") {
        compare_numbers(a, b) == Some(1i8)
    } else if str_eq(op, "gte") {
        let c = compare_numbers(a, b);
        c == Some(1i8) || c == Some(0i8)
    } else if str_eq(op, "lt") {
        compare_numbers(a, b) == Some(-1i8)
    } else if str_eq(op, "lte") {
        let c = compare_numbers(a, b);
        c == Some(-1i8) || c == Some(0i8)
    } else {
        false
    }
}

proof fn lemma_kept_positions_kept(s: Seq<PipeEntry>, field: Seq<char>, op: Seq<char>, threshold: ValueModel, n: int)
    requires
        n <= s.len(),
    ensures
        forall|j: int|
            0 <= j < kept_positions(s, field, op, threshold, n).len() ==> {
                let k = #[trigger] kept_positions(s, field, op, threshold, n)[j];
                &&& 0 <= k < n
                &&& keeps(s[k], field, op, threshold)
            },
    decreases n,
{
    if n > 0 {
        lemma_kept_positions_kept(s, field, op, threshold, n - 1);
        let prev = kept_positions(s, field, op, threshold, n - 1);
        let cur = kept_positions(s, field, op, threshold, n);
        assert forall|j: int| 0 <= j < cur.len() implies {
            let k = #[trigger] cur[j];
            &&& 0 <= k < n
            &&& keeps(s[k], field, op, threshold)
        } by {
            if j < prev.len() {
                assert(cur[j] == prev[j]);
            }
        }
    }
}

proof fn lemma_kept_positions_all(s: Seq<PipeEntry>, field: Seq<char>, op: Seq<char>, threshold: ValueModel, n: int)
    requires
        0 <= n <= s.len(),
        forall|j: int| 0 <= j < n ==> keeps(#[trigger] s[j], field, op, threshold),
    ensures
        kept_positions(s, field, op, threshold, n).len() == n,
        forall|j: int| 0 <= j < n ==> #[trigger] kept_positions(s, field, op, threshold, n)[j] == j,
    decreases n,
{
    if n > 0 {
        lemma_kept_positions_all(s, field, op, threshold, n - 1);
        assert(keeps(s[n - 1], field, op, threshold));
    }
}

proof fn lemma_totals_congruent(a: Seq<PipeEntry>, b: Seq<PipeEntry>, n: int)
    requires
        0 <= n <= a.len(),
        n <= b.len(),
        forall|j: int| 0 <= j < n ==> same_entry(#[trigger] a[j], b[j]),
    ensures
        success_count(a, n) == success_count(b, n),
        duration_sum(a, n) == duration_sum(b, n),
    decreases n,
{
    if n > 0 {
        lemma_totals_congruent(a, b, n - 1);
        assert(same_entry(a[n - 1], b[n - 1]));
    }
}

/// Filtering is idempotent: filtering the result of a filter again, by the
/// same field, relation and threshold, keeps every entry, with the same
/// totals.
pub proof fn lemma_filter_idempotent(
    results: PipeResult,
    once: PipeResult,
    twice: PipeResult,
    field: Seq<char>,
    op: Seq<char>,
    threshold: ValueModel,
)
    requires
        totals_hold(once),
        ({
            let ks = kept_positions(results.results@, field, op, threshold, results.results@.len() as int);
            &&& once.results@.len() == ks.len()
            &&& forall|i: int| 0 <= i < ks.len() ==> same_entry(#[trigger] once.results@[i], results.results@[ks[i]])
        }),
        totals_hold(twice),
        ({
            let ks = kept_positions(once.results@, field, op, threshold, once.results@.len() as int);
            &&& twice.results@.len() == ks.len()
            &&& forall|i: int| 0 <= i < ks.len() ==> same_entry(#[trigger] twice.results@[i], once.results@[ks[i]])
        }),
    ensures
        twice.results@.len() == once.results@.len(),
        forall|i: int| 0 <= i < once.results@.len() ==> same_entry(#[trigger] twice.results@[i], once.results@[i]),
        twice.total == once.total,
        twice.succeeded == once.succeeded,
        twice.failed == once.failed,
        twice.total_duration_us == once.total_duration_us,
{
    let src = results.results@;
    let n = src.len() as int;
    let a = once.results@;
    lemma_kept_positions_kept(src, field, op, threshold, n);
    let ks = kept_positions(src, field, op, threshold, n);
    assert forall|j: int| 0 <= j < a.len() implies keeps(#[trigger] a[j], field, op, threshold) by {
        let k = ks[j];
        assert(same_entry(a[j], src[k]));
    }
    lemma_kept_positions_all(a, field, op, threshold, a.len() as int);
    let ks2 = kept_positions(a, field, op, threshold, a.len() as int);
    assert forall|i: int| 0 <= i < a.len() implies same_entry(#[trigger] twice.results@[i], a[i]) by {
        assert(ks2[i] == i);
    }
    lemma_totals_congruent(twice.results@, a, a.len() as int);
}

/// The entries whose output holds `field` with a value in relation `op`
/// (eq, neq, gt, gte, lt, lte) to `threshold`, in order, with their totals.
pub fn filter_results(results: &PipeResult, field: &str, op: &str, threshold: &Value) -> (r: PipeResult)
    ensures
        totals_hold(r),
        ({
            let ks = kept_positions(results.results@, field@, op@, threshold.model(), results.results@.len() as int);
            &&& r.results@.len() == ks.len()
            &&& forall|i: int| 0 <= i < ks.len() ==> same_entry(#[trigger] r.results@[i], results.results@[ks[i]])
        }),
{
    let src = &results.results;
    let mut kept: Vec<PipeEntry> = Vec::new();
    let mut succeeded: usize = 0;
    let mut total_us: u64 = 0;
    let mut i: usize = 0;
    while i < src.len()
        invariant
            src == &results.results,
            i <= src@.len(),
            ({
                let ks = kept_positions(src@, field@, op@, threshold.model(), i as int);
                &&& kept@.len() == ks.len()
                &&& forall|j: int| 0 <= j < ks.len() ==> same_entry(#[trigger] kept@[j], src@[ks[j]])
            }),
            kept@.len() <= i,
            succeeded == success_count(kept@, kept@.len() as int),
            total_us == duration_sum(kept@, kept@.len() as int),
        decreases src@.len() - i,
    {
        let e = &src[i];
        let keep = match e.output.get(field) {
            Some(v) => relation(op, v, threshold),
            None => false,
        };
        if keep {
            let ghost before = kept@;
            let c = copy_entry(e);
            total_us = add_duration(total_us, c.duration_us);
            proof {
                lemma_success_count_bound(kept@, kept@.len() as int);
            }
            if c.success {
                succeeded = succeeded + 1;
            }
            kept.push(c);
            proof {
                assert(kept@.subrange(0, before.len() as int) =~= before);
                lemma_prefix_totals(kept@, before, before.len() as int);
                let ks = kept_positions(src@, field@, op@, threshold.model(), i + 1);
                assert forall|j: int| 0 <= j < ks.len() implies same_entry(#[trigger] kept@[j], src@[ks[j]]) by {
                    if j < before.len() {
                        assert(kept@[j] == before[j]);
                    }
                }
            }
        }
        i = i + 1;
    }
    proof {
        lemma_success_count_bound(kept@, kept@.len() as int);
    }
    let n = kept.len();
    PipeResult { total: n, succeeded, failed: n - succeeded, results: kept, total_duration_us: total_us }
}

/// Meaning of an optional value.
pub open spec fn opt_value_model(v: Option<Value>) -> Option<ValueModel> {
    match v {
        Some(x) => Some(x.model()),
        None => None,
    }
}

/// The value of `field` in each entry's output, `None` where it is absent.
pub fn map_field(results: &PipeResult, field: &str) -> (r: Vec<Option<Value>>)
    ensures
        r@.len() == results.results@.len(),
        forall|i: int|
            0 <= i < r@.len() ==> opt_value_model(#[trigger] r@[i]) == {
                let m = results.results@[i].output.model();
                if m.contains_key(field@) {
                    Some(m[field@])
                } else {
                    None
                }
            },
{
    let mut r: Vec<Option<Value>> = Vec::new();
    let mut i: usize = 0;
    while i < results.results.len()
        invariant
            i <= results.results@.len(),
            r@.len() == i,
            forall|j: int|
                0 <= j < i ==> opt_value_model(#[trigger] r@[j]) == {
                    let m = results.results@[j].output.model();
                    if m.contains_key(field@) {
                        Some(m[field@])
                    } else {
                        None
                    }
                },
        decreases results.results@.len() - i,
    {
        let v = match results.results[i].output.get(field) {
            Some(x) => Some(x.clone()),
            None => None,
        };
        r.push(v);
        i = i + 1;
    }
    r
}

/// Key under which an entry is counted: the debug text of its `field`
/// value, or "null" when absent.
pub open spec fn count_key(e: PipeEntry, fm: FieldMap, field: Seq<char>) -> Seq<char> {
    let j = crate::value::last_index(fm.entries@, field);
    if j >= 0 {
        debug_text(fm.entries@[j].1)
    } else {
        "null"@
    }
}

/// Number of the first `n` entries counted under `key`.
pub open spec fn key_count(s: Seq<PipeEntry>, field: Seq<char>, key: Seq<char>, n: int) -> nat
    decreases n,
{
    if n <= 0 {
        0
    } else {
        key_count(s, field, key, n - 1) + if count_key(s[n - 1], s[n - 1].output, field) == key {
            1nat
        } else {
            0nat
        }
    }
}

proof fn lemma_key_count_bound(s: Seq<PipeEntry>, field: Seq<char>, key: Seq<char>, n: int)
    ensures
        key_count(s, field, key, n) <= if n <= 0 {
            0
        } else {
            n
        },
    decreases n,
{
    if n > 0 {
        lemma_key_count_bound(s, field, key, n - 1);
    }
}

/// Count the entries by the debug text of their `field` value ("null"
/// when absent).
pub fn reduce_count(results: &PipeResult, field: &str) -> (r: StrMap<usize>)
    ensures
        forall|k: Seq<char>|
            #[trigger] r.model().contains_key(k) <==> key_count(results.results@, field@, k, results.results@.len() as int)
                > 0,
        forall|k: Seq<char>|
            #[trigger] r.model().contains_key(k) ==> r.model()[k] == key_count(
                results.results@,
                field@,
                k,
                results.results@.len() as int,
            ),
{
    let s = &results.results;
    let mut counts: StrMap<usize> = StrMap::new();
    let mut i: usize = 0;
    while i < s.len()
        invariant
            s == &results.results,
            i <= s@.len(),
            forall|k: Seq<char>| #[trigger] counts.model().contains_key(k) <==> key_count(s@, field@, k, i as int) > 0,
            forall|k: Seq<char>|
                #[trigger] counts.model().contains_key(k) ==> counts.model()[k] == key_count(s@, field@, k, i as int),
        decreases s@.len() - i,
    {
        let e = &s[i];
        proof {
            crate::value::lemma_last_index(e.output.entries@, field@);
        }
        let key = match e.output.position(field) {
            Some(j) => value_debug(&e.output.entries[j].1),
            None => String::from_str("null"),
        };
        proof {
            assert(key@ == count_key(*e, e.output, field@));
            lemma_key_count_bound(s@, field@, key@, i as int);
        }
        let n: usize = match counts.get(key.as_str()) {
            Some(c) => *c,
            None => 0,
        };
        let ghost before = counts.model();
        counts.insert(key, n + 1);
        proof {
            assert forall|k: Seq<char>| #[trigger] counts.model().contains_key(k) <==> key_count(s@, field@, k, i + 1) > 0 by {
                lemma_key_count_bound(s@, field@, k, i as int);
            }
        }
        i = i + 1;
    }
    counts
}

} // verus!
