//! Exercising micrograms: which nodes their self-tests visit, and how they
//! behave on many generated inputs.
use vstd::prelude::*;
use crate::value::{Value, ValueModel, FieldMap};
use crate::microgram::{Microgram, run_output, tree_run, ingress_errors, egress_errors_of};
use crate::engine::names_view;
use crate::interface::{input_variables, condition_vars, node_seq, contains_name};
use crate::strmap::live_keys;
use crate::patrol::distinct_in_order;

verus! {

// ───────────────────────────── coverage ─────────────────────────────

/// Which nodes the self-tests of a microgram visit.
#[derive(Debug)]
pub struct CoverageCounts {
    pub name: String,
    /// Nodes of the tree.
    pub total_nodes: usize,
    /// Distinct node names on the paths of the self-tests.
    pub covered_nodes: usize,
    /// Nodes that no self-test visits, in the order of the tree.
    pub uncovered: Vec<String>,
    /// The decision path of each self-test.
    pub paths_taken: Vec<Vec<String>>,
}

/// The decision paths of the first `n` self-tests, one after the other.
pub open spec fn visited_names(mg: Microgram, n: int) -> Seq<Seq<char>>
    decreases n,
{
    if n <= 0 {
        Seq::empty()
    } else {
        visited_names(mg, n - 1) + tree_run(mg, mg.tests@[n - 1].input.model()).path
    }
}

/// What the coverage of `mg` holds.
pub open spec fn is_coverage(mg: Microgram, r: CoverageCounts) -> bool {
    let visited = visited_names(mg, mg.tests@.len() as int);
    let keys = live_keys(mg.tree.nodes.entries@, mg.tree.nodes.entries@.len() as int);
    &&& r.name@ == mg.name@
    &&& r.total_nodes == keys.len()
    &&& r.covered_nodes == distinct_in_order(visited).len()
    &&& names_view(r.uncovered@) == keys.filter(|k: Seq<char>| !visited.contains(k))
    &&& r.paths_taken@.len() == mg.tests@.len()
    &&& forall|i: int| 0 <= i < mg.tests@.len() ==> names_view(#[trigger] r.paths_taken@[i]@) == tree_run(mg, mg.tests@[i].input.model()).path
}

/// Add the names of `path` that `seen` lacks.
fn add_distinct(seen: &mut Vec<String>, path: &Vec<String>)
    requires
        names_view(old(seen)@) == distinct_in_order(names_view(old(seen)@)),
    ensures
        names_view(final(seen)@) == distinct_in_order(names_view(old(seen)@) + names_view(path@)),
{
    let ghost start = names_view(seen@);
    let mut i: usize = 0;
    while i < path.len()
        invariant
            i <= path@.len(),
            names_view(seen@) == distinct_in_order(start + names_view(path@).take(i as int)),
        decreases path@.len() - i,
    {
        proof {
            let t = start + names_view(path@).take(i + 1);
            assert(t.drop_last() =~= start + names_view(path@).take(i as int));
            assert(t[t.len() - 1] == path@[i as int]@);
        }
        if !contains_name(seen.as_slice(), path[i].as_str()) {
            let ghost before = names_view(seen@);
            seen.push(path[i].clone());
            proof {
                assert(names_view(seen@) =~= before.push(path@[i as int]@));
            }
        }
        i = i + 1;
    }
    proof {
        assert(names_view(path@).take(path@.len() as int) =~= names_view(path@));
    }
}

proof fn lemma_distinct_idempotent(s: Seq<Seq<char>>)
    ensures
        distinct_in_order(distinct_in_order(s)) == distinct_in_order(s),
        forall|x: Seq<char>| #[trigger] distinct_in_order(s).contains(x) <==> s.contains(x),
    decreases s.len(),
{
    if s.len() > 0 {
        let p = s.drop_last();
        lemma_distinct_idempotent(p);
        let d = distinct_in_order(p);
        let x = s[s.len() - 1];
        assert forall|y: Seq<char>| #[trigger] distinct_in_order(s).contains(y) <==> s.contains(y) by {
            if s.contains(y) && !p.contains(y) {
                let k = choose|k: int| 0 <= k < s.len() && s[k] == y;
                if k < p.len() {
                    assert(p[k] == y);
                }
            }
            if p.contains(y) {
                let k = choose|k: int| 0 <= k < p.len() && p[k] == y;
                assert(s[k] == y);
            }
            if !d.contains(x) {
                assert(d.push(x)[d.len() as int] == x);
                if d.push(x).contains(y) {
                    let k = choose|k: int| 0 <= k < d.push(x).len() && d.push(x)[k] == y;
                    if k < d.len() {
                        assert(d[k] == y);
                    }
                }
                if d.contains(y) {
                    let k = choose|k: int| 0 <= k < d.len() && d[k] == y;
                    assert(d.push(x)[k] == y);
                }
            }
        }
        if !d.contains(x) {
            assert(d.push(x).drop_last() =~= d);
            assert(distinct_in_order(d.push(x)) == distinct_in_order(d).push(x));
        }
    }
}

/// Path coverage of a microgram's self-tests: every self-test is run and the
/// nodes on its path count as covered.
pub fn coverage(mg: &Microgram) -> (r: CoverageCounts)
    ensures
        is_coverage(*mg, r),
{
    let mut seen: Vec<String> = Vec::new();
    let mut paths_taken: Vec<Vec<String>> = Vec::new();
    let mut i: usize = 0;
    proof {
        assert(distinct_in_order(Seq::<Seq<char>>::empty()) =~= Seq::<Seq<char>>::empty());
    }
    while i < mg.tests.len()
        invariant
            i <= mg.tests@.len(),
            names_view(seen@) == distinct_in_order(visited_names(*mg, i as int)),
            paths_taken@.len() == i,
            forall|j: int| 0 <= j < i ==> names_view(#[trigger] paths_taken@[j]@) == tree_run(*mg, mg.tests@[j].input.model()).path,
        decreases mg.tests@.len() - i,
    {
        let result = mg.run(mg.tests[i].input.clone());
        proof {
            lemma_distinct_idempotent(visited_names(*mg, i as int));
            lemma_distinct_concat(visited_names(*mg, i as int), names_view(result.path@));
        }
        add_distinct(&mut seen, &result.path);
        let ghost before = paths_taken@;
        paths_taken.push(result.path);
        proof {
            assert forall|j: int| 0 <= j < i + 1 implies names_view(#[trigger] paths_taken@[j]@) == tree_run(
                *mg,
                mg.tests@[j].input.model(),
            ).path by {
                if j < i {
                    assert(paths_taken@[j] == before[j]);
                }
            }
        }
        i = i + 1;
    }
    let ghost visited = visited_names(*mg, mg.tests@.len() as int);
    proof {
        lemma_distinct_idempotent(visited);
    }
    let keys = mg.tree.nodes.keys();
    let ghost kv = names_view(keys@);
    let mut uncovered: Vec<String> = Vec::new();
    let mut k: usize = 0;
    while k < keys.len()
        invariant
            kv == names_view(keys@),
            k <= keys@.len(),
            names_view(seen@) == distinct_in_order(visited),
            forall|x: Seq<char>| #[trigger] distinct_in_order(visited).contains(x) <==> visited.contains(x),
            names_view(uncovered@) == kv.take(k as int).filter(|x: Seq<char>| !visited.contains(x)),
        decreases keys@.len() - k,
    {
        proof {
            assert(kv.take(k + 1).drop_last() =~= kv.take(k as int));
            assert(kv[k as int] == keys@[k as int]@);
            reveal(Seq::filter);
        }
        if !contains_name(seen.as_slice(), keys[k].as_str()) {
            let ghost before = names_view(uncovered@);
            uncovered.push(keys[k].clone());
            proof {
                assert(names_view(uncovered@) =~= before.push(kv[k as int]));
            }
        }
        k = k + 1;
    }
    proof {
        assert(kv.take(keys@.len() as int) =~= kv);
    }
    CoverageCounts {
        name: mg.name.clone(),
        total_nodes: keys.len(),
        covered_nodes: seen.len(),
        uncovered,
        paths_taken,
    }
}

proof fn lemma_distinct_concat(a: Seq<Seq<char>>, b: Seq<Seq<char>>)
    ensures
        distinct_in_order(distinct_in_order(a) + b) == distinct_in_order(a + b),
    decreases b.len(),
{
    if b.len() == 0 {
        assert(distinct_in_order(a) + b =~= distinct_in_order(a));
        assert(a + b =~= a);
        lemma_distinct_idempotent(a);
    } else {
        lemma_distinct_concat(a, b.drop_last());
        lemma_distinct_idempotent(a);
        lemma_distinct_idempotent(distinct_in_order(a) + b.drop_last());
        lemma_distinct_idempotent(a + b.drop_last());
        assert((distinct_in_order(a) + b).drop_last() =~= distinct_in_order(a) + b.drop_last());
        assert((a + b).drop_last() =~= a + b.drop_last());
    }
}


// ───────────────────────────── stress ─────────────────────────────

/// Outcome of running a microgram on many generated integer inputs.
#[derive(Debug)]
pub struct StressCounts {
    pub name: String,
    pub iterations: usize,
    pub succeeded: usize,
    pub errored: usize,
    /// Duration of each run, in order.
    pub durations: Vec<u64>,
    /// Shortest duration (0 without runs).
    pub min_us: u64,
    /// Longest duration (0 without runs).
    pub max_us: u64,
    /// Sum of the durations, saturating at `u64::MAX`.
    pub total_us: u64,
    /// The first ten inputs whose run failed.
    pub error_inputs: Vec<FieldMap>,
}

/// One step of the generator: the 64-bit linear congruential generator with
/// multiplier 6364136223846793005 and increment 1442695040888963407.
pub open spec fn lcg_step(s: u64) -> u64 {
    vstd::wrapping::u64_specs::wrapping_add(
        vstd::wrapping::u64_specs::wrapping_mul(s, 6364136223846793005u64),
        1442695040888963407u64,
    )
}

/// The generator state after `n` steps from `s`.
pub open spec fn lcg_pow(s: u64, n: nat) -> u64
    decreases n,
{
    if n == 0 {
        s
    } else {
        lcg_step(lcg_pow(s, (n - 1) as nat))
    }
}

/// The integer a generator state stands for, in -1000..=1000: its top 31
/// bits modulo 2001, less 1000.
pub open spec fn lcg_int(s: u64) -> int {
    (s / 0x2_0000_0000u64) as int % 2001 - 1000
}

/// The generator state before the inputs of iteration `k`, each iteration
/// drawing one value per variable.
pub open spec fn stress_state(seed: u64, nv: nat, k: nat) -> u64
    decreases k,
{
    if k == 0 {
        seed
    } else {
        lcg_pow(stress_state(seed, nv, (k - 1) as nat), nv)
    }
}

/// The input drawn from state `s` for the first `j` variables.
pub open spec fn drawn_input(vars: Seq<Seq<char>>, s: u64, j: nat) -> Map<Seq<char>, ValueModel>
    decreases j,
{
    if j == 0 {
        Map::empty()
    } else {
        drawn_input(vars, s, (j - 1) as nat).insert(vars[j - 1], ValueModel::Int(lcg_int(lcg_pow(s, j))))
    }
}

/// The input of iteration `k`.
pub open spec fn stress_input(vars: Seq<Seq<char>>, seed: u64, k: nat) -> Map<Seq<char>, ValueModel> {
    drawn_input(vars, stress_state(seed, vars.len(), k), vars.len())
}

/// The run of iteration `k` succeeds.
pub open spec fn stress_ok(mg: Microgram, vars: Seq<Seq<char>>, seed: u64, k: nat) -> bool {
    !run_output(mg, stress_input(vars, seed, k)).contains_key("_error"@)
}

/// Number of successful runs among the first `n`.
pub open spec fn stress_successes(mg: Microgram, vars: Seq<Seq<char>>, seed: u64, n: nat) -> nat
    decreases n,
{
    if n == 0 {
        0
    } else {
        stress_successes(mg, vars, seed, (n - 1) as nat) + if stress_ok(mg, vars, seed, (n - 1) as nat) {
            1nat
        } else {
            0nat
        }
    }
}

/// The inputs of the failed runs among the first `n`, in order.
pub open spec fn stress_failures(mg: Microgram, vars: Seq<Seq<char>>, seed: u64, n: nat) -> Seq<Map<Seq<char>, ValueModel>>
    decreases n,
{
    if n == 0 {
        Seq::empty()
    } else {
        let p = stress_failures(mg, vars, seed, (n - 1) as nat);
        if stress_ok(mg, vars, seed, (n - 1) as nat) {
            p
        } else {
            p.push(stress_input(vars, seed, (n - 1) as nat))
        }
    }
}

/// Saturating sum of durations.
pub open spec fn duration_total(d: Seq<u64>) -> int
    decreases d.len(),
{
    if d.len() == 0 {
        0
    } else {
        crate::pipe::sat_add(duration_total(d.drop_last()), d[d.len() - 1] as int)
    }
}

/// What a stress run of `iterations` runs from `seed` holds.
pub open spec fn is_stress(mg: Microgram, iterations: usize, seed: u64, r: StressCounts) -> bool {
    let vars = condition_vars(node_seq(mg));
    let fails = stress_failures(mg, vars, seed, iterations as nat);
    &&& r.name@ == mg.name@
    &&& r.iterations == iterations
    &&& r.succeeded == stress_successes(mg, vars, seed, iterations as nat)
    &&& r.succeeded + r.errored == iterations
    &&& r.durations@.len() == iterations
    &&& forall|i: int| 0 <= i < iterations ==> r.min_us <= #[trigger] r.durations@[i] <= r.max_us
    &&& iterations > 0 ==> r.durations@.contains(r.min_us) && r.durations@.contains(r.max_us)
    &&& iterations == 0 ==> r.min_us == 0 && r.max_us == 0
    &&& r.total_us == duration_total(r.durations@)
    &&& r.error_inputs@.len() == if fails.len() < 10 {
        fails.len() as int
    } else {
        10
    }
    &&& forall|i: int| 0 <= i < r.error_inputs@.len() ==> (#[trigger] r.error_inputs@[i]).model() == fails[i]
}

/// A stress run is reproducible: two runs with the same microgram,
/// iteration count and seed count the same successes and failures and
/// record the same failing inputs (only the durations may differ).
pub proof fn lemma_stress_reproducible(mg: Microgram, iterations: usize, seed: u64, a: StressCounts, b: StressCounts)
    requires
        is_stress(mg, iterations, seed, a),
        is_stress(mg, iterations, seed, b),
    ensures
        a.succeeded == b.succeeded,
        a.errored == b.errored,
        a.error_inputs@.len() == b.error_inputs@.len(),
        forall|i: int| 0 <= i < a.error_inputs@.len() ==> (#[trigger] a.error_inputs@[i]).model() == b.error_inputs@[i].model(),
{
}

fn lcg_next(s: u64) -> (r: u64)
    ensures
        r == lcg_step(s),
{
    s.wrapping_mul(6364136223846793005u64).wrapping_add(1442695040888963407u64)
}

fn lcg_value(s: u64) -> (v: i64)
    ensures
        v == lcg_int(s),
{
    assert((s >> 33u64) == s / 0x2_0000_0000u64) by (bit_vector);
    let top: u64 = s >> 33u64;
    let t = top as i64;
    t % 2001 - 1000
}

proof fn lemma_stress_counts(mg: Microgram, vars: Seq<Seq<char>>, seed: u64, n: nat)
    ensures
        stress_successes(mg, vars, seed, n) + stress_failures(mg, vars, seed, n).len() == n,
    decreases n,
{
    if n > 0 {
        lemma_stress_counts(mg, vars, seed, (n - 1) as nat);
    }
}

/// Run a microgram `iterations` times on integer inputs in -1000..=1000
/// drawn from a generator seeded with `seed` (one value per variable that
/// its conditions test, in order), and count the failed runs.
pub fn stress(mg: &Microgram, iterations: usize, seed: u64) -> (r: StressCounts)
    ensures
        is_stress(*mg, iterations, seed, r),
{
    let vars = input_variables(mg);
    let ghost vs = names_view(vars@);
    let ghost nv = vs.len();
    let mut state = seed;
    let mut succeeded: usize = 0;
    let mut durations: Vec<u64> = Vec::new();
    let mut error_inputs: Vec<FieldMap> = Vec::new();
    let mut min_us: u64 = 0;
    let mut max_us: u64 = 0;
    let mut total_us: u64 = 0;
    let mut k: usize = 0;
    while k < iterations
        invariant
            vs == names_view(vars@),
            vs == condition_vars(node_seq(*mg)),
            nv == vs.len(),
            k <= iterations,
            state == stress_state(seed, nv, k as nat),
            succeeded == stress_successes(*mg, vs, seed, k as nat),
            succeeded <= k,
            durations@.len() == k,
            forall|i: int| 0 <= i < k ==> min_us <= #[trigger] durations@[i] <= max_us,
            k > 0 ==> durations@.contains(min_us) && durations@.contains(max_us),
            k == 0 ==> min_us == 0 && max_us == 0,
            total_us == duration_total(durations@),
            error_inputs@.len() == if stress_failures(*mg, vs, seed, k as nat).len() < 10 {
                stress_failures(*mg, vs, seed, k as nat).len() as int
            } else {
                10
            },
            forall|i: int| 0 <= i < error_inputs@.len() ==> (#[trigger] error_inputs@[i]).model() == stress_failures(
                *mg,
                vs,
                seed,
                k as nat,
            )[i],
        decreases iterations - k,
    {
        let ghost s0 = state;
        let mut input = FieldMap::new();
        let mut j: usize = 0;
        while j < vars.len()
            invariant
                vs == names_view(vars@),
                j <= vars@.len(),
                state == lcg_pow(s0, j as nat),
                input.model() == drawn_input(vs, s0, j as nat),
            decreases vars@.len() - j,
        {
            state = lcg_next(state);
            let v = lcg_value(state);
            input.insert(vars[j].clone(), Value::Int(v));
            proof {
                assert(vs[j as int] == vars@[j as int]@);
            }
            j = j + 1;
        }
        proof {
            assert(stress_state(seed, nv, (k + 1) as nat) == lcg_pow(s0, nv));
        }
        let result = mg.run(input.clone());
        let d = result.duration_us;
        let ghost before = durations@;
        durations.push(d);
        if k == 0 {
            min_us = d;
            max_us = d;
        } else {
            if d < min_us {
                min_us = d;
            }
            if d > max_us {
                max_us = d;
            }
        }
        total_us = total_us.saturating_add(d);
        proof {
            assert(durations@.drop_last() =~= before);
            assert(durations@[k as int] == d);
            assert forall|i: int| 0 <= i < k + 1 implies min_us <= #[trigger] durations@[i] <= max_us by {
                if i < k {
                    assert(durations@[i] == before[i]);
                }
            }
            if k > 0 {
                if before.contains(min_us) {
                    let q = choose|q: int| 0 <= q < before.len() && before[q] == min_us;
                    assert(durations@[q] == min_us);
                }
                if before.contains(max_us) {
                    let q = choose|q: int| 0 <= q < before.len() && before[q] == max_us;
                    assert(durations@[q] == max_us);
                }
            }
        }
        let ghost fails_before = stress_failures(*mg, vs, seed, k as nat);
        if result.success {
            succeeded = succeeded + 1;
        } else {
            if error_inputs.len() < 10 {
                let ghost eb = error_inputs@;
                error_inputs.push(input);
                proof {
                    assert forall|i: int| 0 <= i < error_inputs@.len() implies (#[trigger] error_inputs@[i]).model()
                        == stress_failures(*mg, vs, seed, (k + 1) as nat)[i] by {
                        if i < eb.len() {
                            assert(error_inputs@[i] == eb[i]);
                        }
                    }
                }
            }
        }
        k = k + 1;
    }
    proof {
        lemma_stress_counts(*mg, vs, seed, iterations as nat);
    }
    StressCounts {
        name: mg.name.clone(),
        iterations,
        succeeded,
        errored: iterations - succeeded,
        durations,
        min_us,
        max_us,
        total_us,
        error_inputs,
    }
}

/// Stress every microgram, the `i`-th with the seed `seed + i` (wrapping).
pub fn stress_all(all: &[Microgram], iterations: usize, seed: u64) -> (r: Vec<StressCounts>)
    ensures
        r@.len() == all@.len(),
        forall|i: int| 0 <= i < all@.len() ==> is_stress(
            all@[i],
            iterations,
            vstd::wrapping::u64_specs::wrapping_add(seed, i as u64),
            #[trigger] r@[i],
        ),
{
    let mut out: Vec<StressCounts> = Vec::new();
    let mut i: usize = 0;
    while i < all.len()
        invariant
            i <= all@.len(),
            out@.len() == i,
            forall|j: int| 0 <= j < i ==> is_stress(
                all@[j],
                iterations,
                vstd::wrapping::u64_specs::wrapping_add(seed, j as u64),
                #[trigger] out@[j],
            ),
        decreases all@.len() - i,
    {
        let offset = i as u64;
        let r = stress(&all[i], iterations, seed.wrapping_add(offset));
        out.push(r);
        i = i + 1;
    }
    out
}

// ───────────────────────────── stress over given inputs ─────────────────────────────

/// The run on `input` counts as a success: for a plain run, the tree gives no
/// error; for a validated run, the input and the output also fit the
/// declared interface.
pub open spec fn ok_on(mg: Microgram, input: Map<Seq<char>, ValueModel>, validated: bool) -> bool {
    if validated {
        &&& ingress_errors(mg, input).len() == 0
        &&& !run_output(mg, input).contains_key("_error"@)
        &&& egress_errors_of(mg, input).len() == 0
    } else {
        !run_output(mg, input).contains_key("_error"@)
    }
}

/// Number of successes among the first `n` inputs.
pub open spec fn oks_over(mg: Microgram, ins: Seq<Map<Seq<char>, ValueModel>>, validated: bool, n: nat) -> nat
    decreases n,
{
    if n == 0 {
        0
    } else {
        oks_over(mg, ins, validated, (n - 1) as nat) + if ok_on(mg, ins[n - 1], validated) {
            1nat
        } else {
            0nat
        }
    }
}

/// The failing inputs among the first `n`, in order.
pub open spec fn fails_over(mg: Microgram, ins: Seq<Map<Seq<char>, ValueModel>>, validated: bool, n: nat) -> Seq<
    Map<Seq<char>, ValueModel>,
>
    decreases n,
{
    if n == 0 {
        Seq::empty()
    } else {
        let p = fails_over(mg, ins, validated, (n - 1) as nat);
        if ok_on(mg, ins[n - 1], validated) {
            p
        } else {
            p.push(ins[n - 1])
        }
    }
}

/// Number of inputs among the first `n` that the declared inputs reject.
pub open spec fn ingress_over(mg: Microgram, ins: Seq<Map<Seq<char>, ValueModel>>, n: nat) -> nat
    decreases n,
{
    if n == 0 {
        0
    } else {
        ingress_over(mg, ins, (n - 1) as nat) + if ingress_errors(mg, ins[n - 1]).len() != 0 {
            1nat
        } else {
            0nat
        }
    }
}

/// Number of inputs among the first `n` that pass the declared inputs but
/// whose output the declared outputs reject.
pub open spec fn egress_over(mg: Microgram, ins: Seq<Map<Seq<char>, ValueModel>>, n: nat) -> nat
    decreases n,
{
    if n == 0 {
        0
    } else {
        egress_over(mg, ins, (n - 1) as nat) + if ingress_errors(mg, ins[n - 1]).len() == 0 && egress_errors_of(
            mg,
            ins[n - 1],
        ).len() != 0 {
            1nat
        } else {
            0nat
        }
    }
}

/// The meanings of a sequence of field maps.
pub open spec fn inputs_model(s: Seq<FieldMap>) -> Seq<Map<Seq<char>, ValueModel>> {
    s.map_values(|m: FieldMap| m.model())
}

/// What a stress run over the inputs `ins` holds.
pub open spec fn is_stress_over(mg: Microgram, ins: Seq<Map<Seq<char>, ValueModel>>, validated: bool, r: StressCounts) -> bool {
    let n = ins.len();
    let fails = fails_over(mg, ins, validated, n);
    &&& r.name@ == mg.name@
    &&& r.iterations == n
    &&& r.succeeded == oks_over(mg, ins, validated, n)
    &&& r.succeeded + r.errored == n
    &&& r.durations@.len() == n
    &&& forall|i: int| 0 <= i < n ==> r.min_us <= #[trigger] r.durations@[i] <= r.max_us
    &&& n > 0 ==> r.durations@.contains(r.min_us) && r.durations@.contains(r.max_us)
    &&& n == 0 ==> r.min_us == 0 && r.max_us == 0
    &&& r.total_us == duration_total(r.durations@)
    &&& r.error_inputs@.len() == if fails.len() < 10 {
        fails.len() as int
    } else {
        10
    }
    &&& forall|i: int| 0 <= i < r.error_inputs@.len() ==> (#[trigger] r.error_inputs@[i]).model() == fails[i]
}

proof fn lemma_over_counts(mg: Microgram, ins: Seq<Map<Seq<char>, ValueModel>>, validated: bool, n: nat)
    ensures
        oks_over(mg, ins, validated, n) + fails_over(mg, ins, validated, n).len() == n,
        ingress_over(mg, ins, n) <= n,
        egress_over(mg, ins, n) <= n,
    decreases n,
{
    if n > 0 {
        lemma_over_counts(mg, ins, validated, (n - 1) as nat);
    }
}

/// A stress run through `run_validated`, with the boundary failures counted
/// apart.
#[derive(Debug)]
pub struct ValidatedStressCounts {
    pub base: StressCounts,
    /// Runs whose input the declared inputs rejected.
    pub ingress_failures: usize,
    /// Runs whose output the declared outputs rejected.
    pub egress_failures: usize,
}

fn stress_loop(mg: &Microgram, inputs: Vec<FieldMap>, validated: bool) -> (r: (StressCounts, usize, usize))
    ensures
        is_stress_over(*mg, inputs_model(inputs@), validated, r.0),
        validated ==> r.1 == ingress_over(*mg, inputs_model(inputs@), inputs@.len() as nat),
        validated ==> r.2 == egress_over(*mg, inputs_model(inputs@), inputs@.len() as nat),
{
    let ghost ins = inputs_model(inputs@);
    let n = inputs.len();
    let mut succeeded: usize = 0;
    let mut ingress: usize = 0;
    let mut egress: usize = 0;
    let mut durations: Vec<u64> = Vec::new();
    let mut error_inputs: Vec<FieldMap> = Vec::new();
    let mut min_us: u64 = 0;
    let mut max_us: u64 = 0;
    let mut total_us: u64 = 0;
    let mut k: usize = 0;
    while k < n
        invariant
            ins == inputs_model(inputs@),
            n == inputs@.len(),
            k <= n,
            succeeded == oks_over(*mg, ins, validated, k as nat),
            validated ==> ingress == ingress_over(*mg, ins, k as nat),
            validated ==> egress == egress_over(*mg, ins, k as nat),
            succeeded <= k,
            ingress <= k,
            egress <= k,
            durations@.len() == k,
            forall|i: int| 0 <= i < k ==> min_us <= #[trigger] durations@[i] <= max_us,
            k > 0 ==> durations@.contains(min_us) && durations@.contains(max_us),
            k == 0 ==> min_us == 0 && max_us == 0,
            total_us == duration_total(durations@),
            error_inputs@.len() == if fails_over(*mg, ins, validated, k as nat).len() < 10 {
                fails_over(*mg, ins, validated, k as nat).len() as int
            } else {
                10
            },
            forall|i: int| 0 <= i < error_inputs@.len() ==> (#[trigger] error_inputs@[i]).model() == fails_over(
                *mg,
                ins,
                validated,
                k as nat,
            )[i],
        decreases n - k,
    {
        proof {
            lemma_over_counts(*mg, ins, validated, k as nat);
            assert(ins[k as int] == inputs@[k as int].model());
        }
        let input = inputs[k].clone();
        let (ok, d, rejected_in, rejected_out) = if validated {
            let vr = mg.run_validated(input.clone());
            (vr.is_valid(), vr.result.duration_us, vr.ingress_errors.len() > 0, vr.egress_errors.len() > 0)
        } else {
            let res = mg.run(input.clone());
            (res.success, res.duration_us, false, false)
        };
        if validated {
            if rejected_in {
                ingress = ingress + 1;
            }
            if rejected_out {
                egress = egress + 1;
            }
        }
        let ghost before = durations@;
        durations.push(d);
        if k == 0 {
            min_us = d;
            max_us = d;
        } else {
            if d < min_us {
                min_us = d;
            }
            if d > max_us {
                max_us = d;
            }
        }
        total_us = total_us.saturating_add(d);
        proof {
            assert(durations@.drop_last() =~= before);
            assert(durations@[k as int] == d);
            assert forall|i: int| 0 <= i < k + 1 implies min_us <= #[trigger] durations@[i] <= max_us by {
                if i < k {
                    assert(durations@[i] == before[i]);
                }
            }
            if k > 0 {
                if before.contains(min_us) {
                    let q = choose|q: int| 0 <= q < before.len() && before[q] == min_us;
                    assert(durations@[q] == min_us);
                }
                if before.contains(max_us) {
                    let q = choose|q: int| 0 <= q < before.len() && before[q] == max_us;
                    assert(durations@[q] == max_us);
                }
            }
        }
        if ok {
            succeeded = succeeded + 1;
        } else {
            if error_inputs.len() < 10 {
                let ghost eb = error_inputs@;
                error_inputs.push(input);
                proof {
                    assert forall|i: int| 0 <= i < error_inputs@.len() implies (#[trigger] error_inputs@[i]).model()
                        == fails_over(*mg, ins, validated, (k + 1) as nat)[i] by {
                        if i < eb.len() {
                            assert(error_inputs@[i] == eb[i]);
                        }
                    }
                }
            }
        }
        k = k + 1;
    }
    proof {
        lemma_over_counts(*mg, ins, validated, n as nat);
    }
    (
        StressCounts {
            name: mg.name.clone(),
            iterations: n,
            succeeded,
            errored: n - succeeded,
            durations,
            min_us,
            max_us,
            total_us,
            error_inputs,
        },
        ingress,
        egress,
    )
}

/// Run a microgram on each of the given inputs, in order, and count the
/// failed runs.
pub fn stress_over(mg: &Microgram, inputs: Vec<FieldMap>) -> (r: StressCounts)
    ensures
        is_stress_over(*mg, inputs_model(inputs@), false, r),
{
    stress_loop(mg, inputs, false).0
}

/// Run a microgram through `run_validated` on each of the given inputs, in
/// order: a run succeeds when the input, the tree and the output all pass;
/// rejected inputs and rejected outputs are counted apart.
pub fn stress_validated_over(mg: &Microgram, inputs: Vec<FieldMap>) -> (r: ValidatedStressCounts)
    ensures
        is_stress_over(*mg, inputs_model(inputs@), true, r.base),
        r.ingress_failures == ingress_over(*mg, inputs_model(inputs@), inputs@.len() as nat),
        r.egress_failures == egress_over(*mg, inputs_model(inputs@), inputs@.len() as nat),
{
    let (base, ingress_failures, egress_failures) = stress_loop(mg, inputs, true);
    ValidatedStressCounts { base, ingress_failures, egress_failures }
}

} // verus!
