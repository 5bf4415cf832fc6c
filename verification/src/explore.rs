//! Exploring a microgram's behaviour: shrinking an input while keeping its
//! output, and suggesting new boundary tests.
use vstd::prelude::*;
use crate::value::{Value, ValueModel, FieldMap};
use crate::engine::{DecisionNode, Operator};
use crate::microgram::{Microgram, MicrogramTest, run_output, expectations_hold};
use crate::interface::{input_variables, condition_vars, node_seq};
use crate::generate::{single, tests_view};

verus! {

/// The binary search of `shrink` for variable `var` of `base`, between `lo`
/// and `hi`, toward zero from the value `first` it started at. Each probe
/// that keeps the output `target` becomes the new end on the side of
/// `first`, so the value found always keeps it: from above (`first >= 0`)
/// the search ends on the lowest such end, from below on the highest.
pub open spec fn search(
    mg: Microgram,
    base: Map<Seq<char>, ValueModel>,
    var: Seq<char>,
    target: Map<Seq<char>, ValueModel>,
    first: int,
    lo: int,
    hi: int,
) -> int
    decreases hi - lo,
{
    if lo >= hi {
        lo
    } else if first >= 0 {
        let mid = lo + (hi - lo) / 2;
        if run_output(mg, base.insert(var, ValueModel::Int(mid))) == target {
            search(mg, base, var, target, first, lo, mid)
        } else {
            search(mg, base, var, target, first, mid + 1, hi)
        }
    } else {
        let mid = lo + (hi - lo - 1) / 2 + 1;
        if run_output(mg, base.insert(var, ValueModel::Int(mid))) == target {
            search(mg, base, var, target, first, mid, hi)
        } else {
            search(mg, base, var, target, first, lo, mid - 1)
        }
    }
}

proof fn lemma_search_range(
    mg: Microgram,
    base: Map<Seq<char>, ValueModel>,
    var: Seq<char>,
    target: Map<Seq<char>, ValueModel>,
    first: int,
    lo: int,
    hi: int,
)
    requires
        lo <= hi,
    ensures
        lo <= search(mg, base, var, target, first, lo, hi) <= hi,
    decreases hi - lo,
{
    if lo < hi {
        if first >= 0 {
            let mid = lo + (hi - lo) / 2;
            lemma_search_range(mg, base, var, target, first, lo, mid);
            lemma_search_range(mg, base, var, target, first, mid + 1, hi);
        } else {
            let mid = lo + (hi - lo - 1) / 2 + 1;
            lemma_search_range(mg, base, var, target, first, mid, hi);
            lemma_search_range(mg, base, var, target, first, lo, mid - 1);
        }
    }
}

/// The input after shrinking the first `n` of `vars`, each integer value
/// searched between zero and itself.
pub open spec fn shrunk(
    mg: Microgram,
    input: Map<Seq<char>, ValueModel>,
    vars: Seq<Seq<char>>,
    target: Map<Seq<char>, ValueModel>,
    n: int,
) -> Map<Seq<char>, ValueModel>
    decreases n,
{
    if n <= 0 {
        input
    } else {
        let m = shrunk(mg, input, vars, target, n - 1);
        let v = vars[n - 1];
        if m.contains_key(v) && m[v] is Int {
            let o = m[v]->Int_0;
            let (lo, hi) = if o >= 0 {
                (0, o)
            } else {
                (o, 0)
            };
            m.insert(v, ValueModel::Int(search(mg, m, v, target, o, lo, hi)))
        } else {
            m
        }
    }
}

/// The integer variables that shrinking visits never hold `i64::MIN`.
pub open spec fn shrinkable(mg: Microgram, input: Map<Seq<char>, ValueModel>) -> bool {
    forall|v: Seq<char>|
        condition_vars(node_seq(mg)).contains(v) && #[trigger] input.contains_key(v) ==> input[v] != ValueModel::Int(
            i64::MIN as int,
        )
}

proof fn lemma_shrunk_keeps(
    mg: Microgram,
    input: Map<Seq<char>, ValueModel>,
    vars: Seq<Seq<char>>,
    target: Map<Seq<char>, ValueModel>,
    n: int,
    v: Seq<char>,
)
    requires
        0 <= n <= vars.len(),
        forall|i: int, j: int| 0 <= i < j < vars.len() ==> vars[i] != vars[j],
        exists|j: int| n <= j < vars.len() && vars[j] == v,
    ensures
        shrunk(mg, input, vars, target, n).contains_key(v) == input.contains_key(v),
        input.contains_key(v) ==> shrunk(mg, input, vars, target, n)[v] == input[v],
    decreases n,
{
    if n > 0 {
        let j = choose|j: int| n <= j < vars.len() && vars[j] == v;
        assert(vars[n - 1] != v);
        lemma_shrunk_keeps(mg, input, vars, target, n - 1, v);
    }
}

proof fn lemma_search_keeps_output(
    mg: Microgram,
    base: Map<Seq<char>, ValueModel>,
    var: Seq<char>,
    target: Map<Seq<char>, ValueModel>,
    first: int,
    lo: int,
    hi: int,
)
    requires
        lo <= hi,
        first >= 0 ==> run_output(mg, base.insert(var, ValueModel::Int(hi))) == target,
        first < 0 ==> run_output(mg, base.insert(var, ValueModel::Int(lo))) == target,
    ensures
        run_output(mg, base.insert(var, ValueModel::Int(search(mg, base, var, target, first, lo, hi)))) == target,
    decreases hi - lo,
{
    if lo < hi {
        if first >= 0 {
            let mid = lo + (hi - lo) / 2;
            if run_output(mg, base.insert(var, ValueModel::Int(mid))) == target {
                lemma_search_keeps_output(mg, base, var, target, first, lo, mid);
            } else {
                lemma_search_keeps_output(mg, base, var, target, first, mid + 1, hi);
            }
        } else {
            let mid = lo + (hi - lo - 1) / 2 + 1;
            if run_output(mg, base.insert(var, ValueModel::Int(mid))) == target {
                lemma_search_keeps_output(mg, base, var, target, first, mid, hi);
            } else {
                lemma_search_keeps_output(mg, base, var, target, first, lo, mid - 1);
            }
        }
    }
}

proof fn lemma_shrunk_keeps_output(
    mg: Microgram,
    input: Map<Seq<char>, ValueModel>,
    vars: Seq<Seq<char>>,
    n: int,
)
    requires
        0 <= n <= vars.len(),
        forall|i: int, j: int| 0 <= i < j < vars.len() ==> vars[i] != vars[j],
    ensures
        run_output(mg, shrunk(mg, input, vars, run_output(mg, input), n)) == run_output(mg, input),
    decreases n,
{
    if n > 0 {
        let target = run_output(mg, input);
        lemma_shrunk_keeps_output(mg, input, vars, n - 1);
        let m = shrunk(mg, input, vars, target, n - 1);
        let v = vars[n - 1];
        if m.contains_key(v) && m[v] is Int {
            let o = m[v]->Int_0;
            assert(m.insert(v, ValueModel::Int(o)) =~= m);
            if o >= 0 {
                lemma_search_keeps_output(mg, m, v, target, o, 0, o);
            } else {
                lemma_search_keeps_output(mg, m, v, target, o, o, 0);
            }
        }
    }
}

/// Shrinking keeps the output: the shrunk input gives the output of the
/// given one.
pub proof fn lemma_shrink_preserves_output(mg: Microgram, input: Map<Seq<char>, ValueModel>)
    ensures
        run_output(
            mg,
            shrunk(mg, input, condition_vars(node_seq(mg)), run_output(mg, input), condition_vars(node_seq(mg)).len() as int),
        ) == run_output(mg, input),
{
    let vars = condition_vars(node_seq(mg));
    crate::interface::lemma_condition_vars_distinct(node_seq(mg));
    lemma_shrunk_keeps_output(mg, input, vars, vars.len() as int);
}

/// Look for a smaller input with the same output: for each variable the
/// conditions test, in order, an integer value is moved toward zero by
/// binary search, and only onto values on which the output stays that of
/// the given input (a negative value is searched from below).
pub fn shrink(mg: &Microgram, input: &FieldMap) -> (r: FieldMap)
    requires
        shrinkable(*mg, input.model()),
    ensures
        r.model() == shrunk(
            *mg,
            input.model(),
            condition_vars(node_seq(*mg)),
            run_output(*mg, input.model()),
            condition_vars(node_seq(*mg)).len() as int,
        ),
{
    let target = mg.run(input.clone()).output;
    let ghost tm = target.model();
    let mut minimal = input.clone();
    let vars = input_variables(mg);
    let ghost vs = condition_vars(node_seq(*mg));
    proof {
        crate::interface::lemma_condition_vars_distinct(node_seq(*mg));
    }
    let mut i: usize = 0;
    while i < vars.len()
        invariant
            crate::engine::names_view(vars@) == vs,
            vs == condition_vars(node_seq(*mg)),
            forall|a: int, b: int| 0 <= a < b < vs.len() ==> vs[a] != vs[b],
            tm == run_output(*mg, input.model()),
            target.model() == tm,
            shrinkable(*mg, input.model()),
            i <= vars@.len(),
            minimal.model() == shrunk(*mg, input.model(), vs, tm, i as int),
        decreases vars@.len() - i,
    {
        let var = &vars[i];
        let ghost m0 = minimal.model();
        proof {
            assert(vs[i as int] == var@);
            lemma_shrunk_keeps(*mg, input.model(), vs, tm, i as int, var@);
        }
        let current: Option<i64> = match minimal.get(var.as_str()) {
            Some(Value::Int(n)) => Some(*n),
            _ => None,
        };
        match current {
            Some(first) => {
                proof {
                    assert(vs.contains(var@));
                    assert(input.model().contains_key(var@));
                    assert(first != i64::MIN);
                }
                let (mut lo, mut hi): (i64, i64) = if first >= 0 {
                    (0, first)
                } else {
                    (first, 0)
                };
                let ghost lo0 = lo as int;
                let ghost hi0 = hi as int;
                while lo < hi
                    invariant
                        lo0 <= lo <= hi <= hi0,
                        lo0 == if first >= 0 { 0 } else { first as int },
                        hi0 == if first >= 0 { first as int } else { 0 },
                        first != i64::MIN,
                        m0 == minimal.model(),
                        target.model() == tm,
                        search(*mg, m0, var@, tm, first as int, lo as int, hi as int) == search(
                            *mg,
                            m0,
                            var@,
                            tm,
                            first as int,
                            lo0,
                            hi0,
                        ),
                    decreases hi - lo,
                {
                    let mid = if first >= 0 {
                        lo + (hi - lo) / 2
                    } else {
                        lo + (hi - lo - 1) / 2 + 1
                    };
                    let mut test_input = minimal.clone();
                    test_input.insert(var.clone(), Value::Int(mid));
                    let result = mg.run(test_input);
                    let same = result.output.same_as(&target);
                    if first >= 0 {
                        if same {
                            hi = mid;
                        } else {
                            lo = mid + 1;
                        }
                    } else {
                        if same {
                            lo = mid;
                        } else {
                            hi = mid - 1;
                        }
                    }
                }
                proof {
                    lemma_search_range(*mg, m0, var@, tm, first as int, lo0, hi0);
                }
                minimal.insert(var.clone(), Value::Int(lo));
            },
            None => {},
        }
        i = i + 1;
    }
    minimal
}

// ───────────────────────────── suggesting tests ─────────────────────────────

/// Some existing test input gives `var` a value that satisfies `pred`.
pub open spec fn tested(tests: Seq<MicrogramTest>, var: Seq<char>, pred: spec_fn(ValueModel) -> bool) -> bool {
    exists|i: int|
        0 <= i < tests.len() && (#[trigger] tests[i]).input.model().contains_key(var) && pred(
            tests[i].input.model()[var],
        )
}

/// A suggested test: the input `{var: x}` and what the microgram outputs on it.
pub open spec fn probe(mg: Microgram, var: Seq<char>, x: ValueModel) -> (
    Map<Seq<char>, ValueModel>,
    Map<Seq<char>, ValueModel>,
) {
    (single(var, x), run_output(mg, single(var, x)))
}

/// Some existing test input gives `var` an integer between `lo` and `hi`.
pub open spec fn tested_range(tests: Seq<MicrogramTest>, var: Seq<char>, lo: int, hi: int) -> bool {
    exists|i: int|
        0 <= i < tests.len() && (#[trigger] tests[i]).input.model().contains_key(var) && {
            let v = tests[i].input.model()[var];
            v is Int && lo <= v->Int_0 <= hi
        }
}

/// `seq![probe]` unless `covered`.
pub open spec fn probe_unless(covered: bool, mg: Microgram, var: Seq<char>, x: ValueModel) -> Seq<
    (Map<Seq<char>, ValueModel>, Map<Seq<char>, ValueModel>),
> {
    if covered {
        Seq::empty()
    } else {
        seq![probe(mg, var, x)]
    }
}

/// The int probes for a threshold `n` on `var`: zero, a negative value,
/// `n - 1`, `n + 1` and `100 n`, each unless an existing test covers it
/// (with zero, a negative value, `n - 1`, `n + 1`, or a value above `10 n`;
/// test values are `i64`s).
pub open spec fn int_probes(mg: Microgram, var: Seq<char>, n: int) -> Seq<
    (Map<Seq<char>, ValueModel>, Map<Seq<char>, ValueModel>),
> {
    let ts = mg.tests@;
    probe_unless(tested_range(ts, var, 0, 0), mg, var, ValueModel::Int(0)) + probe_unless(
        tested_range(ts, var, i64::MIN as int, -1),
        mg,
        var,
        ValueModel::Int(-1),
    ) + probe_unless(tested_range(ts, var, n - 1, n - 1), mg, var, ValueModel::Int(n - 1)) + probe_unless(
        tested_range(ts, var, n + 1, n + 1),
        mg,
        var,
        ValueModel::Int(n + 1),
    ) + probe_unless(tested_range(ts, var, n * 10 + 1, i64::MAX as int), mg, var, ValueModel::Int(n * 100))
}

/// Probes near a float threshold, as decided from float arithmetic: the
/// bit patterns of the value just below and just above, each when no
/// existing test is that close.
pub struct FloatProbe {
    pub below: Option<u64>,
    pub above: Option<u64>,
}

pub open spec fn float_suggestions(mg: Microgram, var: Seq<char>, p: FloatProbe) -> Seq<
    (Map<Seq<char>, ValueModel>, Map<Seq<char>, ValueModel>),
> {
    let b = match p.below {
        Some(bits) => seq![probe(mg, var, Value::Float(bits).model())],
        None => Seq::empty(),
    };
    let a = match p.above {
        Some(bits) => seq![probe(mg, var, Value::Float(bits).model())],
        None => Seq::empty(),
    };
    b + a
}

/// The node compares against a float threshold.
pub open spec fn has_float_threshold(n: DecisionNode) -> bool {
    n matches DecisionNode::Condition { value: Some(Value::Float(_)), .. }
}

/// Number of float-threshold conditions among the first `n` nodes.
pub open spec fn float_count(nodes: Seq<DecisionNode>, n: int) -> nat
    decreases n,
{
    if n <= 0 {
        0
    } else {
        float_count(nodes, n - 1) + if has_float_threshold(nodes[n - 1]) {
            1nat
        } else {
            0nat
        }
    }
}

/// Suggestions for one node; `fp` is its float probe when it has a float threshold.
pub open spec fn node_probes(mg: Microgram, node: DecisionNode, fp: FloatProbe) -> Seq<
    (Map<Seq<char>, ValueModel>, Map<Seq<char>, ValueModel>),
> {
    match node {
        DecisionNode::Condition { variable, operator, value: Some(threshold), .. } => {
            let var = variable@;
            let by_value = match threshold {
                Value::Int(n) => int_probes(mg, var, n as int),
                Value::Float(_) => float_suggestions(mg, var, fp),
                _ => Seq::empty(),
            };
            let missing = if operator != Operator::IsNull && operator != Operator::IsNotNull && !(exists|i: int|
                0 <= i < mg.tests@.len() && !(#[trigger] mg.tests@[i]).input.model().contains_key(var)) {
                seq![(Map::empty(), run_output(mg, Map::empty()))]
            } else {
                Seq::empty()
            };
            by_value + missing
        },
        _ => Seq::empty(),
    }
}

/// Suggestions for the first `n` nodes.
pub open spec fn suggestions(mg: Microgram, probes: Seq<FloatProbe>, n: int) -> Seq<
    (Map<Seq<char>, ValueModel>, Map<Seq<char>, ValueModel>),
>
    decreases n,
{
    if n <= 0 {
        Seq::empty()
    } else {
        let nodes = node_seq(mg);
        suggestions(mg, probes, n - 1) + node_probes(mg, nodes[n - 1], probes[float_count(nodes, n - 1) as int])
    }
}

/// Each suggestion expects what the microgram outputs on its input.
pub open spec fn expects_own_output(mg: Microgram, s: Seq<(Map<Seq<char>, ValueModel>, Map<Seq<char>, ValueModel>)>) -> bool {
    forall|i: int| 0 <= i < s.len() ==> (#[trigger] s[i]).1 == run_output(mg, s[i].0)
}

proof fn lemma_node_probes_own_output(mg: Microgram, node: DecisionNode, fp: FloatProbe)
    ensures
        expects_own_output(mg, node_probes(mg, node, fp)),
{
    match node {
        DecisionNode::Condition { variable, operator, value: Some(threshold), .. } => {
            let var = variable@;
            match threshold {
                Value::Int(n) => {
                    let ts = mg.tests@;
                    let n = n as int;
                    let p0 = probe_unless(tested_range(ts, var, 0, 0), mg, var, ValueModel::Int(0));
                    let p1 = probe_unless(tested_range(ts, var, i64::MIN as int, -1), mg, var, ValueModel::Int(-1));
                    let p2 = probe_unless(tested_range(ts, var, n - 1, n - 1), mg, var, ValueModel::Int(n - 1));
                    let p3 = probe_unless(tested_range(ts, var, n + 1, n + 1), mg, var, ValueModel::Int(n + 1));
                    let p4 = probe_unless(tested_range(ts, var, n * 10 + 1, i64::MAX as int), mg, var, ValueModel::Int(n * 100));
                    assert(expects_own_output(mg, p0 + p1 + p2 + p3 + p4));
                },
                _ => {},
            }
        },
        _ => {},
    }
}

proof fn lemma_suggestions_own_output(mg: Microgram, probes: Seq<FloatProbe>, n: int)
    ensures
        expects_own_output(mg, suggestions(mg, probes, n)),
    decreases n,
{
    if n > 0 {
        let nodes = node_seq(mg);
        lemma_suggestions_own_output(mg, probes, n - 1);
        lemma_node_probes_own_output(mg, nodes[n - 1], probes[float_count(nodes, n - 1) as int]);
    }
}

/// The suggested tests hold on the microgram as it is: each one's output on
/// its input has every expected field with the expected value, so adding
/// them to the microgram's tests adds no failure (for expectations that name
/// each field once).
pub proof fn lemma_suggestions_hold(mg: Microgram, probes: Seq<FloatProbe>)
    ensures
        forall|i: int|
            0 <= i < suggestions(mg, probes, node_seq(mg).len() as int).len() ==> expectations_hold(
                (#[trigger] suggestions(mg, probes, node_seq(mg).len() as int)[i]).1,
                run_output(mg, suggestions(mg, probes, node_seq(mg).len() as int)[i].0),
            ),
{
    lemma_suggestions_own_output(mg, probes, node_seq(mg).len() as int);
}

/// An integer threshold `n` on `var` leaves room for its probes: `n - 1`,
/// `n + 1` and `10 n` fit in `i64`, and so does `100 n` unless an existing
/// test already gives `var` a value above `10 n`.
pub open spec fn int_probes_fit(mg: Microgram, var: Seq<char>, n: int) -> bool {
    &&& i64::MIN < n < i64::MAX
    &&& i64::MIN <= n * 10 <= i64::MAX
    &&& !tested_range(mg.tests@, var, n * 10 + 1, i64::MAX as int) ==> i64::MIN <= n * 100 <= i64::MAX
}

/// Every integer threshold leaves room for its probes.
pub open spec fn probes_fit(mg: Microgram) -> bool {
    forall|i: int|
        0 <= i < node_seq(mg).len() ==> match #[trigger] node_seq(mg)[i] {
            DecisionNode::Condition { variable, value: Some(Value::Int(n)), .. } => int_probes_fit(mg, variable@, n as int),
            _ => true,
        }
}

/// Whether `evolve_tests` can suggest tests for `mg` without an integer
/// overflow: true exactly when every integer threshold leaves room for its
/// probes.
pub fn evolve_fits(mg: &Microgram) -> (r: bool)
    ensures
        r == probes_fit(*mg),
{
    let nodes = crate::interface::live_nodes(mg);
    let ghost ns = node_seq(*mg);
    let mut i: usize = 0;
    while i < nodes.len()
        invariant
            ns == node_seq(*mg),
            nodes@.len() == ns.len(),
            forall|j: int| 0 <= j < nodes@.len() ==> *(#[trigger] nodes@[j]) == ns[j],
            i <= nodes@.len(),
            forall|j: int|
                0 <= j < i ==> match #[trigger] ns[j] {
                    DecisionNode::Condition { variable, value: Some(Value::Int(n)), .. } => int_probes_fit(*mg, variable@, n as int),
                    _ => true,
                },
        decreases nodes@.len() - i,
    {
        let node: &DecisionNode = nodes[i];
        proof {
            assert(*node == ns[i as int]);
        }
        match node {
            DecisionNode::Condition { variable, value: Some(Value::Int(n)), .. } => {
                let n = *n;
                if n == i64::MIN || n == i64::MAX {
                    return false;
                }
                match n.checked_mul(10) {
                    None => {
                        return false;
                    },
                    Some(n10) => {
                        let covered = is_tested_int(mg, variable.as_str(), n10 + 1, i64::MAX);
                        if !covered && n.checked_mul(100).is_none() {
                            return false;
                        }
                    },
                }
            },
            _ => {},
        }
        i = i + 1;
    }
    true
}

fn is_tested_int(mg: &Microgram, var: &str, lo: i64, hi: i64) -> (r: bool)
    ensures
        r == tested_range(mg.tests@, var@, lo as int, hi as int),
{
    let mut i: usize = 0;
    while i < mg.tests.len()
        invariant
            i <= mg.tests@.len(),
            forall|j: int|
                0 <= j < i ==> !((#[trigger] mg.tests@[j]).input.model().contains_key(var@) && {
                    let v = mg.tests@[j].input.model()[var@];
                    v is Int && lo <= v->Int_0 <= hi
                }),
        decreases mg.tests@.len() - i,
    {
        match mg.tests[i].input.get(var) {
            Some(Value::Int(x)) => {
                if lo <= *x && *x <= hi {
                    return true;
                }
            },
            _ => {},
        }
        i = i + 1;
    }
    false
}

fn push_probe_unless(out: &mut Vec<MicrogramTest>, covered: bool, mg: &Microgram, var: &String, x: Value)
    ensures
        tests_view(final(out)@) == tests_view(old(out)@) + probe_unless(covered, *mg, var@, x.model()),
{
    if !covered {
        let ghost before = old(out)@;
        let t = probe_test(mg, var, x);
        out.push(t);
        proof {
            assert(tests_view(out@) =~= tests_view(before) + probe_unless(covered, *mg, var@, x.model()));
        }
    } else {
        proof {
            assert(tests_view(out@) =~= tests_view(out@) + probe_unless(covered, *mg, var@, x.model()));
        }
    }
}

fn probe_test(mg: &Microgram, var: &String, x: Value) -> (t: MicrogramTest)
    ensures
        (t.input.model(), t.expect.model()) == probe(*mg, var@, x.model()),
{
    let mut input = FieldMap::new();
    input.insert(var.clone(), x);
    proof {
        assert(input.model() =~= single(var@, x.model()));
    }
    let result = mg.run(input.clone());
    MicrogramTest { input, expect: result.output }
}

/// Suggest new tests for a microgram: for each condition node with an
/// integer threshold `n`, inputs at zero, at a negative value, at `n - 1`,
/// `n + 1` and `100 n` that no existing test covers (`100 n` is covered by
/// a value above `10 n`); for one with a float
/// threshold, the probes that `float_probes` holds for it (one entry per
/// such node, in node order); and, for a condition other than a null test,
/// an empty input when every existing test sets its variable. Each
/// suggestion expects what the microgram outputs on it now.
pub fn evolve_tests(mg: &Microgram, float_probes: &[FloatProbe]) -> (r: Vec<MicrogramTest>)
    requires
        probes_fit(*mg),
        float_probes@.len() == float_count(node_seq(*mg), node_seq(*mg).len() as int),
    ensures
        tests_view(r@) == suggestions(*mg, float_probes@, node_seq(*mg).len() as int),
{
    let nodes = crate::interface::live_nodes(mg);
    let ghost ns = node_seq(*mg);
    let mut out: Vec<MicrogramTest> = Vec::new();
    let mut fi: usize = 0;
    let mut i: usize = 0;
    let np = float_probes.len();
    proof {
        assert(tests_view(out@) =~= suggestions(*mg, float_probes@, 0));
    }
    while i < nodes.len()
        invariant
            np == float_probes@.len(),
            nodes@.len() == ns.len(),
            ns == node_seq(*mg),
            forall|j: int| 0 <= j < nodes@.len() ==> *(#[trigger] nodes@[j]) == ns[j],
            probes_fit(*mg),
            float_probes@.len() == float_count(ns, ns.len() as int),
            i <= nodes@.len(),
            fi == float_count(ns, i as int),
            tests_view(out@) == suggestions(*mg, float_probes@, i as int),
        decreases nodes@.len() - i,
    {
        proof {
            lemma_float_count_mono(ns, i as int, ns.len() as int);
            assert(*nodes@[i as int] == ns[i as int]);
            assert(has_float_threshold(ns[i as int]) ==> fi < float_probes@.len());
            assert(suggestions(*mg, float_probes@, i + 1) == suggestions(*mg, float_probes@, i as int) + node_probes(
                *mg,
                ns[i as int],
                float_probes@[fi as int],
            ));
        }
        let node: &DecisionNode = nodes[i];
        let is_f = is_float_condition(node);
        proof {
            assert(*node == ns[i as int]);
            assert(is_f ==> fi < float_probes@.len());
        }
        suggest_for_node(&mut out, mg, node, float_probes, fi);
        if is_f {
            fi = fi + 1;
        }
        i = i + 1;
    }
    out
}

fn is_float_condition(n: &DecisionNode) -> (r: bool)
    ensures
        r == has_float_threshold(*n),
{
    match n {
        DecisionNode::Condition { value: Some(Value::Float(_)), .. } => true,
        _ => false,
    }
}

fn suggest_int(out: &mut Vec<MicrogramTest>, mg: &Microgram, variable: &String, n: i64)
    requires
        int_probes_fit(*mg, variable@, n as int),
    ensures
        tests_view(final(out)@) == tests_view(old(out)@) + int_probes(*mg, variable@, n as int),
{
    let ghost before = tests_view(out@);
    let c0 = is_tested_int(mg, variable.as_str(), 0, 0);
    push_probe_unless(out, c0, mg, variable, Value::Int(0));
    let c1 = is_tested_int(mg, variable.as_str(), i64::MIN, -1);
    push_probe_unless(out, c1, mg, variable, Value::Int(-1));
    let c2 = is_tested_int(mg, variable.as_str(), n - 1, n - 1);
    push_probe_unless(out, c2, mg, variable, Value::Int(n - 1));
    let c3 = is_tested_int(mg, variable.as_str(), n + 1, n + 1);
    push_probe_unless(out, c3, mg, variable, Value::Int(n + 1));
    let ghost mid = tests_view(out@);
    let c4 = is_tested_int(mg, variable.as_str(), n * 10 + 1, i64::MAX);
    if !c4 {
        push_probe_unless(out, false, mg, variable, Value::Int(n * 100));
    }
    proof {
        assert(tests_view(out@) =~= before + int_probes(*mg, variable@, n as int));
    }
}

fn suggest_for_node(out: &mut Vec<MicrogramTest>, mg: &Microgram, node: &DecisionNode, float_probes: &[FloatProbe], fi: usize)
    requires
        has_float_threshold(*node) ==> fi < float_probes@.len(),
        match *node {
            DecisionNode::Condition { variable, value: Some(Value::Int(n)), .. } => int_probes_fit(*mg, variable@, n as int),
            _ => true,
        },
    ensures
        tests_view(final(out)@) == tests_view(old(out)@) + node_probes(*mg, *node, float_probes@[fi as int]),
{
    let ghost before = tests_view(out@);
        match node {
        DecisionNode::Condition { variable, operator, value: Some(threshold), .. } => {
            match threshold {
                Value::Int(n) => {
                    suggest_int(out, mg, variable, *n);
                },
                Value::Float(_) => {
                    let fp = &float_probes[fi];
                    match fp.below {
                        Some(bits) => push_probe_unless(out, false, mg, variable, Value::Float(bits)),
                        None => {},
                    }
                    let ghost mid = tests_view(out@);
                    match fp.above {
                        Some(bits) => push_probe_unless(out, false, mg, variable, Value::Float(bits)),
                        None => {},
                    }
                    proof {
                        assert(tests_view(out@) =~= before + float_suggestions(*mg, variable@, float_probes@[fi as int]));
                    }
                },
                _ => {},
            }
            let ghost after_value = tests_view(out@);
            proof {
                let by_value = match threshold {
                    Value::Int(n) => int_probes(*mg, variable@, *n as int),
                    Value::Float(_) => float_suggestions(*mg, variable@, float_probes@[fi as int]),
                    _ => Seq::empty(),
                };
                assert(after_value =~= before + by_value);
            }
            if *operator != Operator::IsNull && *operator != Operator::IsNotNull {
                let mut has_missing = false;
                let mut t: usize = 0;
                while t < mg.tests.len()
                    invariant
                        t <= mg.tests@.len(),
                        has_missing == exists|j: int|
                            0 <= j < t && !(#[trigger] mg.tests@[j]).input.model().contains_key(variable@),
                    decreases mg.tests@.len() - t,
                {
                    if !mg.tests[t].input.contains_key(variable.as_str()) {
                        has_missing = true;
                    }
                    t = t + 1;
                }
                if !has_missing {
                    let input = FieldMap::new();
                    let result = mg.run(input.clone());
                    proof {
                        assert(input.model() =~= Map::<Seq<char>, ValueModel>::empty());
                    }
                    out.push(MicrogramTest { input, expect: result.output });
                    proof {
                        assert(tests_view(out@) =~= after_value.push((Map::empty(), run_output(*mg, Map::empty()))));
                    }
                }
            }
            proof {
                assert(tests_view(out@) =~= before + node_probes(*mg, *node, float_probes@[fi as int]));
            }
        },
        _ => {
            proof {
                assert(tests_view(out@) =~= before + node_probes(*mg, *node, float_probes@[fi as int]));
            }
        },
    }
}

proof fn lemma_float_count_mono(nodes: Seq<DecisionNode>, i: int, n: int)
    requires
        0 <= i < n,
    ensures
        float_count(nodes, i) < float_count(nodes, n) || !has_float_threshold(nodes[i]),
        float_count(nodes, i + 1) <= float_count(nodes, n),
    decreases n - i,
{
    if i + 1 < n {
        lemma_float_count_mono(nodes, i + 1, n);
    }
}

} // verus!
