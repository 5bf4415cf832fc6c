//! Deriving new micrograms from existing ones: copies, threshold mutation,
//! merging two into a dispatcher, shrinking inputs and suggesting tests.
use vstd::prelude::*;
use crate::value::{Value, ValueModel, FieldMap};
use crate::engine::{
    DecisionNode, DecisionTree, NodeModel, Operator, ResultModel, names_view, opt_model, opt_view, run_from, max_steps,
    lookup_or_null,
};
use crate::strmap::{StrMap, pairs_model, pair_last_index, lemma_pairs_model_at, lemma_pair_last_index};
use crate::microgram::{
    Microgram, MicrogramTest, MicrogramInterface, InterfaceField, PrimitiveSignature, run_output, expectations_hold,
    tree_run,
};

verus! {

/// Meaning of a sequence of node entries: each name with its node's meaning.
pub open spec fn node_entries_model(s: Seq<(String, DecisionNode)>) -> Map<Seq<char>, NodeModel> {
    pairs_model(s).map_values(|n: DecisionNode| n.model())
}

/// Two sequences of node entries with the same names and node meanings mean the same.
pub proof fn lemma_node_entries_congruent(s: Seq<(String, DecisionNode)>, t: Seq<(String, DecisionNode)>)
    requires
        s.len() == t.len(),
        forall|i: int| 0 <= i < s.len() ==> (#[trigger] s[i]).0@ == t[i].0@ && s[i].1.model() == t[i].1.model(),
    ensures
        node_entries_model(s) == node_entries_model(t),
    decreases s.len(),
{
    if s.len() > 0 {
        lemma_node_entries_congruent(s.drop_last(), t.drop_last());
        assert(node_entries_model(s.drop_last()) == node_entries_model(t.drop_last()));
        assert(node_entries_model(s) =~= node_entries_model(s.drop_last()).insert(s.last().0@, s.last().1.model()));
        assert(node_entries_model(t) =~= node_entries_model(t.drop_last()).insert(t.last().0@, t.last().1.model()));
    }
}

/// A copy of a string.
fn copy_string(s: &String) -> (r: String)
    ensures
        r == *s,
{
    s.clone()
}

/// A copy of an optional value.
pub fn copy_opt_value(v: &Option<Value>) -> (r: Option<Value>)
    ensures
        opt_model(r) == opt_model(*v),
{
    match v {
        Some(x) => Some(x.clone()),
        None => None,
    }
}

/// A copy of a decision node.
pub fn copy_node(n: &DecisionNode) -> (r: DecisionNode)
    ensures
        r.model() == n.model(),
{
    match n {
        DecisionNode::Condition { variable, operator, value, true_next, false_next } => DecisionNode::Condition {
            variable: copy_string(variable),
            operator: *operator,
            value: copy_opt_value(value),
            true_next: copy_string(true_next),
            false_next: copy_string(false_next),
        },
        DecisionNode::Return { value } => DecisionNode::Return { value: value.clone() },
        DecisionNode::Action { action, target, value, next } => DecisionNode::Action {
            action: copy_string(action),
            target: copy_string(target),
            value: copy_opt_value(value),
            next: match next {
                Some(x) => Some(copy_string(x)),
                None => None,
            },
        },
        DecisionNode::LlmFallback { prompt, schema } => DecisionNode::LlmFallback {
            prompt: copy_string(prompt),
            schema: copy_opt_value(schema),
        },
        DecisionNode::Intrinsic { function, input_variable, output_variable, next } => DecisionNode::Intrinsic {
            function: copy_string(function),
            input_variable: copy_string(input_variable),
            output_variable: copy_string(output_variable),
            next: copy_string(next),
        },
    }
}

/// A copy of a decision tree.
pub fn copy_tree(t: &DecisionTree) -> (r: DecisionTree)
    ensures
        r.start == t.start,
        r.nodes.entries@.len() == t.nodes.entries@.len(),
        forall|i: int|
            0 <= i < t.nodes.entries@.len() ==> (#[trigger] r.nodes.entries@[i]).0 == t.nodes.entries@[i].0
                && r.nodes.entries@[i].1.model() == t.nodes.entries@[i].1.model(),
        r.nodes_model() == t.nodes_model(),
{
    let s = &t.nodes.entries;
    let mut v: Vec<(String, DecisionNode)> = Vec::new();
    let mut i: usize = 0;
    while i < s.len()
        invariant
            s == &t.nodes.entries,
            i <= s@.len(),
            v@.len() == i,
            forall|j: int| 0 <= j < i ==> (#[trigger] v@[j]).0 == s@[j].0 && v@[j].1.model() == s@[j].1.model(),
        decreases s@.len() - i,
    {
        v.push((copy_string(&s[i].0), copy_node(&s[i].1)));
        i = i + 1;
    }
    let r = DecisionTree { start: copy_string(&t.start), nodes: StrMap { entries: v } };
    proof {
        lemma_node_entries_congruent(r.nodes.entries@, s@);
        assert(r.nodes_model() =~= node_entries_model(r.nodes.entries@));
        assert(t.nodes_model() =~= node_entries_model(s@));
    }
    r
}

/// A copy of a test.
pub fn copy_test(t: &MicrogramTest) -> (r: MicrogramTest)
    ensures
        r.input.model() == t.input.model(),
        r.expect.model() == t.expect.model(),
        r.expect.entries@.len() == t.expect.entries@.len(),
        forall|i: int|
            0 <= i < t.expect.entries@.len() ==> (#[trigger] r.expect.entries@[i]).0@ == t.expect.entries@[i].0@,
{
    MicrogramTest { input: t.input.clone(), expect: t.expect.clone() }
}

/// A copy of a list of strings.
pub fn copy_strings(v: &Vec<String>) -> (r: Vec<String>)
    ensures
        r@ == v@,
{
    let mut r: Vec<String> = Vec::new();
    let mut i: usize = 0;
    while i < v.len()
        invariant
            i <= v@.len(),
            r@ == v@.subrange(0, i as int),
        decreases v@.len() - i,
    {
        r.push(copy_string(&v[i]));
        proof {
            assert(r@ =~= v@.subrange(0, i + 1));
        }
        i = i + 1;
    }
    proof {
        assert(v@.subrange(0, v@.len() as int) =~= v@);
    }
    r
}

/// A copy of a field table.
fn copy_fields(m: &StrMap<InterfaceField>) -> (r: StrMap<InterfaceField>)
    ensures
        r.entries@ == m.entries@,
{
    let s = &m.entries;
    let mut v: Vec<(String, InterfaceField)> = Vec::new();
    let mut i: usize = 0;
    while i < s.len()
        invariant
            s == &m.entries,
            i <= s@.len(),
            v@ == s@.subrange(0, i as int),
        decreases s@.len() - i,
    {
        v.push(
            (
                copy_string(&s[i].0),
                InterfaceField { field_type: copy_string(&s[i].1.field_type), required: s[i].1.required },
            ),
        );
        proof {
            assert(v@ =~= s@.subrange(0, i + 1));
        }
        i = i + 1;
    }
    proof {
        assert(s@.subrange(0, s@.len() as int) =~= s@);
    }
    StrMap { entries: v }
}

/// A copy of an alias table.
pub fn copy_aliases(m: &StrMap<String>) -> (r: StrMap<String>)
    ensures
        r.entries@ == m.entries@,
{
    let s = &m.entries;
    let mut v: Vec<(String, String)> = Vec::new();
    let mut i: usize = 0;
    while i < s.len()
        invariant
            s == &m.entries,
            i <= s@.len(),
            v@ == s@.subrange(0, i as int),
        decreases s@.len() - i,
    {
        v.push((copy_string(&s[i].0), copy_string(&s[i].1)));
        proof {
            assert(v@ =~= s@.subrange(0, i + 1));
        }
        i = i + 1;
    }
    proof {
        assert(s@.subrange(0, s@.len() as int) =~= s@);
    }
    StrMap { entries: v }
}

/// A copy of an interface.
pub fn copy_interface(i: &Option<MicrogramInterface>) -> (r: Option<MicrogramInterface>)
    ensures
        match (r, *i) {
            (Some(a), Some(b)) => a.inputs.entries@ == b.inputs.entries@ && a.outputs.entries@ == b.outputs.entries@
                && a.aliases.entries@ == b.aliases.entries@,
            (None, None) => true,
            _ => false,
        },
{
    match i {
        Some(iface) => Some(
            MicrogramInterface {
                inputs: copy_fields(&iface.inputs),
                outputs: copy_fields(&iface.outputs),
                aliases: copy_aliases(&iface.aliases),
            },
        ),
        None => None,
    }
}

/// A copy of a primitive signature.
pub fn copy_signature(s: &Option<PrimitiveSignature>) -> (r: Option<PrimitiveSignature>)
    ensures
        match (r, *s) {
            (Some(a), Some(b)) => a.dominant == b.dominant && a.expression == b.expression && a.primes@ == b.primes@
                && a.arguments@ == b.arguments@ && a.chain_prediction == b.chain_prediction,
            (None, None) => true,
            _ => false,
        },
{
    match s {
        Some(sig) => Some(
            PrimitiveSignature {
                dominant: copy_string(&sig.dominant),
                expression: copy_string(&sig.expression),
                primes: copy_strings(&sig.primes),
                arguments: copy_strings(&sig.arguments),
                chain_prediction: match &sig.chain_prediction {
                    Some(x) => Some(copy_string(x)),
                    None => None,
                },
            },
        ),
        None => None,
    }
}

// ───────────────────────────── threshold mutation ─────────────────────────────

/// A node with its integer threshold shifted by `delta`.
pub open spec fn shifted(n: NodeModel, delta: int) -> NodeModel {
    match n {
        NodeModel::Condition { variable, operator, value: Some(ValueModel::Int(t)), true_next, false_next } => NodeModel::Condition {
            variable,
            operator,
            value: Some(ValueModel::Int(t + delta)),
            true_next,
            false_next,
        },
        _ => n,
    }
}

/// Shifting every integer threshold of the tree by `delta` stays within `i64`.
pub open spec fn shift_fits(nodes: Map<Seq<char>, NodeModel>, delta: int) -> bool {
    forall|k: Seq<char>|
        #[trigger] nodes.contains_key(k) ==> match nodes[k] {
            NodeModel::Condition { value: Some(ValueModel::Int(t)), .. } => i64::MIN <= t + delta <= i64::MAX,
            _ => true,
        }
}

/// A copy of a node with its integer threshold shifted by `delta`.
fn shift_node(n: &DecisionNode, delta: i64) -> (r: DecisionNode)
    requires
        match n.model() {
            NodeModel::Condition { value: Some(ValueModel::Int(t)), .. } => i64::MIN <= t + delta <= i64::MAX,
            _ => true,
        },
    ensures
        r.model() == shifted(n.model(), delta as int),
{
    match n {
        DecisionNode::Condition { variable, operator, value: Some(Value::Int(t)), true_next, false_next } => {
            DecisionNode::Condition {
                variable: copy_string(variable),
                operator: *operator,
                value: Some(Value::Int(*t + delta)),
                true_next: copy_string(true_next),
                false_next: copy_string(false_next),
            }
        },
        _ => copy_node(n),
    }
}

/// Mutation is undone by the opposite mutation, and a mutation by zero
/// changes nothing: if `once` is `mg` with its thresholds shifted by `d` (as
/// `clone_mutated` makes it) and `back` is `once` shifted by `-d`, then
/// `back` has the tree of `mg`; with `d` zero, so has `once`.
pub proof fn lemma_clone_mutated_undone(mg: Microgram, once: Microgram, back: Microgram, d: int)
    requires
        once.tree.start == mg.tree.start,
        once.tree.nodes_model() == mg.tree.nodes_model().map_values(|n: NodeModel| shifted(n, d)),
        back.tree.start == once.tree.start,
        back.tree.nodes_model() == once.tree.nodes_model().map_values(|n: NodeModel| shifted(n, -d)),
    ensures
        back.tree.start == mg.tree.start,
        back.tree.nodes_model() == mg.tree.nodes_model(),
        d == 0 ==> once.tree.nodes_model() == mg.tree.nodes_model(),
{
    let m = mg.tree.nodes_model();
    assert(back.tree.nodes_model() =~= m);
    if d == 0 {
        assert(once.tree.nodes_model() =~= m);
    }
}

/// A copy of `mg` named `new_name`, with every integer threshold of its
/// condition nodes shifted by `threshold_delta`, and with tests that keep
/// the old inputs and expect what the mutated tree now outputs.
pub fn clone_mutated(mg: &Microgram, new_name: &str, threshold_delta: i64) -> (r: Microgram)
    requires
        shift_fits(mg.tree.nodes_model(), threshold_delta as int),
    ensures
        r.name@ == new_name@,
        r.description == mg.description,
        r.version == mg.version,
        r.tree.start == mg.tree.start,
        r.tree.nodes_model() == mg.tree.nodes_model().map_values(|n: NodeModel| shifted(n, threshold_delta as int)),
        r.tests@.len() == mg.tests@.len(),
        forall|i: int|
            0 <= i < mg.tests@.len() ==> {
                let t = #[trigger] r.tests@[i];
                &&& t.input.model() == mg.tests@[i].input.model()
                &&& t.expect.model() == run_output(r, t.input.model())
            },
{
    let s = &mg.tree.nodes.entries;
    let mut v: Vec<(String, DecisionNode)> = Vec::new();
    let ghost target = mg.tree.nodes_model().map_values(|n: NodeModel| shifted(n, threshold_delta as int));
    let mut i: usize = 0;
    while i < s.len()
        invariant
            s == &mg.tree.nodes.entries,
            shift_fits(mg.tree.nodes_model(), threshold_delta as int),
            i <= s@.len(),
            v@.len() == i,
            forall|j: int|
                0 <= j < i ==> (#[trigger] v@[j]).0 == s@[j].0 && (if pair_last_index(s@, s@[j].0@) == j {
                    v@[j].1.model() == shifted(s@[j].1.model(), threshold_delta as int)
                } else {
                    v@[j].1.model() == s@[j].1.model()
                }),
        decreases s@.len() - i,
    {
        let live = crate::strmap::last_position(s, s[i].0.as_str()) == Some(i);
        let node = if live {
            proof {
                lemma_pairs_model_at(s@, s@[i as int].0@);
                assert(mg.tree.nodes_model().contains_key(s@[i as int].0@));
                assert(mg.tree.nodes_model()[s@[i as int].0@] == s@[i as int].1.model());
            }
            shift_node(&s[i].1, threshold_delta)
        } else {
            copy_node(&s[i].1)
        };
        v.push((copy_string(&s[i].0), node));
        i = i + 1;
    }
    let tree = DecisionTree { start: copy_string(&mg.tree.start), nodes: StrMap { entries: v } };
    proof {
        assert forall|k: Seq<char>| #[trigger] tree.nodes_model().contains_key(k) == target.contains_key(k) by {
            lemma_pairs_model_at(v@, k);
            lemma_pairs_model_at(s@, k);
            lemma_same_last_index(v@, s@, k);
        }
        assert forall|k: Seq<char>| #[trigger] tree.nodes_model().contains_key(k) implies tree.nodes_model()[k]
            == target[k] by {
            lemma_pairs_model_at(v@, k);
            lemma_pairs_model_at(s@, k);
            lemma_same_last_index(v@, s@, k);
            let j = pair_last_index(s@, k);
            lemma_pair_last_index(s@, k);
            assert(s@[j].0@ == k);
        }
        assert(tree.nodes_model() =~= target);
    }
    let mut r = Microgram {
        name: String::from_str(new_name),
        description: copy_string(&mg.description),
        version: copy_string(&mg.version),
        tree,
        tests: Vec::new(),
        interface: copy_interface(&mg.interface),
        primitive_signature: copy_signature(&mg.primitive_signature),
    };
    let mut tests: Vec<MicrogramTest> = Vec::new();
    let mut t: usize = 0;
    while t < mg.tests.len()
        invariant
            t <= mg.tests@.len(),
            tests@.len() == t,
            forall|j: int|
                0 <= j < t ==> {
                    let x = #[trigger] tests@[j];
                    &&& x.input.model() == mg.tests@[j].input.model()
                    &&& x.expect.model() == run_output(r, x.input.model())
                },
        decreases mg.tests@.len() - t,
    {
        let input = mg.tests[t].input.clone();
        let result = r.run(input.clone());
        tests.push(MicrogramTest { input, expect: result.output });
        t = t + 1;
    }
    let ghost before = r;
    r.tests = tests;
    proof {
        assert forall|j: int| 0 <= j < r.tests@.len() implies run_output(r, #[trigger] r.tests@[j].input.model())
            == run_output(before, r.tests@[j].input.model()) by {
            lemma_run_output_ignores_tests(r, before, r.tests@[j].input.model());
        }
    }
    r
}

/// Running a microgram depends on its tree alone.
pub proof fn lemma_run_output_ignores_tests(a: Microgram, b: Microgram, input: Map<Seq<char>, ValueModel>)
    requires
        a.tree.start@ == b.tree.start@,
        a.tree.nodes_model() == b.tree.nodes_model(),
    ensures
        run_output(a, input) == run_output(b, input),
{
}

proof fn lemma_same_last_index(v: Seq<(String, DecisionNode)>, s: Seq<(String, DecisionNode)>, k: Seq<char>)
    requires
        v.len() == s.len(),
        forall|j: int| 0 <= j < s.len() ==> (#[trigger] v[j]).0 == s[j].0,
    ensures
        pair_last_index(v, k) == pair_last_index(s, k),
    decreases s.len(),
{
    if s.len() > 0 {
        assert(v.last().0 == s.last().0);
        lemma_same_last_index(v.drop_last(), s.drop_last(), k);
    }
}

// ───────────────────────────── merging ─────────────────────────────

/// A node whose successor names get `p` in front.
pub open spec fn remapped(n: NodeModel, p: Seq<char>) -> NodeModel {
    match n {
        NodeModel::Condition { variable, operator, value, true_next, false_next } => NodeModel::Condition {
            variable,
            operator,
            value,
            true_next: p + true_next,
            false_next: p + false_next,
        },
        NodeModel::Action { action, target, value, next } => NodeModel::Action {
            action,
            target,
            value,
            next: match next {
                Some(x) => Some(p + x),
                None => None,
            },
        },
        NodeModel::Intrinsic { function, input_variable, output_variable, next } => NodeModel::Intrinsic {
            function,
            input_variable,
            output_variable,
            next: p + next,
        },
        _ => n,
    }
}

/// `k` starts with `p` and the rest of it names a node of `nodes`.
pub open spec fn prefixed_key(nodes: Map<Seq<char>, NodeModel>, p: Seq<char>, k: Seq<char>) -> bool {
    k.len() >= p.len() && k.subrange(0, p.len() as int) == p && nodes.contains_key(k.subrange(p.len() as int, k.len() as int))
}

/// The nodes renamed with `p` in front, their successors renamed alike.
pub open spec fn prefixed(nodes: Map<Seq<char>, NodeModel>, p: Seq<char>) -> Map<Seq<char>, NodeModel> {
    Map::new(
        |k: Seq<char>| prefixed_key(nodes, p, k),
        |k: Seq<char>| remapped(nodes[k.subrange(p.len() as int, k.len() as int)], p),
    )
}

proof fn lemma_prefixed_insert(m: Map<Seq<char>, NodeModel>, k: Seq<char>, n: NodeModel, p: Seq<char>)
    ensures
        prefixed(m.insert(k, n), p) == prefixed(m, p).insert(p + k, remapped(n, p)),
{
    let pk = p + k;
    assert(pk.subrange(0, p.len() as int) =~= p);
    assert(pk.subrange(p.len() as int, pk.len() as int) =~= k);
    assert forall|q: Seq<char>| #[trigger] prefixed(m.insert(k, n), p).contains_key(q) == prefixed(m, p).insert(
        pk,
        remapped(n, p),
    ).contains_key(q) by {
        if q.len() >= p.len() && q.subrange(0, p.len() as int) == p {
            let rest = q.subrange(p.len() as int, q.len() as int);
            assert(q =~= p + rest);
            if rest == k {
                assert(q == pk);
            }
        }
    }
    assert forall|q: Seq<char>| #[trigger] prefixed(m.insert(k, n), p).contains_key(q) implies prefixed(
        m.insert(k, n),
        p,
    )[q] == prefixed(m, p).insert(pk, remapped(n, p))[q] by {
        let rest = q.subrange(p.len() as int, q.len() as int);
        assert(q =~= p + rest);
        if rest == k {
            assert(q == pk);
        } else {
            assert(q != pk);
        }
    }
    assert(prefixed(m.insert(k, n), p) =~= prefixed(m, p).insert(pk, remapped(n, p)));
}

/// A copy of a node with `prefix` in front of its successor names.
pub fn remap_node(node: &DecisionNode, prefix: &str) -> (r: DecisionNode)
    ensures
        r.model() == remapped(node.model(), prefix@),
{
    match node {
        DecisionNode::Condition { variable, operator, value, true_next, false_next } => DecisionNode::Condition {
            variable: copy_string(variable),
            operator: *operator,
            value: copy_opt_value(value),
            true_next: crate::text::concat(prefix, true_next.as_str()),
            false_next: crate::text::concat(prefix, false_next.as_str()),
        },
        DecisionNode::Action { action, target, value, next } => DecisionNode::Action {
            action: copy_string(action),
            target: copy_string(target),
            value: copy_opt_value(value),
            next: match next {
                Some(x) => Some(crate::text::concat(prefix, x.as_str())),
                None => None,
            },
        },
        DecisionNode::Intrinsic { function, input_variable, output_variable, next } => DecisionNode::Intrinsic {
            function: copy_string(function),
            input_variable: copy_string(input_variable),
            output_variable: copy_string(output_variable),
            next: crate::text::concat(prefix, next.as_str()),
        },
        _ => copy_node(node),
    }
}

/// Insert every node of `src`, renamed with `prefix`, into `out`.
fn add_prefixed(out: &mut StrMap<DecisionNode>, src: &StrMap<DecisionNode>, prefix: &str)
    ensures
        final(out).model().map_values(|n: DecisionNode| n.model()) == old(out).model().map_values(
            |n: DecisionNode| n.model(),
        ).union_prefer_right(prefixed(node_entries_model(src.entries@), prefix@)),
{
    let ghost base = out.model().map_values(|n: DecisionNode| n.model());
    let s = &src.entries;
    let mut i: usize = 0;
    proof {
        assert(prefixed(node_entries_model(s@.subrange(0, 0)), prefix@) =~= Map::<Seq<char>, NodeModel>::empty());
        assert(base.union_prefer_right(Map::<Seq<char>, NodeModel>::empty()) =~= base);
    }
    while i < s.len()
        invariant
            s == &src.entries,
            i <= s@.len(),
            out.model().map_values(|n: DecisionNode| n.model()) == base.union_prefer_right(
                prefixed(node_entries_model(s@.subrange(0, i as int)), prefix@),
            ),
        decreases s@.len() - i,
    {
        let ghost before = out.model().map_values(|n: DecisionNode| n.model());
        let key = crate::text::concat(prefix, s[i].0.as_str());
        let node = remap_node(&s[i].1, prefix);
        let ghost nm = node.model();
        out.insert(key, node);
        proof {
            let m0 = node_entries_model(s@.subrange(0, i as int));
            assert(s@.subrange(0, i + 1).drop_last() =~= s@.subrange(0, i as int));
            assert(node_entries_model(s@.subrange(0, i + 1)) =~= m0.insert(s@[i as int].0@, s@[i as int].1.model()));
            lemma_prefixed_insert(m0, s@[i as int].0@, s@[i as int].1.model(), prefix@);
            assert(out.model().map_values(|n: DecisionNode| n.model()) =~= before.insert(prefix@ + s@[i as int].0@, nm));
            assert(out.model().map_values(|n: DecisionNode| n.model()) =~= base.union_prefer_right(
                prefixed(node_entries_model(s@.subrange(0, i + 1)), prefix@),
            ));
        }
        i = i + 1;
    }
    proof {
        assert(s@.subrange(0, s@.len() as int) =~= s@);
    }
}

/// The dispatch node of a merge: test whether `var` is present, then go to
/// the first microgram's start or the second's.
pub open spec fn dispatch_node(var: Seq<char>, a_start: Seq<char>, b_start: Seq<char>) -> NodeModel {
    NodeModel::Condition {
        variable: var,
        operator: Operator::IsNotNull,
        value: None,
        true_next: "a_"@ + a_start,
        false_next: "b_"@ + b_start,
    }
}

/// The first variable the microgram's conditions test, or empty.
pub open spec fn primary_variable(mg: Microgram) -> Seq<char> {
    let vars = crate::interface::condition_vars(crate::interface::node_seq(mg));
    if vars.len() > 0 {
        vars[0]
    } else {
        Seq::empty()
    }
}

proof fn lemma_run_path_grows(
    nodes: Map<Seq<char>, NodeModel>,
    node: Seq<char>,
    vars: Map<Seq<char>, ValueModel>,
    path: Seq<Seq<char>>,
    fuel: nat,
)
    ensures
        run_from(nodes, node, vars, path, fuel).path.len() >= path.len(),
    decreases fuel,
{
    if fuel > 0 && nodes.contains_key(node) {
        let path2 = path.push(node);
        match nodes[node] {
            NodeModel::Condition { variable, operator, value, true_next, false_next } => {
                lemma_run_path_grows(nodes, true_next, vars, path2, (fuel - 1) as nat);
                lemma_run_path_grows(nodes, false_next, vars, path2, (fuel - 1) as nat);
            },
            NodeModel::Action { action, target, value, next } => {
                let vars2 = match value {
                    Some(v) => vars.insert(target, v),
                    None => vars,
                };
                match next {
                    Some(n) => lemma_run_path_grows(nodes, n, vars2, path2, (fuel - 1) as nat),
                    None => {},
                }
            },
            NodeModel::Intrinsic { function, input_variable, output_variable, next } => {
                match crate::engine::apply_intrinsic(function, lookup_or_null(vars, input_variable)) {
                    Some(out) => lemma_run_path_grows(nodes, next, vars.insert(output_variable, out), path2, (fuel - 1) as nat),
                    None => {},
                }
            },
            _ => {},
        }
    }
}

/// A run that visits fewer nodes than `less` steps allow runs the same with
/// only `less` steps.
proof fn lemma_run_fuel(
    nodes: Map<Seq<char>, NodeModel>,
    node: Seq<char>,
    vars: Map<Seq<char>, ValueModel>,
    path: Seq<Seq<char>>,
    fuel: nat,
    less: nat,
)
    requires
        less <= fuel,
        run_from(nodes, node, vars, path, fuel).path.len() < path.len() + less,
    ensures
        run_from(nodes, node, vars, path, less) == run_from(nodes, node, vars, path, fuel),
    decreases less,
{
    lemma_run_path_grows(nodes, node, vars, path, fuel);
    if less > 0 && nodes.contains_key(node) {
        let path2 = path.push(node);
        match nodes[node] {
            NodeModel::Condition { variable, operator, value, true_next, false_next } => {
                let expected = match value {
                    Some(v) => v,
                    None => ValueModel::Null,
                };
                let next = if crate::engine::eval_op(operator, lookup_or_null(vars, variable), expected) {
                    true_next
                } else {
                    false_next
                };
                lemma_run_fuel(nodes, next, vars, path2, (fuel - 1) as nat, (less - 1) as nat);
            },
            NodeModel::Action { action, target, value, next } => {
                let vars2 = match value {
                    Some(v) => vars.insert(target, v),
                    None => vars,
                };
                match next {
                    Some(n) => lemma_run_fuel(nodes, n, vars2, path2, (fuel - 1) as nat, (less - 1) as nat),
                    None => {},
                }
            },
            NodeModel::Intrinsic { function, input_variable, output_variable, next } => {
                match crate::engine::apply_intrinsic(function, lookup_or_null(vars, input_variable)) {
                    Some(out) => lemma_run_fuel(
                        nodes,
                        next,
                        vars.insert(output_variable, out),
                        path2,
                        (fuel - 1) as nat,
                        (less - 1) as nat,
                    ),
                    None => {},
                }
            },
            _ => {},
        }
    }
}

/// Two results that are equal, except that a node reported missing by the
/// first is reported under its name with `p` in front by the second.
pub open spec fn same_but_prefix(first: ResultModel, second: ResultModel, p: Seq<char>) -> bool {
    ||| second == first
    ||| exists|x: Seq<char>|
        first == ResultModel::Error("Node not found: "@ + x) && second == ResultModel::Error(
            "Node not found: "@ + #[trigger] (p + x),
        )
}

/// `big` holds the nodes of `nodes` renamed with `p` in front.
pub open spec fn holds_prefixed(big: Map<Seq<char>, NodeModel>, nodes: Map<Seq<char>, NodeModel>, p: Seq<char>) -> bool {
    forall|n: Seq<char>|
        #[trigger] big.contains_key(p + n) == nodes.contains_key(n) && (nodes.contains_key(n) ==> big[p + n] == remapped(
            nodes[n],
            p,
        ))
}

/// Running renamed nodes from a renamed node runs like the original nodes:
/// the same variables, and the same result but for a missing node's name.
proof fn lemma_run_prefixed(
    big: Map<Seq<char>, NodeModel>,
    nodes: Map<Seq<char>, NodeModel>,
    p: Seq<char>,
    node: Seq<char>,
    vars: Map<Seq<char>, ValueModel>,
    pb: Seq<Seq<char>>,
    pn: Seq<Seq<char>>,
    fuel: nat,
)
    requires
        holds_prefixed(big, nodes, p),
    ensures
        run_from(big, p + node, vars, pb, fuel).vars == run_from(nodes, node, vars, pn, fuel).vars,
        same_but_prefix(run_from(nodes, node, vars, pn, fuel).result, run_from(big, p + node, vars, pb, fuel).result, p),
    decreases fuel,
{
    assert(big.contains_key(p + node) == nodes.contains_key(node));
    if fuel > 0 {
        if !nodes.contains_key(node) {
            let x = node;
            assert(run_from(nodes, node, vars, pn, fuel).result == ResultModel::Error("Node not found: "@ + x));
        } else {
            let pb2 = pb.push(p + node);
            let pn2 = pn.push(node);
            match nodes[node] {
                NodeModel::Condition { variable, operator, value, true_next, false_next } => {
                    lemma_run_prefixed(big, nodes, p, true_next, vars, pb2, pn2, (fuel - 1) as nat);
                    lemma_run_prefixed(big, nodes, p, false_next, vars, pb2, pn2, (fuel - 1) as nat);
                },
                NodeModel::Action { action, target, value, next } => {
                    let vars2 = match value {
                        Some(v) => vars.insert(target, v),
                        None => vars,
                    };
                    match next {
                        Some(n) => lemma_run_prefixed(big, nodes, p, n, vars2, pb2, pn2, (fuel - 1) as nat),
                        None => {},
                    }
                },
                NodeModel::Intrinsic { function, input_variable, output_variable, next } => {
                    match crate::engine::apply_intrinsic(function, lookup_or_null(vars, input_variable)) {
                        Some(out) => lemma_run_prefixed(
                            big,
                            nodes,
                            p,
                            next,
                            vars.insert(output_variable, out),
                            pb2,
                            pn2,
                            (fuel - 1) as nat,
                        ),
                        None => {},
                    }
                },
                _ => {},
            }
        }
    }
}

/// The merged nodes of `merge`.
pub open spec fn merged_nodes(a: Microgram, b: Microgram) -> Map<Seq<char>, NodeModel> {
    prefixed(a.tree.nodes_model(), "a_"@).union_prefer_right(prefixed(b.tree.nodes_model(), "b_"@)).insert(
        "dispatch"@,
        dispatch_node(primary_variable(a), a.tree.start@, b.tree.start@),
    )
}

proof fn lemma_merged_holds(a: Microgram, b: Microgram)
    ensures
        holds_prefixed(merged_nodes(a, b), a.tree.nodes_model(), "a_"@),
        holds_prefixed(merged_nodes(a, b), b.tree.nodes_model(), "b_"@),
{
    reveal_strlit("a_");
    reveal_strlit("b_");
    reveal_strlit("dispatch");
    let m = merged_nodes(a, b);
    let pa = prefixed(a.tree.nodes_model(), "a_"@);
    let pbm = prefixed(b.tree.nodes_model(), "b_"@);
    assert forall|n: Seq<char>| #[trigger] m.contains_key("a_"@ + n) == a.tree.nodes_model().contains_key(n) && (
    a.tree.nodes_model().contains_key(n) ==> m["a_"@ + n] == remapped(a.tree.nodes_model()[n], "a_"@)) by {
        let k = "a_"@ + n;
        assert(k[0] == 'a');
        assert(k.subrange(0, 2) =~= "a_"@);
        assert(k.subrange(2, k.len() as int) =~= n);
        assert(k != "dispatch"@);
        assert(!pbm.contains_key(k)) by {
            if pbm.contains_key(k) {
                assert(k.subrange(0, 2) == "b_"@);
                assert(k.subrange(0, 2)[0] == 'b');
            }
        }
    }
    assert forall|n: Seq<char>| #[trigger] m.contains_key("b_"@ + n) == b.tree.nodes_model().contains_key(n) && (
    b.tree.nodes_model().contains_key(n) ==> m["b_"@ + n] == remapped(b.tree.nodes_model()[n], "b_"@)) by {
        let k = "b_"@ + n;
        assert(k[0] == 'b');
        assert(k.subrange(0, 2) =~= "b_"@);
        assert(k.subrange(2, k.len() as int) =~= n);
        assert(k != "dispatch"@);
    }
}

/// A merged microgram runs like the first one when the dispatch variable
/// (the first variable the first one tests) is present and not null, and
/// like the second one otherwise: the same output, except that a node
/// reported missing is named with its `a_` or `b_` prefix. This holds for
/// runs of fewer than `max_steps() - 1` nodes, as the dispatch node takes
/// one step.
pub proof fn lemma_merge_dispatches(a: Microgram, b: Microgram, m: Microgram, input: Map<Seq<char>, ValueModel>)
    requires
        m.tree.start@ == "dispatch"@,
        m.tree.nodes_model() == merged_nodes(a, b),
    ensures
        lookup_or_null(input, primary_variable(a)) != ValueModel::Null && tree_run(a, input).path.len() < max_steps() - 1
            ==> same_but_prefix(tree_run(a, input).result, tree_run(m, input).result, "a_"@),
        lookup_or_null(input, primary_variable(a)) == ValueModel::Null && tree_run(b, input).path.len() < max_steps() - 1
            ==> same_but_prefix(tree_run(b, input).result, tree_run(m, input).result, "b_"@),
{
    reveal_strlit("dispatch");
    lemma_merged_holds(a, b);
    let nodes = merged_nodes(a, b);
    let empty = Seq::<Seq<char>>::empty();
    let p1 = empty.push("dispatch"@);
    let fuel = (max_steps() - 1) as nat;
    assert(nodes.contains_key("dispatch"@));
    if lookup_or_null(input, primary_variable(a)) != ValueModel::Null && tree_run(a, input).path.len() < max_steps() - 1 {
        let an = a.tree.nodes_model();
        lemma_run_fuel(an, a.tree.start@, input, empty, max_steps(), fuel);
        lemma_run_prefixed(nodes, an, "a_"@, a.tree.start@, input, p1, empty, fuel);
    }
    if lookup_or_null(input, primary_variable(a)) == ValueModel::Null && tree_run(b, input).path.len() < max_steps() - 1 {
        let bn = b.tree.nodes_model();
        lemma_run_fuel(bn, b.tree.start@, input, empty, max_steps(), fuel);
        lemma_run_prefixed(nodes, bn, "b_"@, b.tree.start@, input, p1, empty, fuel);
    }
}

/// Merge two micrograms into one that dispatches on the first variable of
/// the first: present means the first one's tree (nodes renamed `a_...`),
/// absent means the second one's (renamed `b_...`). The tests are those of
/// both, first then second; version 0.1.0, no interface, no signature.
pub fn merge(a: &Microgram, b: &Microgram, name: &str, description: &str) -> (r: Microgram)
    ensures
        r.name@ == name@,
        r.description@ == description@,
        r.version@ == "0.1.0"@,
        r.tree.start@ == "dispatch"@,
        r.tree.nodes_model() == merged_nodes(*a, *b),
        r.tests@.len() == a.tests@.len() + b.tests@.len(),
        forall|i: int|
            0 <= i < r.tests@.len() ==> {
                let t = #[trigger] r.tests@[i];
                let src = if i < a.tests@.len() {
                    a.tests@[i]
                } else {
                    b.tests@[i - a.tests@.len()]
                };
                t.input.model() == src.input.model() && t.expect.model() == src.expect.model()
            },
        r.interface is None,
        r.primitive_signature is None,
{
    let a_inputs = crate::interface::input_variables(a);
    let mut nodes: StrMap<DecisionNode> = StrMap::new();
    proof {
        assert(nodes.model().map_values(|n: DecisionNode| n.model()) =~= Map::<Seq<char>, NodeModel>::empty());
    }
    add_prefixed(&mut nodes, &a.tree.nodes, "a_");
    add_prefixed(&mut nodes, &b.tree.nodes, "b_");
    let a_var = if a_inputs.len() > 0 {
        copy_string(&a_inputs[0])
    } else {
        String::new()
    };
    let ghost before = nodes.model().map_values(|n: DecisionNode| n.model());
    let dispatch = DecisionNode::Condition {
        variable: a_var,
        operator: Operator::IsNotNull,
        value: None,
        true_next: crate::text::concat("a_", a.tree.start.as_str()),
        false_next: crate::text::concat("b_", b.tree.start.as_str()),
    };
    proof {
        assert(dispatch.model() == dispatch_node(primary_variable(*a), a.tree.start@, b.tree.start@));
    }
    let ghost dm = dispatch.model();
    nodes.insert(String::from_str("dispatch"), dispatch);
    proof {
        assert(nodes.model().map_values(|n: DecisionNode| n.model()) =~= before.insert("dispatch"@, dm));
        assert(a.tree.nodes_model() =~= node_entries_model(a.tree.nodes.entries@));
        assert(b.tree.nodes_model() =~= node_entries_model(b.tree.nodes.entries@));
        assert(Map::<Seq<char>, NodeModel>::empty().union_prefer_right(prefixed(a.tree.nodes_model(), "a_"@))
            =~= prefixed(a.tree.nodes_model(), "a_"@));
    }
    let mut tests: Vec<MicrogramTest> = Vec::new();
    let mut i: usize = 0;
    while i < a.tests.len()
        invariant
            i <= a.tests@.len(),
            tests@.len() == i,
            forall|j: int|
                0 <= j < i ==> (#[trigger] tests@[j]).input.model() == a.tests@[j].input.model()
                    && tests@[j].expect.model() == a.tests@[j].expect.model(),
        decreases a.tests@.len() - i,
    {
        tests.push(copy_test(&a.tests[i]));
        i = i + 1;
    }
    let mut j: usize = 0;
    while j < b.tests.len()
        invariant
            j <= b.tests@.len(),
            tests@.len() == a.tests@.len() + j,
            forall|q: int|
                0 <= q < a.tests@.len() ==> (#[trigger] tests@[q]).input.model() == a.tests@[q].input.model()
                    && tests@[q].expect.model() == a.tests@[q].expect.model(),
            forall|q: int|
                0 <= q < j ==> (#[trigger] tests@[a.tests@.len() + q]).input.model() == b.tests@[q].input.model()
                    && tests@[a.tests@.len() + q].expect.model() == b.tests@[q].expect.model(),
        decreases b.tests@.len() - j,
    {
        tests.push(copy_test(&b.tests[j]));
        j = j + 1;
    }
    proof {
        assert forall|q: int| 0 <= q < tests@.len() implies {
            let t = #[trigger] tests@[q];
            let src = if q < a.tests@.len() {
                a.tests@[q]
            } else {
                b.tests@[q - a.tests@.len()]
            };
            t.input.model() == src.input.model() && t.expect.model() == src.expect.model()
        } by {
            if q >= a.tests@.len() {
                let w = q - a.tests@.len();
                assert(tests@[a.tests@.len() + w] == tests@[q]);
            }
        }
    }
    Microgram {
        name: String::from_str(name),
        description: String::from_str(description),
        version: String::from_str("0.1.0"),
        tree: DecisionTree { start: String::from_str("dispatch"), nodes },
        tests,
        interface: None,
        primitive_signature: None,
    }
}

/// Every test regenerated by [`clone_mutated`] holds on the mutated
/// microgram: its output on the test's input has every expected field.
pub proof fn lemma_mutated_tests_hold(mg: Microgram, r: Microgram)
    requires
        r.tests@.len() == mg.tests@.len(),
        forall|i: int|
            0 <= i < mg.tests@.len() ==> {
                let t = #[trigger] r.tests@[i];
                &&& t.input.model() == mg.tests@[i].input.model()
                &&& t.expect.model() == run_output(r, t.input.model())
            },
    ensures
        forall|i: int|
            0 <= i < r.tests@.len() ==> expectations_hold(
                (#[trigger] r.tests@[i]).expect.model(),
                run_output(r, r.tests@[i].input.model()),
            ),
{
}

} // verus!
