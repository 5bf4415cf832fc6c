//! What a microgram's tree reads and writes, compared with its declared interface.
use vstd::prelude::*;
use crate::value::{Value, ValueModel, FieldMap, str_eq};
use crate::engine::{DecisionNode, names_view};
use crate::strmap::{StrMap, live_positions, live_positions_of, live_keys, pairs_model};
use crate::microgram::{Microgram, MicrogramInterface, InterfaceField, type_name_of, value_type_name, join5};
use crate::text::{seq_starts_with, starts_with};

verus! {

/// The nodes of a microgram that give their names a meaning (an entry that
/// a later entry of the same name replaces is left out), in table order.
pub open spec fn node_seq(mg: Microgram) -> Seq<DecisionNode> {
    let s = mg.tree.nodes.entries@;
    live_positions(s, s.len() as int).map_values(|p: int| s[p].1)
}

/// `acc` with `x` appended unless it is already there.
pub open spec fn add_unique(acc: Seq<Seq<char>>, x: Seq<char>) -> Seq<Seq<char>> {
    if acc.contains(x) {
        acc
    } else {
        acc.push(x)
    }
}

/// `acc` with each of `xs` added unless already there, in order.
pub open spec fn add_all_unique(acc: Seq<Seq<char>>, xs: Seq<Seq<char>>) -> Seq<Seq<char>>
    decreases xs.len(),
{
    if xs.len() == 0 {
        acc
    } else {
        add_unique(add_all_unique(acc, xs.drop_last()), xs.last())
    }
}

/// The variables that the condition nodes among `nodes` test, each once, in order.
pub open spec fn condition_vars(nodes: Seq<DecisionNode>) -> Seq<Seq<char>>
    decreases nodes.len(),
{
    if nodes.len() == 0 {
        Seq::empty()
    } else {
        let prev = condition_vars(nodes.drop_last());
        match nodes.last() {
            DecisionNode::Condition { variable, .. } => add_unique(prev, variable@),
            _ => prev,
        }
    }
}

/// No name occurs twice.
pub open spec fn distinct(s: Seq<Seq<char>>) -> bool {
    forall|i: int, j: int| 0 <= i < j < s.len() ==> s[i] != s[j]
}

pub proof fn lemma_add_unique_distinct(acc: Seq<Seq<char>>, x: Seq<char>)
    requires
        distinct(acc),
    ensures
        distinct(add_unique(acc, x)),
{
    if !acc.contains(x) {
        let r = acc.push(x);
        assert forall|i: int, j: int| 0 <= i < j < r.len() implies r[i] != r[j] by {
            if j == acc.len() {
                assert(r[i] == acc[i]);
            }
        }
    }
}

/// The variables of the condition nodes are listed once each.
pub proof fn lemma_condition_vars_distinct(nodes: Seq<DecisionNode>)
    ensures
        distinct(condition_vars(nodes)),
    decreases nodes.len(),
{
    if nodes.len() > 0 {
        lemma_condition_vars_distinct(nodes.drop_last());
        match nodes.last() {
            DecisionNode::Condition { variable, .. } => {
                lemma_add_unique_distinct(condition_vars(nodes.drop_last()), variable@);
            },
            _ => {},
        }
    }
}

/// Keys of an object value, each once, in entry order.
pub open spec fn object_keys(m: FieldMap) -> Seq<Seq<char>> {
    live_keys(m.entries@, m.entries@.len() as int)
}

/// The fields that the return nodes among `nodes` produce, each once, in order.
pub open spec fn return_fields(nodes: Seq<DecisionNode>) -> Seq<Seq<char>>
    decreases nodes.len(),
{
    if nodes.len() == 0 {
        Seq::empty()
    } else {
        let prev = return_fields(nodes.drop_last());
        match nodes.last() {
            DecisionNode::Return { value: Value::Object(m) } => add_all_unique(prev, object_keys(m)),
            _ => prev,
        }
    }
}

/// True when `x` is one of the strings of `v`.
pub fn contains_name(v: &[String], x: &str) -> (r: bool)
    ensures
        r == names_view(v@).contains(x@),
{
    let mut i: usize = 0;
    while i < v.len()
        invariant
            i <= v@.len(),
            forall|j: int| 0 <= j < i ==> v@[j]@ != x@,
        decreases v@.len() - i,
    {
        if str_eq(v[i].as_str(), x) {
            proof {
                assert(names_view(v@)[i as int] == x@);
            }
            return true;
        }
        i = i + 1;
    }
    proof {
        if names_view(v@).contains(x@) {
            let j = choose|j: int| 0 <= j < names_view(v@).len() && names_view(v@)[j] == x@;
            assert(v@[j]@ == x@);
        }
    }
    false
}

fn push_unique(acc: &mut Vec<String>, x: &String)
    ensures
        names_view(final(acc)@) == add_unique(names_view(old(acc)@), x@),
{
    if !contains_name(acc, x.as_str()) {
        let ghost before = acc@;
        acc.push(x.clone());
        proof {
            assert(names_view(acc@) =~= names_view(before).push(x@));
        }
    }
}

fn push_all_unique(acc: &mut Vec<String>, xs: &Vec<String>)
    ensures
        names_view(final(acc)@) == add_all_unique(names_view(old(acc)@), names_view(xs@)),
{
    let ghost start = names_view(acc@);
    let mut i: usize = 0;
    while i < xs.len()
        invariant
            i <= xs@.len(),
            names_view(acc@) == add_all_unique(start, names_view(xs@.subrange(0, i as int))),
        decreases xs@.len() - i,
    {
        push_unique(acc, &xs[i]);
        proof {
            assert(names_view(xs@.subrange(0, i + 1)).drop_last() =~= names_view(xs@.subrange(0, i as int)));
        }
        i = i + 1;
    }
    proof {
        assert(xs@.subrange(0, xs@.len() as int) =~= xs@);
    }
}

/// The keys of an object value, each once, in entry order.
pub fn field_keys(m: &FieldMap) -> (r: Vec<String>)
    ensures
        names_view(r@) == object_keys(*m),
{
    let ps = live_positions_of(&m.entries);
    let ghost lp = live_positions(m.entries@, m.entries@.len() as int);
    let mut r: Vec<String> = Vec::new();
    let mut i: usize = 0;
    while i < ps.len()
        invariant
            i <= ps@.len(),
            ps@.len() == lp.len(),
            forall|j: int| 0 <= j < ps@.len() ==> #[trigger] ps@[j] as int == lp[j],
            forall|j: int| 0 <= j < ps@.len() ==> #[trigger] ps@[j] < m.entries@.len(),
            r@.len() == i,
            names_view(r@) == lp.subrange(0, i as int).map_values(|p: int| m.entries@[p].0@),
        decreases ps@.len() - i,
    {
        let ghost before = r@;
        r.push(m.entries[ps[i]].0.clone());
        proof {
            let target = lp.subrange(0, i + 1).map_values(|p: int| m.entries@[p].0@);
            assert forall|q: int| 0 <= q < i + 1 implies names_view(r@)[q] == target[q] by {
                if q < i {
                    assert(r@[q] == before[q]);
                    assert(names_view(before)[q] == lp.subrange(0, i as int).map_values(|p: int| m.entries@[p].0@)[q]);
                } else {
                    assert(ps@[i as int] as int == lp[i as int]);
                }
            }
            assert(names_view(r@) =~= target);
        }
        i = i + 1;
    }
    proof {
        assert(lp.subrange(0, lp.len() as int) =~= lp);
        lemma_live_keys_positions(m.entries@, m.entries@.len() as int);
    }
    r
}

/// Live keys are the keys at the live positions.
pub proof fn lemma_live_keys_positions<V>(s: Seq<(String, V)>, n: int)
    requires
        n <= s.len(),
    ensures
        live_keys(s, n) == live_positions(s, n).map_values(|p: int| s[p].0@),
    decreases n,
{
    if n > 0 {
        lemma_live_keys_positions(s, n - 1);
        assert(live_keys(s, n) =~= live_positions(s, n).map_values(|p: int| s[p].0@));
    }
}

/// The nodes that give their names a meaning, in table order.
pub fn live_nodes(mg: &Microgram) -> (r: Vec<&DecisionNode>)
    ensures
        r@.len() == node_seq(*mg).len(),
        forall|i: int| 0 <= i < r@.len() ==> *(#[trigger] r@[i]) == node_seq(*mg)[i],
{
    let entries = &mg.tree.nodes.entries;
    let ps = live_positions_of(entries);
    let ghost lp = live_positions(entries@, entries@.len() as int);
    let mut r: Vec<&DecisionNode> = Vec::new();
    let mut i: usize = 0;
    while i < ps.len()
        invariant
            entries == &mg.tree.nodes.entries,
            i <= ps@.len(),
            ps@.len() == lp.len(),
            forall|j: int| 0 <= j < ps@.len() ==> #[trigger] ps@[j] as int == lp[j],
            forall|j: int| 0 <= j < ps@.len() ==> #[trigger] ps@[j] < entries@.len(),
            r@.len() == i,
            forall|j: int| 0 <= j < i ==> *(#[trigger] r@[j]) == entries@[lp[j]].1,
        decreases ps@.len() - i,
    {
        r.push(&entries[ps[i]].1);
        i = i + 1;
    }
    r
}

/// The variables that the tree's condition nodes test, each once, in table order.
pub fn input_variables(mg: &Microgram) -> (r: Vec<String>)
    ensures
        names_view(r@) == condition_vars(node_seq(*mg)),
{
    let nodes = live_nodes(mg);
    let ghost ns = node_seq(*mg);
    let mut r: Vec<String> = Vec::new();
    let mut i: usize = 0;
    while i < nodes.len()
        invariant
            nodes@.len() == ns.len(),
            forall|j: int| 0 <= j < nodes@.len() ==> *(#[trigger] nodes@[j]) == ns[j],
            i <= nodes@.len(),
            names_view(r@) == condition_vars(ns.subrange(0, i as int)),
        decreases nodes@.len() - i,
    {
        proof {
            assert(ns.subrange(0, i + 1).drop_last() =~= ns.subrange(0, i as int));
        }
        match nodes[i] {
            DecisionNode::Condition { variable, .. } => {
                push_unique(&mut r, variable);
            },
            _ => {},
        }
        i = i + 1;
    }
    proof {
        assert(ns.subrange(0, ns.len() as int) =~= ns);
    }
    r
}

/// The fields that the tree's return nodes produce, each once, in table order.
pub fn output_fields(mg: &Microgram) -> (r: Vec<String>)
    ensures
        names_view(r@) == return_fields(node_seq(*mg)),
{
    let nodes = live_nodes(mg);
    let ghost ns = node_seq(*mg);
    let mut r: Vec<String> = Vec::new();
    let mut i: usize = 0;
    while i < nodes.len()
        invariant
            nodes@.len() == ns.len(),
            forall|j: int| 0 <= j < nodes@.len() ==> *(#[trigger] nodes@[j]) == ns[j],
            i <= nodes@.len(),
            names_view(r@) == return_fields(ns.subrange(0, i as int)),
        decreases nodes@.len() - i,
    {
        proof {
            assert(ns.subrange(0, i + 1).drop_last() =~= ns.subrange(0, i as int));
        }
        match nodes[i] {
            DecisionNode::Return { value: Value::Object(m) } => {
                let keys = field_keys(m);
                push_all_unique(&mut r, &keys);
            },
            _ => {},
        }
        i = i + 1;
    }
    proof {
        assert(ns.subrange(0, ns.len() as int) =~= ns);
    }
    r
}

// ───────────────────────────── declared versus actual ─────────────────────────────

/// Messages for required inputs that no condition tests, over the first `n`
/// declared inputs (shadowed entries left out).
pub open spec fn unused_input_messages(
    s: Seq<(String, InterfaceField)>,
    used: Seq<Seq<char>>,
    n: int,
) -> Seq<Seq<char>>
    decreases n,
{
    if n <= 0 {
        Seq::empty()
    } else {
        let prev = unused_input_messages(s, used, n - 1);
        let e = s[n - 1];
        if crate::strmap::pair_last_index(s, e.0@) == n - 1 && e.1.required && !used.contains(e.0@) {
            prev.push("input '"@ + e.0@ + "' declared as required but not referenced in any condition node"@)
        } else {
            prev
        }
    }
}

/// Messages for declared outputs that no return node produces.
pub open spec fn missing_output_messages(declared: Seq<Seq<char>>, produced: Seq<Seq<char>>) -> Seq<Seq<char>>
    decreases declared.len(),
{
    if declared.len() == 0 {
        Seq::empty()
    } else {
        let prev = missing_output_messages(declared.drop_last(), produced);
        let f = declared.last();
        if produced.contains(f) {
            prev
        } else {
            prev.push("output '"@ + f + "' declared but not found in any return node"@)
        }
    }
}

/// Messages for produced fields (not starting with `_`) that the interface
/// does not declare.
pub open spec fn undeclared_output_messages(produced: Seq<Seq<char>>, declared: Map<Seq<char>, InterfaceField>) -> Seq<
    Seq<char>,
>
    decreases produced.len(),
{
    if produced.len() == 0 {
        Seq::empty()
    } else {
        let prev = undeclared_output_messages(produced.drop_last(), declared);
        let f = produced.last();
        if !seq_starts_with(f, "_"@) && !declared.contains_key(f) {
            prev.push("return node produces '"@ + f + "' which is not declared in interface outputs"@)
        } else {
            prev
        }
    }
}

/// Every mismatch between a declared interface and the tree.
pub open spec fn interface_violations(mg: Microgram) -> Seq<Seq<char>> {
    match mg.interface {
        None => Seq::empty(),
        Some(iface) => {
            let used = condition_vars(node_seq(mg));
            let produced = return_fields(node_seq(mg));
            let ins = iface.inputs.entries@;
            let outs = iface.outputs.entries@;
            unused_input_messages(ins, used, ins.len() as int) + missing_output_messages(
                live_keys(outs, outs.len() as int),
                produced,
            ) + undeclared_output_messages(produced, iface.outputs.model())
        },
    }
}

impl Microgram {
    /// Compare the declared interface with the tree: required inputs that no
    /// condition tests, declared outputs that no return node produces, and
    /// produced fields (other than those starting with `_`) that are not
    /// declared. Empty when there is no interface.
    pub fn validate_interface(&self) -> (r: Vec<String>)
        ensures
            names_view(r@) == interface_violations(*self),
    {
        let iface = match &self.interface {
            None => {
                let r: Vec<String> = Vec::new();
                proof {
                    assert(names_view(r@) =~= Seq::<Seq<char>>::empty());
                }
                return r;
            },
            Some(i) => i,
        };
        let used = input_variables(self);
        let produced = output_fields(self);
        let mut violations: Vec<String> = Vec::new();
        let ins = &iface.inputs.entries;
        let mut i: usize = 0;
        while i < ins.len()
            invariant
                ins == &iface.inputs.entries,
                i <= ins@.len(),
                names_view(violations@) == unused_input_messages(ins@, names_view(used@), i as int),
            decreases ins@.len() - i,
        {
            let live = crate::strmap::last_position(ins, ins[i].0.as_str()) == Some(i);
            if live && ins[i].1.required && !contains_name(&used, ins[i].0.as_str()) {
                let ghost before = violations@;
                violations.push(
                    join5(
                        "input '",
                        ins[i].0.as_str(),
                        "' declared as required but not referenced in any condition node",
                        "",
                        "",
                    ),
                );
                proof {
                    reveal_strlit("");
                    assert(names_view(violations@) =~= names_view(before).push(violations@.last()@));
                }
            }
            i = i + 1;
        }
        let ghost part1 = names_view(violations@);
        let declared = iface.outputs.keys();
        let mut j: usize = 0;
        while j < declared.len()
            invariant
                j <= declared@.len(),
                names_view(violations@) == part1 + missing_output_messages(
                    names_view(declared@).subrange(0, j as int),
                    names_view(produced@),
                ),
            decreases declared@.len() - j,
        {
            proof {
                assert(names_view(declared@).subrange(0, j + 1).drop_last() =~= names_view(declared@).subrange(
                    0,
                    j as int,
                ));
            }
            if !contains_name(&produced, declared[j].as_str()) {
                let ghost before = violations@;
                violations.push(
                    join5("output '", declared[j].as_str(), "' declared but not found in any return node", "", ""),
                );
                proof {
                    reveal_strlit("");
                    assert(names_view(violations@) =~= names_view(before).push(violations@.last()@));
                }
            }
            j = j + 1;
        }
        proof {
            assert(names_view(declared@).subrange(0, declared@.len() as int) =~= names_view(declared@));
        }
        let ghost part2 = names_view(violations@);
        let mut k: usize = 0;
        while k < produced.len()
            invariant
                k <= produced@.len(),
                names_view(violations@) == part2 + undeclared_output_messages(
                    names_view(produced@).subrange(0, k as int),
                    iface.outputs.model(),
                ),
            decreases produced@.len() - k,
        {
            proof {
                assert(names_view(produced@).subrange(0, k + 1).drop_last() =~= names_view(produced@).subrange(
                    0,
                    k as int,
                ));
            }
            let f = produced[k].as_str();
            if !starts_with(f, "_") && !iface.outputs.contains_key(f) {
                let ghost before = violations@;
                violations.push(
                    join5("return node produces '", f, "' which is not declared in interface outputs", "", ""),
                );
                proof {
                    reveal_strlit("");
                    assert(names_view(violations@) =~= names_view(before).push(violations@.last()@));
                }
            }
            k = k + 1;
        }
        proof {
            assert(names_view(produced@).subrange(0, produced@.len() as int) =~= names_view(produced@));
            assert(names_view(violations@) =~= interface_violations(*self));
        }
        violations
    }

    /// The declared input types, or, without an interface, the types
    /// inferred from the self-tests' inputs.
    pub fn typed_inputs(&self) -> (r: StrMap<String>)
        ensures
            type_map(r) == input_types(*self),
            pv(r.entries@) == input_pairs(*self),
    {
        match &self.interface {
            Some(iface) => declared_type_map(&iface.inputs),
            None => {
                let maps = test_inputs(self);
                proof {
                    assert(maps@.map_values(|m: &FieldMap| *m) =~= self.tests@.map_values(
                        |t: crate::microgram::MicrogramTest| t.input,
                    ));
                }
                infer_types(&maps)
            },
        }
    }

    /// The declared output types, or, without an interface, the types
    /// inferred from the self-tests' expected outputs.
    pub fn typed_outputs(&self) -> (r: StrMap<String>)
        ensures
            type_map(r) == output_types(*self),
            pv(r.entries@) == output_pairs(*self),
    {
        match &self.interface {
            Some(iface) => declared_type_map(&iface.outputs),
            None => {
                let maps = test_expects(self);
                proof {
                    assert(maps@.map_values(|m: &FieldMap| *m) =~= self.tests@.map_values(
                        |t: crate::microgram::MicrogramTest| t.expect,
                    ));
                }
                infer_types(&maps)
            },
        }
    }
}

/// The declared input types, or those inferred from the tests' inputs.
pub open spec fn input_types(mg: Microgram) -> Map<Seq<char>, Seq<char>> {
    match mg.interface {
        Some(iface) => declared_types(iface.inputs),
        None => inferred_types(mg.tests@.map_values(|t: crate::microgram::MicrogramTest| t.input), mg.tests@.len() as int),
    }
}

/// The declared output types, or those inferred from the tests' expected outputs.
pub open spec fn output_types(mg: Microgram) -> Map<Seq<char>, Seq<char>> {
    match mg.interface {
        Some(iface) => declared_types(iface.outputs),
        None => inferred_types(mg.tests@.map_values(|t: crate::microgram::MicrogramTest| t.expect), mg.tests@.len() as int),
    }
}

/// Views of a sequence of string pairs.
pub open spec fn pv(s: Seq<(String, String)>) -> Seq<(Seq<char>, Seq<char>)> {
    s.map_values(|p: (String, String)| (p.0@, p.1@))
}

/// Index of the last pair with key `k`, or -1.
pub open spec fn pv_index(s: Seq<(Seq<char>, Seq<char>)>, k: Seq<char>) -> int
    decreases s.len(),
{
    if s.len() == 0 {
        -1
    } else if s.last().0 == k {
        s.len() - 1
    } else {
        pv_index(s.drop_last(), k)
    }
}

/// The pairs after storing `v` under `k`: the last pair with key `k` is
/// replaced, or the pair is appended.
pub open spec fn pv_insert(s: Seq<(Seq<char>, Seq<char>)>, k: Seq<char>, v: Seq<char>) -> Seq<(Seq<char>, Seq<char>)> {
    let j = pv_index(s, k);
    if j >= 0 {
        s.update(j, (k, v))
    } else {
        s.push((k, v))
    }
}

pub proof fn lemma_pv_index(s: Seq<(String, String)>, k: Seq<char>)
    ensures
        crate::strmap::pair_last_index(s, k) == pv_index(pv(s), k),
    decreases s.len(),
{
    if s.len() > 0 {
        assert(pv(s).drop_last() =~= pv(s.drop_last()));
        lemma_pv_index(s.drop_last(), k);
    }
}

pub proof fn lemma_pv_insert(s: Seq<(String, String)>, e: (String, String))
    ensures
        pv(crate::strmap::pairs_after_insert(s, e)) == pv_insert(pv(s), e.0@, e.1@),
{
    lemma_pv_index(s, e.0@);
    crate::strmap::lemma_pair_last_index(s, e.0@);
    let j = crate::strmap::pair_last_index(s, e.0@);
    if j >= 0 {
        assert(pv(s.update(j, e)) =~= pv(s).update(j, (e.0@, e.1@)));
    } else {
        assert(pv(s.push(e)) =~= pv(s).push((e.0@, e.1@)));
    }
}

/// The type pairs built from the first `n` declared fields.
pub open spec fn declared_pairs(s: Seq<(String, InterfaceField)>, n: int) -> Seq<(Seq<char>, Seq<char>)>
    decreases n,
{
    if n <= 0 {
        Seq::empty()
    } else {
        pv_insert(declared_pairs(s, n - 1), s[n - 1].0@, s[n - 1].1.field_type@)
    }
}

/// The type pairs after inferring from the first `n` live entries of `m`.
pub open spec fn infer_pairs_from_map(acc: Seq<(Seq<char>, Seq<char>)>, m: FieldMap, n: int) -> Seq<
    (Seq<char>, Seq<char>),
>
    decreases n,
{
    if n <= 0 {
        acc
    } else {
        let prev = infer_pairs_from_map(acc, m, n - 1);
        let ps = live_positions(m.entries@, m.entries@.len() as int);
        let e = m.entries@[ps[n - 1]];
        if pv_index(prev, e.0@) >= 0 {
            prev
        } else {
            prev.push((e.0@, type_name_of(e.1.model())))
        }
    }
}

/// The type pairs inferred from the first `n` maps.
pub open spec fn inferred_pairs(maps: Seq<FieldMap>, n: int) -> Seq<(Seq<char>, Seq<char>)>
    decreases n,
{
    if n <= 0 {
        Seq::empty()
    } else {
        let m = maps[n - 1];
        infer_pairs_from_map(
            inferred_pairs(maps, n - 1),
            m,
            live_positions(m.entries@, m.entries@.len() as int).len() as int,
        )
    }
}

/// The entries of the typed inputs, as views.
pub open spec fn input_pairs(mg: Microgram) -> Seq<(Seq<char>, Seq<char>)> {
    match mg.interface {
        Some(iface) => declared_pairs(iface.inputs.entries@, iface.inputs.entries@.len() as int),
        None => inferred_pairs(mg.tests@.map_values(|t: crate::microgram::MicrogramTest| t.input), mg.tests@.len() as int),
    }
}

/// The entries of the typed outputs, as views.
pub open spec fn output_pairs(mg: Microgram) -> Seq<(Seq<char>, Seq<char>)> {
    match mg.interface {
        Some(iface) => declared_pairs(iface.outputs.entries@, iface.outputs.entries@.len() as int),
        None => inferred_pairs(mg.tests@.map_values(|t: crate::microgram::MicrogramTest| t.expect), mg.tests@.len() as int),
    }
}

/// Meaning of a map of type names.
pub open spec fn type_map(m: StrMap<String>) -> Map<Seq<char>, Seq<char>> {
    m.model().map_values(|s: String| s@)
}

/// Declared type of each declared field.
pub open spec fn declared_types(fields: StrMap<InterfaceField>) -> Map<Seq<char>, Seq<char>> {
    field_types(fields.entries@)
}

/// Declared type of each field of a sequence of entries (later entries win).
pub open spec fn field_types(s: Seq<(String, InterfaceField)>) -> Map<Seq<char>, Seq<char>> {
    pairs_model(s).map_values(|f: InterfaceField| f.field_type@)
}

fn declared_type_map(fields: &StrMap<InterfaceField>) -> (r: StrMap<String>)
    ensures
        type_map(r) == declared_types(*fields),
        pv(r.entries@) == declared_pairs(fields.entries@, fields.entries@.len() as int),
{
    let mut r: StrMap<String> = StrMap::new();
    let mut i: usize = 0;
    proof {
        assert(pv(r.entries@) =~= declared_pairs(fields.entries@, 0));
    }
    while i < fields.entries.len()
        invariant
            i <= fields.entries@.len(),
            type_map(r) == field_types(fields.entries@.subrange(0, i as int)),
            pv(r.entries@) == declared_pairs(fields.entries@, i as int),
        decreases fields.entries@.len() - i,
    {
        let ghost before = type_map(r);
        let ghost eb = r.entries@;
        let k = fields.entries[i].0.clone();
        let v = fields.entries[i].1.field_type.clone();
        proof {
            lemma_pv_insert(eb, (k, v));
        }
        r.insert(k, v);
        proof {
            assert(fields.entries@.subrange(0, i + 1).drop_last() =~= fields.entries@.subrange(0, i as int));
            assert(pairs_model(fields.entries@.subrange(0, i + 1)) == pairs_model(fields.entries@.subrange(0, i as int)).insert(
                fields.entries@[i as int].0@,
                fields.entries@[i as int].1,
            ));
            let k = fields.entries@[i as int].0@;
            let fld = fields.entries@[i as int].1;
            assert(type_map(r) =~= before.insert(k, fld.field_type@));
            assert(field_types(fields.entries@.subrange(0, i + 1)) =~= field_types(
                fields.entries@.subrange(0, i as int),
            ).insert(k, fld.field_type@));
        }
        i = i + 1;
    }
    proof {
        assert(fields.entries@.subrange(0, fields.entries@.len() as int) =~= fields.entries@);
    }
    r
}

/// Types inferred from the live entries of `m`, added to `acc` where the
/// key has no type yet, over the first `n` live positions.
pub open spec fn infer_from_map(acc: Map<Seq<char>, Seq<char>>, m: FieldMap, n: int) -> Map<Seq<char>, Seq<char>>
    decreases n,
{
    if n <= 0 {
        acc
    } else {
        let prev = infer_from_map(acc, m, n - 1);
        let ps = live_positions(m.entries@, m.entries@.len() as int);
        let e = m.entries@[ps[n - 1]];
        if prev.contains_key(e.0@) {
            prev
        } else {
            prev.insert(e.0@, type_name_of(e.1.model()))
        }
    }
}

/// Types inferred from the first `n` maps: the first value seen for a key
/// gives its type.
pub open spec fn inferred_types(maps: Seq<FieldMap>, n: int) -> Map<Seq<char>, Seq<char>>
    decreases n,
{
    if n <= 0 {
        Map::empty()
    } else {
        let m = maps[n - 1];
        infer_from_map(
            inferred_types(maps, n - 1),
            m,
            live_positions(m.entries@, m.entries@.len() as int).len() as int,
        )
    }
}

fn test_inputs(mg: &Microgram) -> (r: Vec<&FieldMap>)
    ensures
        r@.len() == mg.tests@.len(),
        forall|i: int| 0 <= i < r@.len() ==> *(#[trigger] r@[i]) == mg.tests@[i].input,
{
    let mut r: Vec<&FieldMap> = Vec::new();
    let mut i: usize = 0;
    while i < mg.tests.len()
        invariant
            i <= mg.tests@.len(),
            r@.len() == i,
            forall|j: int| 0 <= j < i ==> *(#[trigger] r@[j]) == mg.tests@[j].input,
        decreases mg.tests@.len() - i,
    {
        r.push(&mg.tests[i].input);
        i = i + 1;
    }
    r
}

fn test_expects(mg: &Microgram) -> (r: Vec<&FieldMap>)
    ensures
        r@.len() == mg.tests@.len(),
        forall|i: int| 0 <= i < r@.len() ==> *(#[trigger] r@[i]) == mg.tests@[i].expect,
{
    let mut r: Vec<&FieldMap> = Vec::new();
    let mut i: usize = 0;
    while i < mg.tests.len()
        invariant
            i <= mg.tests@.len(),
            r@.len() == i,
            forall|j: int| 0 <= j < i ==> *(#[trigger] r@[j]) == mg.tests@[j].expect,
        decreases mg.tests@.len() - i,
    {
        r.push(&mg.tests[i].expect);
        i = i + 1;
    }
    r
}

/// Infer field types from a list of maps: the first value seen for a key
/// gives its type name.
fn infer_types(maps: &Vec<&FieldMap>) -> (r: StrMap<String>)
    ensures
        type_map(r) == inferred_types(maps@.map_values(|m: &FieldMap| *m), maps@.len() as int),
        pv(r.entries@) == inferred_pairs(maps@.map_values(|m: &FieldMap| *m), maps@.len() as int),
{
    let ghost ms = maps@.map_values(|m: &FieldMap| *m);
    let mut r: StrMap<String> = StrMap::new();
    proof {
        assert(type_map(r) =~= Map::<Seq<char>, Seq<char>>::empty());
        assert(pv(r.entries@) =~= Seq::<(Seq<char>, Seq<char>)>::empty());
    }
    let mut i: usize = 0;
    while i < maps.len()
        invariant
            ms == maps@.map_values(|m: &FieldMap| *m),
            i <= maps@.len(),
            type_map(r) == inferred_types(ms, i as int),
            pv(r.entries@) == inferred_pairs(ms, i as int),
        decreases maps@.len() - i,
    {
        let m: &FieldMap = maps[i];
        let ps = live_positions_of(&m.entries);
        let ghost lp = live_positions(m.entries@, m.entries@.len() as int);
        let ghost start = type_map(r);
        let ghost pstart = pv(r.entries@);
        let mut j: usize = 0;
        while j < ps.len()
            invariant
                lp == live_positions(m.entries@, m.entries@.len() as int),
                pv(r.entries@) == infer_pairs_from_map(pstart, *m, j as int),
                type_map(r).dom() == pairs_model(r.entries@).dom(),
                ps@.len() == lp.len(),
                forall|q: int| 0 <= q < ps@.len() ==> #[trigger] ps@[q] as int == lp[q],
                forall|q: int| 0 <= q < ps@.len() ==> #[trigger] ps@[q] < m.entries@.len(),
                j <= ps@.len(),
                type_map(r) == infer_from_map(start, *m, j as int),
            decreases ps@.len() - j,
        {
            let e = &m.entries[ps[j]];
            proof {
                assert(ps@[j as int] as int == lp[j as int]);
                assert(*e == m.entries@[lp[j as int]]);
            }
            let ghost before = type_map(r);
            proof {
                assert(infer_from_map(start, *m, j + 1) == (if before.contains_key(e.0@) {
                    before
                } else {
                    before.insert(e.0@, type_name_of(e.1.model()))
                }));
            }
            let ghost eb = r.entries@;
            proof {
                crate::strmap::lemma_pairs_model_at(eb, e.0@);
                lemma_pv_index(eb, e.0@);
            }
            if !r.contains_key(e.0.as_str()) {
                let k = e.0.clone();
                let v = String::from_str(value_type_name(&e.1));
                proof {
                    lemma_pv_insert(eb, (k, v));
                }
                r.insert(k, v);
                proof {
                    assert(!before.contains_key(e.0@));
                    assert(type_map(r) =~= before.insert(e.0@, type_name_of(e.1.model())));
                }
            } else {
                proof {
                    assert(before.contains_key(e.0@));
                }
            }
            j = j + 1;
        }
        proof {
            assert(ms[i as int] == *m);
        }
        i = i + 1;
    }
    r
}

} // verus!
