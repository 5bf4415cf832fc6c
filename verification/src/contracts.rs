//! Checking that connected micrograms agree on the types of the fields
//! they pass.
use vstd::prelude::*;
use crate::value::str_eq;
use crate::engine::names_view;
use crate::strmap::{StrMap, live_keys, pair_last_index, lemma_pair_last_index, pairs_model, lemma_pairs_model_at};
use crate::microgram::{Microgram, join5, join7};
use crate::interface::{pv, pv_index, input_pairs, output_pairs, lemma_pv_index};
use crate::compose::{resolve_alias, resolved_input, opt_string_view, live_alias};
use crate::compare::alias_entries_of;
use crate::mutate::copy_aliases;
use crate::chain_checks::capped;

verus! {

/// A connection between two micrograms whose field types disagree.
#[derive(Debug, Clone)]
pub struct ContractViolation {
    pub from: String,
    pub to: String,
    pub field: String,
    pub from_type: String,
    pub to_type: String,
    pub message: String,
}

/// Result of checking every connection.
#[derive(Debug, Clone)]
pub struct ContractValidation {
    pub total_connections: usize,
    pub valid: usize,
    pub violations: Vec<ContractViolation>,
}

/// Canonical spelling of a type name: boolean→bool, integer→int, number→float.
pub open spec fn contract_type(t: Seq<char>) -> Seq<char> {
    if t == "boolean"@ {
        "bool"@
    } else if t == "integer"@ {
        "int"@
    } else if t == "number"@ {
        "float"@
    } else {
        t
    }
}

/// An output type can feed an input type: the same canonical type, int and
/// float with each other, or an input of type `any` or `string`.
pub open spec fn contract_compatible(output: Seq<char>, input: Seq<char>) -> bool {
    let o = contract_type(output);
    let i = contract_type(input);
    ||| o == i
    ||| (o == "int"@ || o == "float"@) && (i == "int"@ || i == "float"@)
    ||| i == "any"@
    ||| i == "string"@
}

/// Canonical spelling of a type name (boolean→bool, integer→int, number→float).
pub fn canonical_type(t: &str) -> (r: &str)
    ensures
        r@ == contract_type(t@),
{
    if str_eq(t, "boolean") {
        "bool"
    } else if str_eq(t, "integer") {
        "int"
    } else if str_eq(t, "number") {
        "float"
    } else {
        t
    }
}

/// Whether an output type can feed an input type (see [`contract_compatible`]).
pub fn types_compatible(output_type: &str, input_type: &str) -> (r: bool)
    ensures
        r == contract_compatible(output_type@, input_type@),
{
    let o = canonical_type(output_type);
    let i = canonical_type(input_type);
    str_eq(o, i) || (str_eq(o, "int") || str_eq(o, "float")) && (str_eq(i, "int") || str_eq(i, "float")) || str_eq(
        i,
        "any",
    ) || str_eq(i, "string")
}

/// Keys of the first `n` pairs that no later pair replaces, in order.
pub open spec fn pv_keys(p: Seq<(Seq<char>, Seq<char>)>, n: int) -> Seq<Seq<char>>
    decreases n,
{
    if n <= 0 {
        Seq::empty()
    } else {
        let prev = pv_keys(p, n - 1);
        if pv_index(p, p[n - 1].0) == n - 1 {
            prev.push(p[n - 1].0)
        } else {
            prev
        }
    }
}

/// The value stored under `k`.
pub open spec fn pv_get(p: Seq<(Seq<char>, Seq<char>)>, k: Seq<char>) -> Seq<char> {
    p[pv_index(p, k)].1
}

proof fn lemma_pv_index_bounds(p: Seq<(Seq<char>, Seq<char>)>, k: Seq<char>)
    ensures
        -1 <= pv_index(p, k) < p.len(),
        pv_index(p, k) >= 0 ==> p[pv_index(p, k)].0 == k,
        forall|i: int| pv_index(p, k) < i < p.len() ==> p[i].0 != k,
    decreases p.len(),
{
    if p.len() > 0 {
        lemma_pv_index_bounds(p.drop_last(), k);
        assert forall|i: int| pv_index(p, k) < i < p.len() implies p[i].0 != k by {
            if i < p.len() - 1 {
                assert(p[i] == p.drop_last()[i]);
            }
        }
    }
}

proof fn lemma_pv_keys_contains(p: Seq<(Seq<char>, Seq<char>)>, n: int, k: Seq<char>)
    requires
        0 <= n <= p.len(),
    ensures
        pv_keys(p, n).contains(k) <==> (0 <= pv_index(p, k) < n),
    decreases n,
{
    lemma_pv_index_bounds(p, k);
    if n > 0 {
        lemma_pv_keys_contains(p, n - 1, k);
        let prev = pv_keys(p, n - 1);
        let cur = pv_keys(p, n);
        if pv_index(p, p[n - 1].0) == n - 1 {
            assert(cur == prev.push(p[n - 1].0));
            if cur.contains(k) && !prev.contains(k) {
                let j = choose|j: int| 0 <= j < cur.len() && cur[j] == k;
                assert(j == prev.len());
            }
            if prev.contains(k) {
                let j = choose|j: int| 0 <= j < prev.len() && prev[j] == k;
                assert(cur[j] == k);
            }
            if pv_index(p, k) == n - 1 {
                assert(p[n - 1].0 == k);
                assert(cur[prev.len() as int] == k);
            }
        } else {
            if pv_index(p, k) == n - 1 {
                assert(p[n - 1].0 == k);
            }
        }
    }
}

proof fn lemma_live_keys_pv(s: Seq<(String, String)>, n: int)
    requires
        0 <= n <= s.len(),
    ensures
        live_keys(s, n) == pv_keys(pv(s), n),
    decreases n,
{
    if n > 0 {
        lemma_live_keys_pv(s, n - 1);
        lemma_pv_index(s, s[n - 1].0@);
    }
}

/// The field label of a violation: the output field, with the input field
/// it was aliased to when they differ.
pub open spec fn field_label(a_field: Seq<char>, b_field: Seq<char>) -> Seq<char> {
    if a_field == b_field {
        a_field
    } else {
        a_field + " (alias \u{2192} "@ + b_field + ")"@
    }
}

/// A violation as plain values: from, to, field, from type, to type, message.
pub type ViolationView = (Seq<char>, Seq<char>, Seq<char>, Seq<char>, Seq<char>, Seq<char>);

pub open spec fn violation_view(v: ContractViolation) -> ViolationView {
    (v.from@, v.to@, v.field@, v.from_type@, v.to_type@, v.message@)
}

/// The output fields of `a`, each once.
pub open spec fn out_keys(a: Microgram) -> Seq<Seq<char>> {
    pv_keys(output_pairs(a), output_pairs(a).len() as int)
}

/// The input fields of `b`, each once.
pub open spec fn in_keys(b: Microgram) -> Seq<Seq<char>> {
    pv_keys(input_pairs(b), input_pairs(b).len() as int)
}

/// The input field of `b` that output `o` of `a` feeds, if any.
pub open spec fn target_of(a: Microgram, b: Microgram, o: Seq<char>) -> Option<Seq<char>> {
    resolved_input(o, in_keys(b), alias_entries_of(a), alias_entries_of(b))
}

/// Violations among the first `n` output fields of `a` feeding `b`.
pub open spec fn pair_violations(a: Microgram, b: Microgram, n: int) -> Seq<ViolationView>
    decreases n,
{
    if n <= 0 {
        Seq::empty()
    } else {
        let prev = pair_violations(a, b, n - 1);
        let o = out_keys(a)[n - 1];
        match target_of(a, b, o) {
            Some(bf) => {
                let at = pv_get(output_pairs(a), o);
                let bt = pv_get(input_pairs(b), bf);
                if contract_compatible(at, bt) {
                    prev
                } else {
                    prev.push(
                        (
                            a.name@,
                            b.name@,
                            field_label(o, bf),
                            at,
                            bt,
                            a.name@ + " outputs '"@ + o + "' as "@ + at + " but "@ + b.name@ + " expects "@ + bf
                                + " as "@ + bt,
                        ),
                    )
                }
            },
            None => prev,
        }
    }
}

/// Some output field of `a` feeds `b`.
pub open spec fn connected(a: Microgram, b: Microgram) -> bool {
    exists|i: int| 0 <= i < out_keys(a).len() && (#[trigger] target_of(a, b, out_keys(a)[i])) is Some
}

/// Connections and violations over the first `k` ordered pairs (row by row),
/// skipping pairs with the same name.
pub open spec fn contracts_upto(all: Seq<Microgram>, k: int) -> (nat, Seq<ViolationView>)
    decreases k,
{
    if k <= 0 || all.len() == 0 {
        (0, Seq::empty())
    } else {
        let prev = contracts_upto(all, k - 1);
        let a = all[(k - 1) / all.len() as int];
        let b = all[(k - 1) % all.len() as int];
        if a.name@ != b.name@ && connected(a, b) {
            (prev.0 + 1, prev.1 + pair_violations(a, b, out_keys(a).len() as int))
        } else {
            prev
        }
    }
}

proof fn lemma_first_alias_hit(t: Seq<(String, String)>, o: Seq<char>, ins: Seq<Seq<char>>, i: int)
    requires
        crate::compose::alias_hit(t, o, ins, i),
    ensures
        exists|w: int| #[trigger] crate::compose::alias_hit(t, o, ins, w) && forall|j: int|
            0 <= j < w ==> !crate::compose::alias_hit(t, o, ins, j),
    decreases i,
{
    if exists|j: int| 0 <= j < i && #[trigger] crate::compose::alias_hit(t, o, ins, j) {
        let j = choose|j: int| 0 <= j < i && #[trigger] crate::compose::alias_hit(t, o, ins, j);
        lemma_first_alias_hit(t, o, ins, j);
    } else {
        assert(crate::compose::alias_hit(t, o, ins, i) && forall|j: int|
            0 <= j < i ==> !crate::compose::alias_hit(t, o, ins, j));
    }
}

proof fn lemma_resolved_in_inputs(o: Seq<char>, ins: Seq<Seq<char>>, at: Seq<(String, String)>, bt: Seq<(String, String)>)
    ensures
        resolved_input(o, ins, at, bt) matches Some(x) ==> ins.contains(x),
{
    let t = at;
    if !ins.contains(o) && !(pairs_model(bt).contains_key(o) && ins.contains(pairs_model(bt)[o]@)) {
        if exists|i: int| #[trigger] crate::compose::alias_hit(t, o, ins, i) {
            let i0 = choose|i: int| #[trigger] crate::compose::alias_hit(t, o, ins, i);
            lemma_first_alias_hit(t, o, ins, i0);
            let i = choose|i: int| #[trigger] crate::compose::alias_hit(t, o, ins, i) && forall|j: int|
                0 <= j < i ==> !crate::compose::alias_hit(t, o, ins, j);
            assert(crate::compose::alias_hit(t, o, ins, i));
        }
    }
}

fn alias_table(mg: &Microgram) -> (r: StrMap<String>)
    ensures
        r.entries@ == alias_entries_of(*mg),
{
    match &mg.interface {
        Some(iface) => copy_aliases(&iface.aliases),
        None => {
            let m: StrMap<String> = StrMap::new();
            proof {
                assert(m.entries@ =~= Seq::<(String, String)>::empty());
            }
            m
        },
    }
}

/// Violations of `a` feeding `b`, and whether they are connected.
#[verifier::rlimit(40)]
fn check_pair(a: &Microgram, b: &Microgram, out: &mut Vec<ContractViolation>) -> (connected_pair: bool)
    ensures
        connected_pair == connected(*a, *b),
        final(out)@.map_values(|v: ContractViolation| violation_view(v)) == old(out)@.map_values(
            |v: ContractViolation| violation_view(v),
        ) + pair_violations(*a, *b, out_keys(*a).len() as int),
{
    let a_out = a.typed_outputs();
    let b_in = b.typed_inputs();
    let a_aliases = alias_table(a);
    let b_aliases = alias_table(b);
    let keys = a_out.keys();
    let b_keys = b_in.keys();
    proof {
        lemma_live_keys_pv(a_out.entries@, a_out.entries@.len() as int);
        lemma_live_keys_pv(b_in.entries@, b_in.entries@.len() as int);
        assert(pv(a_out.entries@).len() == a_out.entries@.len());
        assert(pv(b_in.entries@).len() == b_in.entries@.len());
        assert(names_view(keys@) == out_keys(*a));
        assert(names_view(b_keys@) == in_keys(*b));
    }
    let ghost start = out@.map_values(|v: ContractViolation| violation_view(v));
    let mut any = false;
    let mut i: usize = 0;
    while i < keys.len()
        invariant
            names_view(keys@) == out_keys(*a),
            names_view(b_keys@) == in_keys(*b),
            pv(a_out.entries@) == output_pairs(*a),
            pv(b_in.entries@) == input_pairs(*b),
            a_aliases.entries@ == alias_entries_of(*a),
            b_aliases.entries@ == alias_entries_of(*b),
            i <= keys@.len(),
            any == exists|j: int| 0 <= j < i && (#[trigger] target_of(*a, *b, out_keys(*a)[j])) is Some,
            out@.map_values(|v: ContractViolation| violation_view(v)) == start + pair_violations(*a, *b, i as int),
        decreases keys@.len() - i,
    {
        let o = keys[i].as_str();
        proof {
            assert(out_keys(*a)[i as int] == o@);
        }
        let ghost before = out@.map_values(|v: ContractViolation| violation_view(v));
        let bks = b_keys.as_slice();
        let res = resolve_alias(o, bks, &a_aliases, &b_aliases);
        proof {
            assert(names_view(bks@) == in_keys(*b));
            assert(opt_string_view(res) == target_of(*a, *b, out_keys(*a)[i as int]));
        }
        match res {
            Some(bf) => {
                any = true;
                proof {
                    lemma_resolved_in_inputs(o@, in_keys(*b), a_aliases.entries@, b_aliases.entries@);
                    lemma_pv_keys_contains(output_pairs(*a), output_pairs(*a).len() as int, o@);
                    lemma_pv_keys_contains(input_pairs(*b), input_pairs(*b).len() as int, bf@);
                    assert(out_keys(*a).contains(o@)) by {
                        assert(out_keys(*a)[i as int] == o@);
                    }
                    lemma_pv_index(a_out.entries@, o@);
                    lemma_pv_index(b_in.entries@, bf@);
                    lemma_pairs_model_at(a_out.entries@, o@);
                    lemma_pairs_model_at(b_in.entries@, bf@);
                }
                let at = match a_out.get(o) {
                    Some(t) => t.as_str(),
                    None => "",
                };
                let bt = match b_in.get(bf.as_str()) {
                    Some(t) => t.as_str(),
                    None => "",
                };
                proof {
                    assert(at@ == pv_get(output_pairs(*a), o@));
                    assert(bt@ == pv_get(input_pairs(*b), bf@));
                }
                if !types_compatible(at, bt) {
                    let field = if str_eq(o, bf.as_str()) {
                        String::from_str(o)
                    } else {
                        join5(o, " (alias \u{2192} ", bf.as_str(), ")", "")
                    };
                    let head = join5(a.name.as_str(), " outputs '", o, "' as ", at);
                    let tail = join7(" but ", b.name.as_str(), " expects ", bf.as_str(), " as ", bt, "");
                    let mut message = head;
                    message.append(tail.as_str());
                    proof {
                        reveal_strlit("");
                    }
                    out.push(
                        ContractViolation {
                            from: a.name.clone(),
                            to: b.name.clone(),
                            field,
                            from_type: String::from_str(at),
                            to_type: String::from_str(bt),
                            message,
                        },
                    );
                    proof {
                        let v = out@.last();
                        assert(violation_view(v).5 =~= a.name@ + " outputs '"@ + o@ + "' as "@ + at@ + " but "@
                            + b.name@ + " expects "@ + bf@ + " as "@ + bt@);
                        assert(out@.map_values(|v: ContractViolation| violation_view(v)) =~= before.push(
                            violation_view(v),
                        ));
                    }
                }
            },
            None => {},
        }
        i = i + 1;
    }
    any
}

/// Check every connection between micrograms of different names: for each
/// ordered pair (row by row) where some output of the first feeds an input
/// of the second (directly or through aliases), every such field whose
/// types are not compatible is a violation. `valid` counts the connections
/// less the violations (not below zero). The connection count saturates at
/// `usize::MAX`.
pub fn validate_contracts(all: &[Microgram]) -> (r: ContractValidation)
    ensures
        ({
            let c = contracts_upto(all@, (all@.len() * all@.len()) as int);
            &&& r.total_connections == capped(c.0)
            &&& r.violations@.map_values(|v: ContractViolation| violation_view(v)) == c.1
            &&& r.valid == r.total_connections - if r.violations@.len() < r.total_connections {
                r.violations@.len() as int
            } else {
                r.total_connections as int
            }
        }),
{
    let n = all.len();
    let mut violations: Vec<ContractViolation> = Vec::new();
    let mut total: usize = 0;
    let mut a: usize = 0;
    proof {
        assert(violations@.map_values(|v: ContractViolation| violation_view(v)) =~= contracts_upto(all@, 0).1);
    }
    while a < n
        invariant
            n == all@.len(),
            a <= n,
            total == capped(contracts_upto(all@, a * n).0),
            violations@.map_values(|v: ContractViolation| violation_view(v)) == contracts_upto(all@, a * n).1,
        decreases n - a,
    {
        let mut b: usize = 0;
        while b < n
            invariant
                n == all@.len(),
                a < n,
                b <= n,
                total == capped(contracts_upto(all@, a * n + b).0),
                violations@.map_values(|v: ContractViolation| violation_view(v)) == contracts_upto(all@, a * n + b).1,
            decreases n - b,
        {
            proof {
                let k = a * n + b;
                assert((k as int) / (n as int) == a as int) by (nonlinear_arith)
                    requires
                        k == a * n + b,
                        0 <= b < n,
                        0 <= a,
                ;
                assert((k as int) % (n as int) == b as int) by (nonlinear_arith)
                    requires
                        k == a * n + b,
                        0 <= b < n,
                        0 <= a,
                ;
            }
            if !str_eq(all[a].name.as_str(), all[b].name.as_str()) {
                let mut found: Vec<ContractViolation> = Vec::new();
                let connected_pair = check_pair(&all[a], &all[b], &mut found);
                if connected_pair {
                    total = total.saturating_add(1);
                    let ghost before = violations@;
                    let ghost fv = found@;
                    violations.append(&mut found);
                    proof {
                        assert(violations@.map_values(|v: ContractViolation| violation_view(v)) =~= before.map_values(
                            |v: ContractViolation| violation_view(v),
                        ) + fv.map_values(|v: ContractViolation| violation_view(v)));
                    }
                }
            }
            b = b + 1;
        }
        proof {
            assert((a + 1) * n == a * n + n) by (nonlinear_arith);
        }
        a = a + 1;
    }
    let nv = violations.len();
    let valid = total - if nv < total {
        nv
    } else {
        total
    };
    ContractValidation { total_connections: total, valid, violations }
}

} // verus!
