//! Composing a chain that produces a goal's fields, and feeding one
//! microgram's outputs into another's inputs through aliases.
use vstd::prelude::*;
use crate::value::{Value, ValueModel, FieldMap, str_eq, lemma_entries_model_dom};
use crate::engine::names_view;
use crate::strmap::{StrMap, pair_last_index, last_position};
use crate::microgram::Microgram;
use crate::interface::{input_variables, output_fields, condition_vars, return_fields, node_seq, contains_name};
use crate::chain::{ChainResult, chain_by_names, select_named, first_named, named_sequence, not_found_message, first_missing, is_chain_run};
use crate::clock::{clock_now, micros_since};

verus! {

/// What a composed chain must produce, and what it starts from.
#[derive(Debug)]
pub struct CompositionGoal {
    /// Fields that must exist in the final output.
    pub required_outputs: Vec<String>,
    pub initial_input: FieldMap,
}

/// A composed chain and which required fields it covers.
#[derive(Debug, Clone)]
pub struct CompositionPlan {
    pub feasible: bool,
    /// Microgram names, in execution order.
    pub chain: Vec<String>,
    /// Required fields the chain produces.
    pub coverage: Vec<String>,
    /// Required fields nothing can produce.
    pub missing: Vec<String>,
}

/// What composition knows of a microgram: its name, the fields it
/// produces, the variables it reads, and its aliases (alias to canonical).
pub struct Producer {
    pub name: Seq<char>,
    pub outputs: Seq<Seq<char>>,
    pub inputs: Seq<Seq<char>>,
    pub aliases: Seq<(String, String)>,
}

/// Aliases of a microgram, as entries (alias, canonical).
pub open spec fn alias_table(mg: Microgram) -> Seq<(String, String)> {
    match mg.interface {
        Some(iface) => iface.aliases.entries@,
        None => Seq::empty(),
    }
}

/// The producer entry of a microgram.
pub open spec fn producer_of(mg: Microgram) -> Producer {
    Producer {
        name: mg.name@,
        outputs: return_fields(node_seq(mg)),
        inputs: condition_vars(node_seq(mg)),
        aliases: alias_table(mg),
    }
}

/// Entry `i` of an alias table is the one that gives its alias a meaning.
pub open spec fn live_alias(t: Seq<(String, String)>, i: int) -> bool {
    0 <= i < t.len() && pair_last_index(t, t[i].0@) == i
}

/// Variable `v` is available directly, or through an alias of it that is available.
pub open spec fn input_ready(p: Producer, avail: Set<Seq<char>>, v: Seq<char>) -> bool {
    avail.contains(v) || exists|i: int|
        live_alias(p.aliases, i) && (#[trigger] p.aliases[i]).1@ == v && avail.contains(p.aliases[i].0@)
}

/// Every variable the producer reads is ready.
pub open spec fn can_run(p: Producer, avail: Set<Seq<char>>) -> bool {
    forall|j: int| 0 <= j < p.inputs.len() ==> input_ready(p, avail, #[trigger] p.inputs[j])
}

/// The producer adds a field that is not available yet.
pub open spec fn adds_something(p: Producer, avail: Set<Seq<char>>) -> bool {
    exists|j: int| 0 <= j < p.outputs.len() && !avail.contains(#[trigger] p.outputs[j])
}

/// Canonical names that some producer aliases from one of `outputs`.
pub open spec fn unlocked(ps: Seq<Producer>, outputs: Seq<Seq<char>>) -> Set<Seq<char>> {
    Set::new(
        |c: Seq<char>|
            exists|q: int, i: int|
                0 <= q < ps.len() && live_alias(ps[q].aliases, i) && outputs.contains((#[trigger] ps[q].aliases[i]).0@)
                    && ps[q].aliases[i].1@ == c,
    )
}

/// State of the greedy search: available fields, the chain so far, which
/// producers are used, and whether the current round added one.
pub struct Search {
    pub avail: Set<Seq<char>>,
    pub chain: Seq<Seq<char>>,
    pub used: Seq<bool>,
    pub progress: bool,
}

/// Consider producer `i`: when it is unused, can run, and adds a field, it
/// joins the chain, its outputs and the canonical names they unlock become
/// available, and it is marked used.
pub open spec fn consider(ps: Seq<Producer>, st: Search, i: int) -> Search {
    let p = ps[i];
    if !st.used[i] && can_run(p, st.avail) && adds_something(p, st.avail) {
        Search {
            avail: st.avail + p.outputs.to_set() + unlocked(ps, p.outputs),
            chain: st.chain.push(p.name),
            used: st.used.update(i, true),
            progress: true,
        }
    } else {
        st
    }
}

/// One round over the first `n` producers.
pub open spec fn round(ps: Seq<Producer>, st: Search, n: int) -> Search
    decreases n,
{
    if n <= 0 {
        st
    } else {
        consider(ps, round(ps, st, n - 1), n - 1)
    }
}

/// The search after `r` rounds; it stops after a round that adds nothing.
pub open spec fn rounds(ps: Seq<Producer>, st: Search, r: nat) -> Search
    decreases r,
{
    if r == 0 {
        st
    } else {
        let prev = rounds(ps, st, (r - 1) as nat);
        if r > 1 && !prev.progress {
            prev
        } else {
            round(ps, Search { progress: false, ..prev }, ps.len() as int)
        }
    }
}

/// The search started from the goal's input fields, run for as many rounds
/// as there are producers.
pub open spec fn composed(ps: Seq<Producer>, start: Set<Seq<char>>) -> Search {
    rounds(
        ps,
        Search { avail: start, chain: Seq::empty(), used: Seq::new(ps.len(), |i: int| false), progress: true },
        ps.len() as nat,
    )
}

/// The fields of `required` that are (or are not) in `avail`, in order.
pub open spec fn split_required(required: Seq<Seq<char>>, avail: Set<Seq<char>>, present: bool) -> Seq<Seq<char>>
    decreases required.len(),
{
    if required.len() == 0 {
        Seq::empty()
    } else {
        let prev = split_required(required.drop_last(), avail, present);
        if avail.contains(required.last()) == present {
            prev.push(required.last())
        } else {
            prev
        }
    }
}

/// The producers of a list of micrograms.
pub open spec fn producers(all: Seq<Microgram>) -> Seq<Producer> {
    all.map_values(|mg: Microgram| producer_of(mg))
}

struct ProducerEntry<'a> {
    name: &'a String,
    outputs: Vec<String>,
    inputs: Vec<String>,
    aliases: &'a [(String, String)],
}

spec fn entry_matches(e: ProducerEntry, p: Producer) -> bool {
    &&& e.name@ == p.name
    &&& names_view(e.outputs@) == p.outputs
    &&& names_view(e.inputs@) == p.inputs
    &&& e.aliases@ == p.aliases
}


proof fn lemma_push_to_set(s: Seq<Seq<char>>, x: Seq<char>)
    ensures
        s.push(x).to_set() == s.to_set().insert(x),
{
    assert forall|a: Seq<char>| s.push(x).contains(a) <==> (s.contains(a) || a == x) by {
        if s.push(x).contains(a) {
            let i = choose|i: int| 0 <= i < s.push(x).len() && s.push(x)[i] == a;
            if i < s.len() {
                assert(s[i] == a);
            }
        }
        if s.contains(a) {
            let i = choose|i: int| 0 <= i < s.len() && s[i] == a;
            assert(s.push(x)[i] == a);
        }
        if a == x {
            assert(s.push(x)[s.len() as int] == x);
        }
    }
    assert forall|a: Seq<char>| s.push(x).to_set().contains(a) == s.to_set().insert(x).contains(a) by {
        assert(s.push(x).to_set().contains(a) == s.push(x).contains(a));
        assert(s.to_set().contains(a) == s.contains(a));
    }
    assert(s.push(x).to_set() =~= s.to_set().insert(x));
}

/// True when `avail` holds `x`.
fn is_available(avail: &Vec<String>, x: &str) -> (r: bool)
    ensures
        r == names_view(avail@).to_set().contains(x@),
{
    contains_name(avail, x)
}

/// Add `x` to the available fields unless present.
fn add_avail(avail: &mut Vec<String>, x: &String)
    ensures
        names_view(final(avail)@).to_set() == names_view(old(avail)@).to_set().insert(x@),
{
    if !contains_name(avail, x.as_str()) {
        let ghost before = avail@;
        avail.push(x.clone());
        proof {
            assert(names_view(avail@) =~= names_view(before).push(x@));
            lemma_push_to_set(names_view(before), x@);
        }
    } else {
        proof {
            assert(names_view(avail@).to_set() =~= names_view(avail@).to_set().insert(x@));
        }
    }
}

fn ready(e: &ProducerEntry, avail: &Vec<String>, v: &str) -> (r: bool)
    ensures
        forall|p: Producer| entry_matches(*e, p) ==> r == input_ready(p, names_view(avail@).to_set(), v@),
{
    if is_available(avail, v) {
        return true;
    }
    let ghost av = names_view(avail@).to_set();
    let t = e.aliases;
    let mut i: usize = 0;
    while i < t.len()
        invariant
            t@ == e.aliases@,
            av == names_view(avail@).to_set(),
            i <= t@.len(),
            forall|j: int|
                0 <= j < i ==> !(live_alias(t@, j) && (#[trigger] t@[j]).1@ == v@ && names_view(avail@).to_set().contains(
                    t@[j].0@,
                )),
        decreases t@.len() - i,
    {
        let live = last_position(t, t[i].0.as_str()) == Some(i);
        if live && str_eq(t[i].1.as_str(), v) && is_available(avail, t[i].0.as_str()) {
            proof {
                assert forall|p: Producer| entry_matches(*e, p) implies input_ready(p, av, v@) by {
                    assert(p.aliases[i as int] == t@[i as int]);
                    assert(live_alias(p.aliases, i as int));
                }
            }
            return true;
        }
        i = i + 1;
    }
    proof {
        assert forall|p: Producer| entry_matches(*e, p) implies !input_ready(p, av, v@) by {
            assert(p.aliases == t@);
        }
    }
    false
}

fn runnable(e: &ProducerEntry, avail: &Vec<String>) -> (r: bool)
    ensures
        forall|p: Producer| entry_matches(*e, p) ==> r == can_run(p, names_view(avail@).to_set()),
{
    let mut j: usize = 0;
    while j < e.inputs.len()
        invariant
            j <= e.inputs@.len(),
            forall|p: Producer|
                entry_matches(*e, p) ==> forall|q: int|
                    0 <= q < j ==> input_ready(p, names_view(avail@).to_set(), #[trigger] p.inputs[q]),
        decreases e.inputs@.len() - j,
    {
        if !ready(e, avail, e.inputs[j].as_str()) {
            proof {
                assert forall|p: Producer| entry_matches(*e, p) implies !can_run(p, names_view(avail@).to_set()) by {
                    assert(p.inputs[j as int] == e.inputs@[j as int]@);
                }
            }
            return false;
        }
        proof {
            assert forall|p: Producer| entry_matches(*e, p) implies forall|q: int|
                0 <= q < j + 1 ==> input_ready(p, names_view(avail@).to_set(), #[trigger] p.inputs[q]) by {
                assert(p.inputs[j as int] == e.inputs@[j as int]@);
            }
        }
        j = j + 1;
    }
    true
}

fn adds(e: &ProducerEntry, avail: &Vec<String>) -> (r: bool)
    ensures
        forall|p: Producer| entry_matches(*e, p) ==> r == adds_something(p, names_view(avail@).to_set()),
{
    let mut j: usize = 0;
    while j < e.outputs.len()
        invariant
            j <= e.outputs@.len(),
            forall|q: int| 0 <= q < j ==> names_view(avail@).to_set().contains(#[trigger] names_view(e.outputs@)[q]),
        decreases e.outputs@.len() - j,
    {
        if !is_available(avail, e.outputs[j].as_str()) {
            proof {
                assert forall|p: Producer| entry_matches(*e, p) implies adds_something(p, names_view(avail@).to_set()) by {
                    assert(p.outputs[j as int] == e.outputs@[j as int]@);
                }
            }
            return true;
        }
        j = j + 1;
    }
    proof {
        assert forall|p: Producer| entry_matches(*e, p) implies !adds_something(p, names_view(avail@).to_set()) by {
            assert forall|q: int| 0 <= q < p.outputs.len() implies names_view(avail@).to_set().contains(
                #[trigger] p.outputs[q],
            ) by {
                assert(p.outputs[q] == names_view(e.outputs@)[q]);
            }
        }
    }
    false
}

/// `p` is the plan that composition makes for `goal` over `all`.
pub open spec fn is_plan(all: Seq<Microgram>, goal: CompositionGoal, p: CompositionPlan) -> bool {
    let s = composed(producers(all), goal.initial_input.model().dom());
    &&& names_view(p.chain@) == s.chain
    &&& names_view(p.coverage@) == split_required(names_view(goal.required_outputs@), s.avail, true)
    &&& names_view(p.missing@) == split_required(names_view(goal.required_outputs@), s.avail, false)
    &&& p.feasible == (p.missing@.len() == 0)
}

proof fn lemma_split_required(required: Seq<Seq<char>>, avail: Set<Seq<char>>)
    ensures
        split_required(required, avail, true).len() + split_required(required, avail, false).len() == required.len(),
        forall|x: Seq<char>, b: bool| #[trigger] split_required(required, avail, b).contains(x) <==> (required.contains(x)
            && avail.contains(x) == b),
    decreases required.len(),
{
    if required.len() > 0 {
        let p = required.drop_last();
        let l = required.last();
        lemma_split_required(p, avail);
        assert forall|x: Seq<char>, b: bool| #[trigger] split_required(required, avail, b).contains(x) <==> (
        required.contains(x) && avail.contains(x) == b) by {
            let sp = split_required(p, avail, b);
            if required.contains(x) && !p.contains(x) {
                let k = choose|k: int| 0 <= k < required.len() && required[k] == x;
                if k < p.len() {
                    assert(p[k] == x);
                }
            }
            if p.contains(x) {
                let k = choose|k: int| 0 <= k < p.len() && p[k] == x;
                assert(required[k] == x);
            }
            if avail.contains(l) == b {
                assert(sp.push(l)[sp.len() as int] == l);
                if sp.push(l).contains(x) {
                    let k = choose|k: int| 0 <= k < sp.push(l).len() && sp.push(l)[k] == x;
                    if k < sp.len() {
                        assert(sp[k] == x);
                    }
                }
                if sp.contains(x) {
                    let k = choose|k: int| 0 <= k < sp.len() && sp[k] == x;
                    assert(sp.push(l)[k] == x);
                }
            }
            assert(required[required.len() - 1] == l);
        }
    }
}

/// A plan splits the required fields: each is covered or missing, never
/// both, and the plan is feasible exactly when every one is covered.
pub proof fn lemma_plan_partitions_required(all: Seq<Microgram>, goal: CompositionGoal, p: CompositionPlan)
    requires
        is_plan(all, goal, p),
    ensures
        p.coverage@.len() + p.missing@.len() == goal.required_outputs@.len(),
        forall|x: Seq<char>| #[trigger] names_view(goal.required_outputs@).contains(x) <==> (names_view(p.coverage@).contains(x)
            || names_view(p.missing@).contains(x)),
        forall|x: Seq<char>| !(#[trigger] names_view(p.coverage@).contains(x) && names_view(p.missing@).contains(x)),
        p.feasible == (p.coverage@.len() == goal.required_outputs@.len()),
{
    let s = composed(producers(all), goal.initial_input.model().dom());
    let req = names_view(goal.required_outputs@);
    lemma_split_required(req, s.avail);
    assert(names_view(p.coverage@).len() == p.coverage@.len());
    assert(names_view(p.missing@).len() == p.missing@.len());
    assert forall|x: Seq<char>| #[trigger] req.contains(x) <==> (names_view(p.coverage@).contains(x) || names_view(
        p.missing@,
    ).contains(x)) by {
        assert(split_required(req, s.avail, true).contains(x) == (req.contains(x) && s.avail.contains(x) == true));
        assert(split_required(req, s.avail, false).contains(x) == (req.contains(x) && s.avail.contains(x) == false));
    }
    assert forall|x: Seq<char>| !(#[trigger] names_view(p.coverage@).contains(x) && names_view(p.missing@).contains(x)) by {
        assert(split_required(req, s.avail, true).contains(x) == (req.contains(x) && s.avail.contains(x) == true));
        assert(split_required(req, s.avail, false).contains(x) == (req.contains(x) && s.avail.contains(x) == false));
    }
}

/// Plan a chain over `all` that produces the goal's required fields.
///
/// Greedy forward search: starting from the goal's input fields, each
/// round takes, in order, every unused microgram whose inputs are all
/// available (directly or through one of its aliases) and that adds a
/// field not yet available; its outputs, and the canonical names that any
/// microgram aliases from them, become available. The search stops after a
/// round that takes nothing, or after as many rounds as there are
/// micrograms. The plan is feasible when every required field is available.
pub fn compose(all: &[Microgram], goal: &CompositionGoal) -> (r: CompositionPlan)
    ensures
        is_plan(all@, *goal, r),
{
    let ghost ps = producers(all@);
    let n = all.len();
    let mut entries: Vec<ProducerEntry> = Vec::new();
    let mut k: usize = 0;
    while k < n
        invariant
            n == all@.len(),
            ps == producers(all@),
            k <= n,
            entries@.len() == k,
            forall|j: int| 0 <= j < k ==> entry_matches(#[trigger] entries@[j], ps[j]),
        decreases n - k,
    {
        let mg = &all[k];
        let aliases: &[(String, String)] = match &mg.interface {
            Some(iface) => iface.aliases.entries.as_slice(),
            None => &[],
        };
        let ghost eb = entries@;
        entries.push(
            ProducerEntry { name: &mg.name, outputs: output_fields(mg), inputs: input_variables(mg), aliases },
        );
        proof {
            assert(*mg == all@[k as int]);
            assert(ps[k as int] == producer_of(all@[k as int]));
            assert(aliases@ == alias_table(*mg));
            assert forall|j: int| 0 <= j < k + 1 implies entry_matches(#[trigger] entries@[j], ps[j]) by {
                if j < k {
                    assert(entries@[j] == eb[j]);
                }
            }
        }
        k = k + 1;
    }
    let mut avail: Vec<String> = Vec::new();
    let init = &goal.initial_input.entries;
    let mut q: usize = 0;
    while q < init.len()
        invariant
            q <= init@.len(),
            forall|x: Seq<char>|
                names_view(avail@).to_set().contains(x) <==> exists|j: int| 0 <= j < q && (#[trigger] init@[j]).0@ == x,
        decreases init@.len() - q,
    {
        add_avail(&mut avail, &init[q].0);
        proof {
            assert forall|x: Seq<char>|
                names_view(avail@).to_set().contains(x) <==> exists|j: int| 0 <= j < q + 1 && (#[trigger] init@[j]).0@ == x by {
                if x == init@[q as int].0@ {
                    assert(0 <= q < q + 1 && init@[q as int].0@ == x);
                }
            }
        }
        q = q + 1;
    }
    proof {
        lemma_entries_model_dom(goal.initial_input.entries@);
        assert(names_view(avail@).to_set() =~= goal.initial_input.model().dom());
    }
    let ghost start = goal.initial_input.model().dom();
    let ghost s0 = Search { avail: start, chain: Seq::empty(), used: Seq::new(ps.len(), |i: int| false), progress: true };
    let mut chain: Vec<String> = Vec::new();
    let mut used: Vec<bool> = Vec::new();
    let mut u: usize = 0;
    while u < n
        invariant
            u <= n,
            used@.len() == u,
            forall|j: int| 0 <= j < u ==> !#[trigger] used@[j],
        decreases n - u,
    {
        used.push(false);
        u = u + 1;
    }
    proof {
        assert(used@ =~= s0.used);
    }
    let mut progress = true;
    let mut r: usize = 0;
    while r < n
        invariant
            n == all@.len(),
            ps == producers(all@),
            ps.len() == n,
            entries@.len() == n,
            forall|j: int| 0 <= j < n ==> entry_matches(#[trigger] entries@[j], ps[j]),
            r <= n,
            used@.len() == n,
            ({
                let s = rounds(ps, s0, r as nat);
                &&& names_view(avail@).to_set() == s.avail
                &&& names_view(chain@) == s.chain
                &&& used@ == s.used
                &&& progress == s.progress
            }),
            s0.used.len() == n,
        decreases n - r,
    {
        if r > 0 && !progress {
            r = r + 1;
            continue;
        }
        let ghost before = rounds(ps, s0, r as nat);
        progress = false;
        let mut i: usize = 0;
        while i < n
            invariant
                n == all@.len(),
                ps == producers(all@),
                ps.len() == n,
                entries@.len() == n,
                forall|j: int| 0 <= j < n ==> entry_matches(#[trigger] entries@[j], ps[j]),
                i <= n,
                used@.len() == n,
                ({
                    let s = round(ps, Search { progress: false, ..before }, i as int);
                    &&& names_view(avail@).to_set() == s.avail
                    &&& names_view(chain@) == s.chain
                    &&& used@ == s.used
                    &&& progress == s.progress
                }),
            decreases n - i,
        {
            let e = &entries[i];
            proof {
                assert(entry_matches(*e, ps[i as int]));
            }
            if !used[i] && runnable(e, &avail) && adds(e, &avail) {
                let ghost a0 = names_view(avail@).to_set();
                let ghost c0 = names_view(chain@);
                chain.push(e.name.clone());
                proof {
                    assert(names_view(chain@) =~= c0.push(e.name@));
                }
                let mut o: usize = 0;
                while o < e.outputs.len()
                    invariant
                        o <= e.outputs@.len(),
                        names_view(avail@).to_set() == a0 + names_view(e.outputs@).subrange(0, o as int).to_set(),
                    decreases e.outputs@.len() - o,
                {
                    let ghost ab = names_view(avail@).to_set();
                    add_avail(&mut avail, &e.outputs[o]);
                    proof {
                        assert(names_view(e.outputs@).subrange(0, o + 1) =~= names_view(e.outputs@).subrange(
                            0,
                            o as int,
                        ).push(e.outputs@[o as int]@));
                        lemma_push_to_set(names_view(e.outputs@).subrange(0, o as int), e.outputs@[o as int]@);
                        assert(names_view(avail@).to_set() =~= a0 + names_view(e.outputs@).subrange(0, o + 1).to_set());
                    }
                    o = o + 1;
                }
                proof {
                    assert(names_view(e.outputs@).subrange(0, e.outputs@.len() as int) =~= names_view(e.outputs@));
                }
                let ghost a1 = names_view(avail@).to_set();
                let ghost outs = names_view(e.outputs@);
                let mut pq: usize = 0;
                while pq < n
                    invariant
                        n == all@.len(),
                        ps == producers(all@),
                        ps.len() == n,
                        entries@.len() == n,
                        forall|j: int| 0 <= j < n ==> entry_matches(#[trigger] entries@[j], ps[j]),
                        pq <= n,
                        outs == names_view(e.outputs@),
                        names_view(avail@).to_set() == a1 + unlocked(ps.subrange(0, pq as int), outs),
                    decreases n - pq,
                {
                    let t = entries[pq].aliases;
                    proof {
                        assert(entry_matches(entries@[pq as int], ps[pq as int]));
                    }
                    let ghost au = names_view(avail@).to_set();
                    let mut ai: usize = 0;
                    while ai < t.len()
                        invariant
                            ai <= t@.len(),
                            t@ == ps[pq as int].aliases,
                            outs == names_view(e.outputs@),
                            names_view(avail@).to_set() == au + Set::new(
                                |c: Seq<char>|
                                    exists|x: int|
                                        0 <= x < ai && live_alias(t@, x) && outs.contains((#[trigger] t@[x]).0@)
                                            && t@[x].1@ == c,
                            ),
                        decreases t@.len() - ai,
                    {
                        let ghost ab = names_view(avail@).to_set();
                        let live = last_position(t, t[ai].0.as_str()) == Some(ai);
                        if live && contains_name(&e.outputs, t[ai].0.as_str()) {
                            add_avail(&mut avail, &t[ai].1);
                            proof {
                                assert(names_view(avail@).to_set() =~= au + Set::new(
                                    |c: Seq<char>|
                                        exists|x: int|
                                            0 <= x < ai + 1 && live_alias(t@, x) && outs.contains((#[trigger] t@[x]).0@)
                                                && t@[x].1@ == c,
                                )) by {
                                    assert forall|c: Seq<char>|
                                        #[trigger] names_view(avail@).to_set().contains(c) implies (au + Set::new(
                                            |c: Seq<char>|
                                                exists|x: int|
                                                    0 <= x < ai + 1 && live_alias(t@, x) && outs.contains(
                                                        (#[trigger] t@[x]).0@,
                                                    ) && t@[x].1@ == c,
                                        )).contains(c) by {
                                        if c == t@[ai as int].1@ {
                                            assert(live_alias(t@, ai as int));
                                        }
                                    }
                                }
                            }
                        } else {
                            proof {
                                assert(names_view(avail@).to_set() =~= au + Set::new(
                                    |c: Seq<char>|
                                        exists|x: int|
                                            0 <= x < ai + 1 && live_alias(t@, x) && outs.contains((#[trigger] t@[x]).0@)
                                                && t@[x].1@ == c,
                                )) by {
                                    assert forall|c: Seq<char>|
                                        (au + Set::new(
                                            |c: Seq<char>|
                                                exists|x: int|
                                                    0 <= x < ai + 1 && live_alias(t@, x) && outs.contains(
                                                        (#[trigger] t@[x]).0@,
                                                    ) && t@[x].1@ == c,
                                        )).contains(c) implies #[trigger] names_view(avail@).to_set().contains(c) by {
                                        if !au.contains(c) {
                                            let x = choose|x: int|
                                                0 <= x < ai + 1 && live_alias(t@, x) && outs.contains((#[trigger] t@[x]).0@)
                                                    && t@[x].1@ == c;
                                            if x == ai {
                                                assert(names_view(e.outputs@).contains(t@[ai as int].0@));
                                            }
                                        }
                                    }
                                }
                            }
                        }
                        ai = ai + 1;
                    }
                    proof {
                        assert(names_view(avail@).to_set() =~= a1 + unlocked(ps.subrange(0, pq + 1), outs)) by {
                            let sub = ps.subrange(0, pq + 1);
                            assert forall|c: Seq<char>| #[trigger] unlocked(sub, outs).contains(c) <==> (unlocked(
                                ps.subrange(0, pq as int),
                                outs,
                            ).contains(c) || exists|x: int|
                                0 <= x < t@.len() && live_alias(t@, x) && outs.contains((#[trigger] t@[x]).0@) && t@[x].1@
                                    == c) by {
                                if unlocked(sub, outs).contains(c) {
                                    let (qq, x) = choose|qq: int, x: int|
                                        0 <= qq < sub.len() && live_alias(sub[qq].aliases, x) && outs.contains(
                                            (#[trigger] sub[qq].aliases[x]).0@,
                                        ) && sub[qq].aliases[x].1@ == c;
                                    if qq < pq {
                                        assert(ps.subrange(0, pq as int)[qq] == sub[qq]);
                                    } else {
                                        assert(sub[qq] == ps[pq as int]);
                                    }
                                }
                                if unlocked(ps.subrange(0, pq as int), outs).contains(c) {
                                    let (qq, x) = choose|qq: int, x: int|
                                        0 <= qq < pq && live_alias(ps.subrange(0, pq as int)[qq].aliases, x) && outs.contains(
                                            (#[trigger] ps.subrange(0, pq as int)[qq].aliases[x]).0@,
                                        ) && ps.subrange(0, pq as int)[qq].aliases[x].1@ == c;
                                    assert(sub[qq] == ps.subrange(0, pq as int)[qq]);
                                }
                                if exists|x: int|
                                    0 <= x < t@.len() && live_alias(t@, x) && outs.contains((#[trigger] t@[x]).0@)
                                        && t@[x].1@ == c {
                                    let x = choose|x: int|
                                        0 <= x < t@.len() && live_alias(t@, x) && outs.contains((#[trigger] t@[x]).0@)
                                            && t@[x].1@ == c;
                                    assert(sub[pq as int] == ps[pq as int]);
                                    assert(live_alias(sub[pq as int].aliases, x) && outs.contains(
                                        sub[pq as int].aliases[x].0@,
                                    ) && sub[pq as int].aliases[x].1@ == c);
                                }
                            }
                        }
                    }
                    pq = pq + 1;
                }
                proof {
                    assert(ps.subrange(0, n as int) =~= ps);
                    assert(names_view(avail@).to_set() =~= a0 + outs.to_set() + unlocked(ps, outs));
                }
                used.set(i, true);
                progress = true;
            }
            i = i + 1;
        }
        r = r + 1;
    }
    let ghost s = composed(ps, start);
    let mut coverage: Vec<String> = Vec::new();
    let mut missing: Vec<String> = Vec::new();
    let req = &goal.required_outputs;
    let mut j: usize = 0;
    while j < req.len()
        invariant
            names_view(avail@).to_set() == s.avail,
            j <= req@.len(),
            names_view(coverage@) == split_required(names_view(req@).subrange(0, j as int), s.avail, true),
            names_view(missing@) == split_required(names_view(req@).subrange(0, j as int), s.avail, false),
        decreases req@.len() - j,
    {
        proof {
            assert(names_view(req@).subrange(0, j + 1).drop_last() =~= names_view(req@).subrange(0, j as int));
        }
        if is_available(&avail, req[j].as_str()) {
            let ghost cb = coverage@;
            coverage.push(req[j].clone());
            proof {
                assert(names_view(coverage@) =~= names_view(cb).push(req@[j as int]@));
            }
        } else {
            let ghost mb = missing@;
            missing.push(req[j].clone());
            proof {
                assert(names_view(missing@) =~= names_view(mb).push(req@[j as int]@));
            }
        }
        j = j + 1;
    }
    proof {
        assert(names_view(req@).subrange(0, req@.len() as int) =~= names_view(req@));
    }
    let feasible = missing.len() == 0;
    CompositionPlan { feasible, chain, coverage, missing }
}

} // verus!
verus! {

/// Result of planning, running and checking a goal.
#[derive(Debug)]
pub struct AutoResult {
    pub plan: CompositionPlan,
    pub execution: Option<ChainResult>,
    pub verified: bool,
    pub duration_us: u64,
}

/// Some step's output holds `field`.
pub open spec fn some_step_has(steps: Seq<crate::microgram::MicrogramResult>, field: Seq<char>) -> bool {
    exists|i: int| 0 <= i < steps.len() && (#[trigger] steps[i]).output.model().contains_key(field)
}

fn any_step_has(steps: &Vec<crate::microgram::MicrogramResult>, field: &str) -> (r: bool)
    ensures
        r == some_step_has(steps@, field@),
{
    let mut i: usize = 0;
    while i < steps.len()
        invariant
            i <= steps@.len(),
            forall|j: int| 0 <= j < i ==> !(#[trigger] steps@[j]).output.model().contains_key(field@),
        decreases steps@.len() - i,
    {
        if steps[i].output.contains_key(field) {
            return true;
        }
        i = i + 1;
    }
    false
}

fn name_refs(names: &Vec<String>) -> (r: Vec<&str>)
    ensures
        r@.len() == names@.len(),
        forall|i: int| 0 <= i < r@.len() ==> (#[trigger] r@[i])@ == names@[i]@,
{
    let mut r: Vec<&str> = Vec::new();
    let mut i: usize = 0;
    while i < names.len()
        invariant
            i <= names@.len(),
            r@.len() == i,
            forall|j: int| 0 <= j < i ==> (#[trigger] r@[j])@ == names@[j]@,
        decreases names@.len() - i,
    {
        r.push(names[i].as_str());
        i = i + 1;
    }
    r
}

/// Plan a chain for `goal` over `all`, run it when the plan is feasible,
/// and check that every covered field appears in some step's output. An
/// infeasible plan is returned without running anything; a planned name
/// missing from `all` is an error, as `chain_by_names` reports it.
pub fn auto_execute(all: &[Microgram], dir: &str, goal: &CompositionGoal) -> (r: Result<AutoResult, String>)
    ensures
        match r {
            Ok(a) => {
                &&& is_plan(all@, *goal, a.plan)
                &&& match a.execution {
                    None => !a.plan.feasible && !a.verified,
                    Some(c) => a.plan.feasible && is_planned_run(all@, *goal, names_view(a.plan.chain@), a.plan.coverage@, c, a.verified),
                }
            },
            Err(e) => {
                let names = composed(producers(all@), goal.initial_input.model().dom()).chain;
                exists|k: int| #[trigger] first_gap(all@, names, k) && e@ == not_found_message(names[k], dir@)
            },
        },
{
    let start = clock_now();
    let plan = compose(all, goal);
    if !plan.feasible {
        return Ok(AutoResult { plan, execution: None, verified: false, duration_us: micros_since(&start) });
    }
    let result = match run_named(all, dir, &plan.chain, goal.initial_input.clone()) {
        Ok(c) => c,
        Err(e) => {
            return Err(e);
        },
    };
    let mut verified = true;
    let mut i: usize = 0;
    while i < plan.coverage.len()
        invariant
            i <= plan.coverage@.len(),
            verified == forall|j: int| 0 <= j < i ==> some_step_has(result.steps@, (#[trigger] plan.coverage@[j])@),
        decreases plan.coverage@.len() - i,
    {
        if !any_step_has(&result.steps, plan.coverage[i].as_str()) {
            verified = false;
        }
        i = i + 1;
    }
    let duration_us = micros_since(&start);
    Ok(AutoResult { plan, execution: Some(result), verified, duration_us })
}

/// `c` is the run of the chain named `names` over `all`, and `verified`
/// says whether every covered field appears in some step's output.
pub open spec fn is_planned_run(
    all: Seq<Microgram>,
    goal: CompositionGoal,
    names: Seq<Seq<char>>,
    coverage: Seq<String>,
    c: ChainResult,
    verified: bool,
) -> bool {
    let ms = names.map_values(|n: Seq<char>| all[first_named(all, n)]);
    &&& forall|i: int| 0 <= i < names.len() ==> first_named(all, #[trigger] names[i]) >= 0
    &&& is_chain_run(ms, goal.initial_input.model(), false, c.steps@)
    &&& verified == forall|i: int| 0 <= i < coverage.len() ==> some_step_has(c.steps@, (#[trigger] coverage[i])@)
}

/// `k` is the position of the first name of `names` that `all` lacks.
pub open spec fn first_gap(all: Seq<Microgram>, names: Seq<Seq<char>>, k: int) -> bool {
    &&& 0 <= k < names.len()
    &&& first_named(all, names[k]) < 0
    &&& forall|j: int| 0 <= j < k ==> first_named(all, #[trigger] names[j]) >= 0
}

proof fn lemma_first_missing(all: Seq<Microgram>, names: Seq<&str>, i: int)
    requires
        0 <= i < names.len(),
        first_named(all, names[i]@) < 0,
    ensures
        0 <= first_missing(all, names) < names.len(),
        first_named(all, names[first_missing(all, names)]@) < 0,
        forall|j: int| 0 <= j < first_missing(all, names) ==> first_named(all, #[trigger] names[j]@) >= 0,
    decreases i,
{
    if exists|j: int| 0 <= j < i && first_named(all, (#[trigger] names[j])@) < 0 {
        let j = choose|j: int| 0 <= j < i && first_named(all, (#[trigger] names[j])@) < 0;
        lemma_first_missing(all, names, j);
    } else {
        assert(0 <= i < names.len() && first_named(all, names[i]@) < 0 && forall|j: int|
            0 <= j < i ==> first_named(all, #[trigger] names[j]@) >= 0);
    }
}

/// Run the chain of micrograms named by `chain`, picked from `all`.
fn run_named(all: &[Microgram], dir: &str, chain: &Vec<String>, input: FieldMap) -> (r: Result<ChainResult, String>)
    ensures
        match r {
            Ok(c) => {
                let names = names_view(chain@);
                let ms = names.map_values(|n: Seq<char>| all@[first_named(all@, n)]);
                &&& forall|i: int| 0 <= i < names.len() ==> first_named(all@, #[trigger] names[i]) >= 0
                &&& is_chain_run(ms, input.model(), false, c.steps@)
            },
            Err(e) => exists|k: int| #[trigger] first_gap(all@, names_view(chain@), k) && e@ == not_found_message(
                names_view(chain@)[k],
                dir@,
            ),
        },
{
    let names = name_refs(chain);
    let ghost nv = names_view(chain@);
    match chain_by_names(all, dir, names.as_slice(), input) {
        Ok(c) => {
            proof {
                let m1 = names@.map_values(|n: &str| all@[first_named(all@, n@)]);
                let m2 = nv.map_values(|n: Seq<char>| all@[first_named(all@, n)]);
                assert forall|i: int| 0 <= i < nv.len() implies #[trigger] m1[i] == m2[i] by {
                    assert(names@[i]@ == nv[i]);
                }
                assert forall|i: int| 0 <= i < nv.len() implies first_named(all@, #[trigger] nv[i]) >= 0 by {
                    assert(names@[i]@ == nv[i]);
                }
                assert(m1 =~= m2);
            }
            Ok(c)
        },
        Err(e) => {
            proof {
                let i0 = choose|i: int| 0 <= i < names@.len() && first_named(all@, (#[trigger] names@[i])@) < 0;
                lemma_first_missing(all@, names@, i0);
                let k = first_missing(all@, names@);
                assert(first_gap(all@, nv, k)) by {
                    assert(nv[k] == chain@[k]@);
                    assert(nv[k] == names@[k]@);
                    assert forall|j: int| 0 <= j < k implies first_named(all@, #[trigger] nv[j]) >= 0 by {
                        assert(nv[j] == names@[j]@);
                    }
                }
            }
            Err(e)
        },
    }
}

// ───────────────────────────── alias resolution ─────────────────────────────

/// Entry `i` of `a`'s aliases names `o` as canonical and its alias is one of `b_inputs`.
pub open spec fn alias_hit(t: Seq<(String, String)>, o: Seq<char>, b_inputs: Seq<Seq<char>>, i: int) -> bool {
    live_alias(t, i) && t[i].1@ == o && b_inputs.contains(t[i].0@)
}

/// The input of B that output `o` of A feeds: `o` itself when B reads it;
/// else the canonical name B gives `o` as an alias, when B reads that; else
/// the first alias that A declares for `o` and B reads.
pub open spec fn resolved_input(
    o: Seq<char>,
    b_inputs: Seq<Seq<char>>,
    a_aliases: Seq<(String, String)>,
    b_aliases: Seq<(String, String)>,
) -> Option<Seq<char>> {
    let t = a_aliases;
    let bm = crate::strmap::pairs_model(b_aliases);
    if b_inputs.contains(o) {
        Some(o)
    } else if bm.contains_key(o) && b_inputs.contains(bm[o]@) {
        Some(bm[o]@)
    } else if exists|i: int| #[trigger] alias_hit(t, o, b_inputs, i) {
        let i = choose|i: int| #[trigger] alias_hit(t, o, b_inputs, i) && forall|j: int| 0 <= j < i ==> !alias_hit(t, o, b_inputs, j);
        Some(t[i].0@)
    } else {
        None
    }
}

/// The input of B that output `output_name` of A feeds, if any (see
/// [`resolved_input`]).
pub fn resolve_alias(
    output_name: &str,
    b_inputs: &[String],
    a_aliases: &StrMap<String>,
    b_aliases: &StrMap<String>,
) -> (r: Option<String>)
    ensures
        opt_string_view(r) == resolved_input(output_name@, names_view(b_inputs@), a_aliases.entries@, b_aliases.entries@),
{
    let ins = b_inputs;
    let ghost iv = names_view(b_inputs@);
    if contains_name(ins, output_name) {
        return Some(String::from_str(output_name));
    }
    match b_aliases.get(output_name) {
        Some(canonical) => {
            if contains_name(ins, canonical.as_str()) {
                return Some(canonical.clone());
            }
        },
        None => {},
    }
    let t = &a_aliases.entries;
    let ghost o = output_name@;
    proof {
        assert(names_view(ins@) == iv);
    }
    proof {
        assert(!iv.contains(o));
        assert(!(b_aliases.model().contains_key(o) && iv.contains(b_aliases.model()[o]@)));
    }
    let mut i: usize = 0;
    while i < t.len()
        invariant
            t == &a_aliases.entries,
            iv == names_view(b_inputs@),
            ins == b_inputs,
            o == output_name@,
            !iv.contains(o),
            !(b_aliases.model().contains_key(o) && iv.contains(b_aliases.model()[o]@)),
            i <= t@.len(),
            forall|j: int| 0 <= j < i ==> !alias_hit(t@, output_name@, iv, j),
        decreases t@.len() - i,
    {
        let live = last_position(t, t[i].0.as_str()) == Some(i);
        if live && str_eq(t[i].1.as_str(), output_name) && contains_name(ins, t[i].0.as_str()) {
            proof {
                assert(alias_hit(t@, output_name@, iv, i as int));
                let w = choose|w: int| #[trigger] alias_hit(t@, output_name@, iv, w) && forall|j: int|
                    0 <= j < w ==> !alias_hit(t@, output_name@, iv, j);
                if w < i {
                } else if w > i {
                    assert(!alias_hit(t@, output_name@, iv, i as int));
                }
            }
            return Some(t[i].0.clone());
        }
        i = i + 1;
    }
    proof {
        assert forall|j: int| !#[trigger] alias_hit(t@, output_name@, iv, j) by {
            if 0 <= j < i {
            }
        }
    }
    None
}

/// View of an optional string.
pub open spec fn opt_string_view(s: Option<String>) -> Option<Seq<char>> {
    match s {
        Some(x) => Some(x@),
        None => None,
    }
}

/// Some output of A feeds some input of B, directly or through aliases.
pub fn can_feed_with_aliases(
    a_outputs: &[String],
    b_inputs: &[String],
    a_aliases: &StrMap<String>,
    b_aliases: &StrMap<String>,
) -> (r: bool)
    ensures
        r == exists|i: int|
            0 <= i < a_outputs@.len() && (#[trigger] resolved_input(
                a_outputs@[i]@,
                names_view(b_inputs@),
                a_aliases.entries@,
                b_aliases.entries@,
            )) is Some,
{
    let mut i: usize = 0;
    while i < a_outputs.len()
        invariant
            i <= a_outputs@.len(),
            forall|j: int|
                0 <= j < i ==> (#[trigger] resolved_input(
                    a_outputs@[j]@,
                    names_view(b_inputs@),
                    a_aliases.entries@,
                    b_aliases.entries@,
                )) is None,
        decreases a_outputs@.len() - i,
    {
        if resolve_alias(a_outputs[i].as_str(), b_inputs, a_aliases, b_aliases).is_some() {
            return true;
        }
        i = i + 1;
    }
    false
}

} // verus!
