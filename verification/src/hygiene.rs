//! Vocabulary hygiene of an ordered chain: which declared inputs of each step
//! no earlier step (nor the initial input) provides.
//!
//! The fields available to step N are the initial input's, those that step 0
//! declares as outputs, and those declared as outputs by the checked steps
//! before N. A step is checked when it declares an interface with inputs;
//! its aliases make a canonical name available when the alias is.
use vstd::prelude::*;
use crate::value::FieldMap;
use crate::microgram::{Microgram, InterfaceField};
use crate::strmap::{StrMap, pairs_model, pair_last_index, live_positions, lemma_pairs_model_at, lemma_pair_last_index};
use crate::engine::names_view;
use crate::chain_checks::capped;

verus! {

/// An input field of a step that no earlier step provides.
#[derive(Debug, Clone)]
pub struct FieldGap {
    /// Position of the consumer in the chain.
    pub consumer_index: usize,
    pub consumer_name: String,
    /// The missing input field.
    pub field: String,
    /// Its declared type.
    pub field_type: String,
    /// Whether it is declared required.
    pub required: bool,
}

/// What one checked step is offered.
#[derive(Debug, Clone)]
pub struct BoundaryCounts {
    pub consumer_index: usize,
    pub consumer_name: String,
    /// Input fields the step declares.
    pub consumer_inputs: usize,
    /// Of those, the ones available.
    pub satisfied: usize,
    pub gaps: Vec<FieldGap>,
}

/// Hygiene of a whole chain, counted. Totals saturate at `usize::MAX`.
#[derive(Debug, Clone)]
pub struct HygieneCounts {
    /// No required field is missing anywhere.
    pub clean: bool,
    pub boundaries: Vec<BoundaryCounts>,
    pub total_gaps: usize,
    pub required_gaps: usize,
    pub total_inputs: usize,
    pub total_satisfied: usize,
}

/// The output fields a step declares.
pub open spec fn output_names(mg: Microgram) -> Set<Seq<char>> {
    match mg.interface {
        Some(f) => pairs_model(f.outputs.entries@).dom(),
        None => Set::empty(),
    }
}

/// A step is checked when it declares an interface with inputs.
pub open spec fn hygiene_checked(mg: Microgram) -> bool {
    mg.interface is Some && mg.interface->0.inputs.entries@.len() > 0
}

/// The fields available to step `i` (for `i >= 1`).
pub open spec fn hygiene_avail(mgs: Seq<Microgram>, init: Set<Seq<char>>, i: nat) -> Set<Seq<char>>
    decreases i,
{
    if i <= 1 {
        if mgs.len() > 0 {
            init.union(output_names(mgs[0]))
        } else {
            init
        }
    } else {
        let a = hygiene_avail(mgs, init, (i - 1) as nat);
        let m = mgs[i - 1];
        if hygiene_checked(m) {
            a.union(output_names(m))
        } else {
            a
        }
    }
}

/// The available fields plus the canonical names of the aliases that are available.
pub open spec fn effective_names(avail: Set<Seq<char>>, aliases: Map<Seq<char>, String>) -> Set<Seq<char>> {
    avail.union(Set::new(|c: Seq<char>| exists|a: Seq<char>| #[trigger] aliases.contains_key(a) && avail.contains(a) && aliases[a]@ == c))
}

/// The entry `j` of `s` gives its key its value.
pub open spec fn is_live(s: Seq<(String, InterfaceField)>, j: int) -> bool {
    pair_last_index(s, s[j].0@) == j
}

/// The missing fields among the first `n` entries: name, type, required.
pub open spec fn gap_views(s: Seq<(String, InterfaceField)>, eff: Set<Seq<char>>, n: int) -> Seq<(Seq<char>, Seq<char>, bool)>
    decreases n,
{
    if n <= 0 {
        Seq::empty()
    } else {
        let p = gap_views(s, eff, n - 1);
        let e = s[n - 1];
        if is_live(s, n - 1) && !eff.contains(e.0@) {
            p.push((e.0@, e.1.field_type@, e.1.required))
        } else {
            p
        }
    }
}

/// Number of available fields among the first `n` entries.
pub open spec fn satisfied_count(s: Seq<(String, InterfaceField)>, eff: Set<Seq<char>>, n: int) -> nat
    decreases n,
{
    if n <= 0 {
        0
    } else {
        satisfied_count(s, eff, n - 1) + if is_live(s, n - 1) && eff.contains(s[n - 1].0@) {
            1nat
        } else {
            0nat
        }
    }
}

/// A gap as plain values.
pub open spec fn gap_view(g: FieldGap) -> (Seq<char>, Seq<char>, bool) {
    (g.field@, g.field_type@, g.required)
}

/// What the counts of checked step `i` hold.
pub open spec fn is_boundary(mgs: Seq<Microgram>, init: Set<Seq<char>>, i: nat, b: BoundaryCounts) -> bool {
    let mg = mgs[i as int];
    let f = mg.interface->0;
    let s = f.inputs.entries@;
    let eff = effective_names(hygiene_avail(mgs, init, i), pairs_model(f.aliases.entries@));
    &&& b.consumer_index == i
    &&& b.consumer_name@ == mg.name@
    &&& b.consumer_inputs == live_positions(s, s.len() as int).len()
    &&& b.satisfied == satisfied_count(s, eff, s.len() as int)
    &&& b.gaps@.map_values(|g: FieldGap| gap_view(g)) == gap_views(s, eff, s.len() as int)
    &&& forall|k: int| 0 <= k < b.gaps@.len() ==> (#[trigger] b.gaps@[k]).consumer_index == i && b.gaps@[k].consumer_name@ == mg.name@
}

/// The checked steps among the first `n`, past the first step.
pub open spec fn checked_steps(mgs: Seq<Microgram>, n: int) -> Seq<nat>
    decreases n,
{
    if n <= 1 {
        Seq::empty()
    } else {
        let p = checked_steps(mgs, n - 1);
        if hygiene_checked(mgs[n - 1]) {
            p.push((n - 1) as nat)
        } else {
            p
        }
    }
}

/// Number of required gaps of a boundary.
pub open spec fn required_count(gs: Seq<FieldGap>) -> nat
    decreases gs.len(),
{
    if gs.len() == 0 {
        0
    } else {
        required_count(gs.drop_last()) + if gs[gs.len() - 1].required {
            1nat
        } else {
            0nat
        }
    }
}

/// Totals over boundaries, each saturating at `usize::MAX`: gaps, required
/// gaps, inputs, satisfied inputs.
pub open spec fn hygiene_totals(bs: Seq<BoundaryCounts>) -> (nat, nat, nat, nat)
    decreases bs.len(),
{
    if bs.len() == 0 {
        (0, 0, 0, 0)
    } else {
        let t = hygiene_totals(bs.drop_last());
        let b = bs[bs.len() - 1];
        (
            capped(t.0 + b.gaps@.len()),
            capped(t.1 + required_count(b.gaps@)),
            capped(t.2 + b.consumer_inputs as nat),
            capped(t.3 + b.satisfied as nat),
        )
    }
}

/// What the hygiene of a chain holds.
pub open spec fn is_hygiene(mgs: Seq<Microgram>, init: Set<Seq<char>>, r: HygieneCounts) -> bool {
    let cs = checked_steps(mgs, mgs.len() as int);
    let t = hygiene_totals(r.boundaries@);
    &&& r.boundaries@.len() == cs.len()
    &&& forall|k: int| 0 <= k < cs.len() ==> is_boundary(mgs, init, cs[k], #[trigger] r.boundaries@[k])
    &&& r.total_gaps == t.0
    &&& r.required_gaps == t.1
    &&& r.total_inputs == t.2
    &&& r.total_satisfied == t.3
    &&& r.clean == (r.required_gaps == 0)
}

/// `names` holds exactly the set `s`.
pub open spec fn holds_set(names: Seq<Seq<char>>, s: Set<Seq<char>>) -> bool {
    forall|x: Seq<char>| #[trigger] names.contains(x) <==> s.contains(x)
}

/// Append the keys of `m` to `names`.
fn add_keys<V>(names: &mut Vec<String>, m: &StrMap<V>)
    ensures
        forall|x: Seq<char>| #[trigger] names_view(final(names)@).contains(x) <==> (names_view(old(names)@).contains(x)
            || pairs_model(m.entries@).contains_key(x)),
{
    let ghost start = names_view(names@);
    let mut i: usize = 0;
    while i < m.entries.len()
        invariant
            i <= m.entries@.len(),
            forall|x: Seq<char>| #[trigger] names_view(names@).contains(x) <==> (start.contains(x) || exists|j: int|
                0 <= j < i && m.entries@[j].0@ == x),
        decreases m.entries@.len() - i,
    {
        let ghost before = names_view(names@);
        names.push(m.entries[i].0.clone());
        proof {
            assert(names_view(names@) =~= before.push(m.entries@[i as int].0@));
            assert forall|x: Seq<char>| #[trigger] names_view(names@).contains(x) <==> (start.contains(x) || exists|j: int|
                0 <= j < i + 1 && m.entries@[j].0@ == x) by {
                if names_view(names@).contains(x) {
                    let k = choose|k: int| 0 <= k < names_view(names@).len() && names_view(names@)[k] == x;
                    if k < before.len() {
                        assert(before[k] == x);
                    }
                }
                if before.contains(x) {
                    let k = choose|k: int| 0 <= k < before.len() && before[k] == x;
                    assert(names_view(names@)[k] == x);
                }
                if exists|j: int| 0 <= j < i + 1 && m.entries@[j].0@ == x {
                    let j = choose|j: int| 0 <= j < i + 1 && m.entries@[j].0@ == x;
                    if j == i {
                        assert(names_view(names@)[before.len() as int] == x);
                    }
                }
            }
        }
        i = i + 1;
    }
    proof {
        assert forall|x: Seq<char>| #[trigger] names_view(names@).contains(x) <==> (start.contains(x) || pairs_model(
            m.entries@,
        ).contains_key(x)) by {
            lemma_pairs_model_at(m.entries@, x);
            lemma_pair_last_index(m.entries@, x);
            if exists|j: int| 0 <= j < m.entries@.len() && m.entries@[j].0@ == x {
                let j = choose|j: int| 0 <= j < m.entries@.len() && m.entries@[j].0@ == x;
                assert(pair_last_index(m.entries@, x) >= 0);
            }
            if pair_last_index(m.entries@, x) >= 0 {
                let p = pair_last_index(m.entries@, x);
                assert(m.entries@[p].0@ == x);
            }
        }
    }
}

/// The fields available plus the canonical names of available aliases.
fn effective_of(avail: &Vec<String>, aliases: &StrMap<String>) -> (r: Vec<String>)
    ensures
        forall|x: Seq<char>| #[trigger] names_view(r@).contains(x) <==> effective_names(
            names_view(avail@).to_set(),
            pairs_model(aliases.entries@),
        ).contains(x),
{
    let ghost av = names_view(avail@);
    let ghost am = pairs_model(aliases.entries@);
    let mut r = crate::chain_loop::copy_names(avail);
    let mut i: usize = 0;
    while i < aliases.entries.len()
        invariant
            av == names_view(avail@),
            am == pairs_model(aliases.entries@),
            i <= aliases.entries@.len(),
            forall|x: Seq<char>| #[trigger] names_view(r@).contains(x) <==> (av.contains(x) || exists|j: int|
                0 <= j < i && pair_last_index(aliases.entries@, aliases.entries@[j].0@) == j && av.contains(
                    aliases.entries@[j].0@,
                ) && aliases.entries@[j].1@ == x),
        decreases aliases.entries@.len() - i,
    {
        let alias = aliases.entries[i].0.as_str();
        let live = match aliases.position(alias) {
            Some(p) => p == i,
            None => false,
        };
        let ghost before = names_view(r@);
        if live && crate::interface::contains_name(avail.as_slice(), alias) {
            r.push(aliases.entries[i].1.clone());
            proof {
                assert(names_view(r@) =~= before.push(aliases.entries@[i as int].1@));
            }
        }
        proof {
            assert forall|x: Seq<char>| #[trigger] names_view(r@).contains(x) <==> (av.contains(x) || exists|j: int|
                0 <= j < i + 1 && pair_last_index(aliases.entries@, aliases.entries@[j].0@) == j && av.contains(
                    aliases.entries@[j].0@,
                ) && aliases.entries@[j].1@ == x) by {
                if names_view(r@).contains(x) && !before.contains(x) {
                    let k = choose|k: int| 0 <= k < names_view(r@).len() && names_view(r@)[k] == x;
                    if k < before.len() {
                        assert(before[k] == x);
                    }
                }
                if before.contains(x) {
                    let k = choose|k: int| 0 <= k < before.len() && before[k] == x;
                    assert(names_view(r@)[k] == x);
                }
                if exists|j: int|
                    0 <= j < i + 1 && pair_last_index(aliases.entries@, aliases.entries@[j].0@) == j && av.contains(
                        aliases.entries@[j].0@,
                    ) && aliases.entries@[j].1@ == x {
                    let j = choose|j: int|
                        0 <= j < i + 1 && pair_last_index(aliases.entries@, aliases.entries@[j].0@) == j && av.contains(
                            aliases.entries@[j].0@,
                        ) && aliases.entries@[j].1@ == x;
                    if j == i {
                        assert(names_view(r@)[before.len() as int] == x);
                    }
                }
            }
        }
        i = i + 1;
    }
    proof {
        assert forall|x: Seq<char>| #[trigger] names_view(r@).contains(x) <==> effective_names(av.to_set(), am).contains(x) by {
            if exists|j: int|
                0 <= j < aliases.entries@.len() && pair_last_index(aliases.entries@, aliases.entries@[j].0@) == j
                    && av.contains(aliases.entries@[j].0@) && aliases.entries@[j].1@ == x {
                let j = choose|j: int|
                    0 <= j < aliases.entries@.len() && pair_last_index(aliases.entries@, aliases.entries@[j].0@) == j
                        && av.contains(aliases.entries@[j].0@) && aliases.entries@[j].1@ == x;
                let a = aliases.entries@[j].0@;
                lemma_pairs_model_at(aliases.entries@, a);
                assert(am.contains_key(a) && av.to_set().contains(a) && am[a]@ == x);
            }
            if exists|a: Seq<char>| #[trigger] am.contains_key(a) && av.to_set().contains(a) && am[a]@ == x {
                let a = choose|a: Seq<char>| #[trigger] am.contains_key(a) && av.to_set().contains(a) && am[a]@ == x;
                lemma_pairs_model_at(aliases.entries@, a);
                lemma_pair_last_index(aliases.entries@, a);
                let j = pair_last_index(aliases.entries@, a);
                assert(aliases.entries@[j].0@ == a);
            }
        }
    }
    r
}


/// Append the field names of `m` to `names`.
fn add_field_names(names: &mut Vec<String>, m: &FieldMap)
    ensures
        forall|x: Seq<char>| #[trigger] names_view(final(names)@).contains(x) <==> (names_view(old(names)@).contains(x)
            || m.model().contains_key(x)),
{
    let ghost start = names_view(names@);
    let mut i: usize = 0;
    while i < m.entries.len()
        invariant
            i <= m.entries@.len(),
            forall|x: Seq<char>| #[trigger] names_view(names@).contains(x) <==> (start.contains(x) || exists|j: int|
                0 <= j < i && m.entries@[j].0@ == x),
        decreases m.entries@.len() - i,
    {
        let ghost before = names_view(names@);
        names.push(m.entries[i].0.clone());
        proof {
            assert(names_view(names@) =~= before.push(m.entries@[i as int].0@));
            assert forall|x: Seq<char>| #[trigger] names_view(names@).contains(x) <==> (start.contains(x) || exists|j: int|
                0 <= j < i + 1 && m.entries@[j].0@ == x) by {
                if names_view(names@).contains(x) {
                    let k = choose|k: int| 0 <= k < names_view(names@).len() && names_view(names@)[k] == x;
                    if k < before.len() {
                        assert(before[k] == x);
                    }
                }
                if before.contains(x) {
                    let k = choose|k: int| 0 <= k < before.len() && before[k] == x;
                    assert(names_view(names@)[k] == x);
                }
                if exists|j: int| 0 <= j < i + 1 && m.entries@[j].0@ == x {
                    let j = choose|j: int| 0 <= j < i + 1 && m.entries@[j].0@ == x;
                    if j == i {
                        assert(names_view(names@)[before.len() as int] == x);
                    }
                }
            }
        }
        i = i + 1;
    }
    proof {
        assert forall|x: Seq<char>| #[trigger] names_view(names@).contains(x) <==> (start.contains(x) || m.model().contains_key(x)) by {
            crate::value::lemma_entries_model_at(m.entries@, x);
            crate::value::lemma_last_index(m.entries@, x);
            if exists|j: int| 0 <= j < m.entries@.len() && m.entries@[j].0@ == x {
                let j = choose|j: int| 0 <= j < m.entries@.len() && m.entries@[j].0@ == x;
                assert(crate::value::last_index(m.entries@, x) >= 0);
            }
            if crate::value::last_index(m.entries@, x) >= 0 {
                let p = crate::value::last_index(m.entries@, x);
                assert(m.entries@[p].0@ == x);
            }
        }
    }
}

/// The counts of checked step `i` given the available fields, and its
/// number of required gaps.
fn boundary_of(mg: &Microgram, i: usize, avail: &Vec<String>) -> (r: (BoundaryCounts, usize))
    requires
        hygiene_checked(*mg),
    ensures
        ({
            let f = mg.interface->0;
            let s = f.inputs.entries@;
            let eff = effective_names(names_view(avail@).to_set(), pairs_model(f.aliases.entries@));
            let b = r.0;
            &&& b.consumer_index == i
            &&& b.consumer_name@ == mg.name@
            &&& b.consumer_inputs == live_positions(s, s.len() as int).len()
            &&& b.satisfied == satisfied_count(s, eff, s.len() as int)
            &&& b.gaps@.map_values(|g: FieldGap| gap_view(g)) == gap_views(s, eff, s.len() as int)
            &&& forall|k: int| 0 <= k < b.gaps@.len() ==> (#[trigger] b.gaps@[k]).consumer_index == i && b.gaps@[k].consumer_name@ == mg.name@
            &&& r.1 == required_count(b.gaps@)
        }),
{
    let f = match &mg.interface {
        Some(f) => f,
        None => {
            proof {
                assert(false);
            }
            return (BoundaryCounts { consumer_index: i, consumer_name: String::new(), consumer_inputs: 0, satisfied: 0, gaps: Vec::new() }, 0);
        },
    };
    let eff = effective_of(avail, &f.aliases);
    let ghost effs = effective_names(names_view(avail@).to_set(), pairs_model(f.aliases.entries@));
    let ghost s = f.inputs.entries@;
    let mut gaps: Vec<FieldGap> = Vec::new();
    let mut inputs: usize = 0;
    let mut satisfied: usize = 0;
    let mut required: usize = 0;
    let mut j: usize = 0;
    while j < f.inputs.entries.len()
        invariant
            s == f.inputs.entries@,
            j <= s.len(),
            forall|x: Seq<char>| #[trigger] names_view(eff@).contains(x) <==> effs.contains(x),
            inputs == live_positions(s, j as int).len(),
            inputs <= j,
            satisfied == satisfied_count(s, effs, j as int),
            satisfied <= j,
            gaps@.map_values(|g: FieldGap| gap_view(g)) == gap_views(s, effs, j as int),
            gaps@.len() <= j,
            forall|k: int| 0 <= k < gaps@.len() ==> (#[trigger] gaps@[k]).consumer_index == i && gaps@[k].consumer_name@ == mg.name@,
            required == required_count(gaps@),
            required <= gaps@.len(),
        decreases s.len() - j,
    {
        let key = f.inputs.entries[j].0.as_str();
        let live = match f.inputs.position(key) {
            Some(p) => p == j,
            None => false,
        };
        proof {
            assert(is_live(s, j as int) == live);
        }
        if live {
            inputs = inputs + 1;
            if crate::interface::contains_name(eff.as_slice(), key) {
                satisfied = satisfied + 1;
            } else {
                let spec = &f.inputs.entries[j].1;
                let g = FieldGap {
                    consumer_index: i,
                    consumer_name: mg.name.clone(),
                    field: String::from_str(key),
                    field_type: spec.field_type.clone(),
                    required: spec.required,
                };
                if spec.required {
                    required = required + 1;
                }
                let ghost before = gaps@;
                gaps.push(g);
                proof {
                    assert(gaps@.drop_last() =~= before);
                    assert(gaps@.map_values(|g: FieldGap| gap_view(g)) =~= before.map_values(|g: FieldGap| gap_view(g)).push(
                        gap_view(g),
                    ));
                }
            }
        }
        j = j + 1;
    }
    (BoundaryCounts { consumer_index: i, consumer_name: mg.name.clone(), consumer_inputs: inputs, satisfied, gaps }, required)
}

/// Check the vocabulary hygiene of an ordered chain run on `initial_input`:
/// for every checked step past the first, which of its declared inputs are
/// available, by name or through one of its aliases.
pub fn check_chain_hygiene(micrograms: &[Microgram], initial_input: &FieldMap) -> (r: HygieneCounts)
    ensures
        is_hygiene(micrograms@, initial_input.model().dom(), r),
{
    let refs = crate::chain::as_refs(micrograms);
    proof {
        assert(crate::chain::derefs(refs@) =~= micrograms@);
    }
    check_chain_hygiene_refs(&refs, initial_input)
}

/// Hygiene over references: see [`check_chain_hygiene`].
fn check_chain_hygiene_refs(micrograms: &Vec<&Microgram>, initial_input: &FieldMap) -> (r: HygieneCounts)
    ensures
        is_hygiene(crate::chain::derefs(micrograms@), initial_input.model().dom(), r),
{
    let ghost mgs = crate::chain::derefs(micrograms@);
    let ghost init = initial_input.model().dom();
    let mut avail: Vec<String> = Vec::new();
    add_field_names(&mut avail, initial_input);
    if micrograms.len() > 0 {
        match &micrograms[0].interface {
            Some(f) => add_keys(&mut avail, &f.outputs),
            None => {},
        }
    }
    proof {
        assert(holds_set(names_view(avail@), hygiene_avail(mgs, init, 1)));
    }
    let mut boundaries: Vec<BoundaryCounts> = Vec::new();
    let mut total_gaps: usize = 0;
    let mut required_gaps: usize = 0;
    let mut total_inputs: usize = 0;
    let mut total_satisfied: usize = 0;
    let mut i: usize = 1;
    while i < micrograms.len()
        invariant
            mgs == crate::chain::derefs(micrograms@),
            mgs.len() == micrograms@.len(),
            1 <= i,
            i <= mgs.len() || mgs.len() == 0,
            mgs.len() == 0 ==> i == 1,
            holds_set(names_view(avail@), hygiene_avail(mgs, init, i as nat)),
            boundaries@.len() == checked_steps(mgs, i as int).len(),
            forall|k: int| 0 <= k < boundaries@.len() ==> is_boundary(mgs, init, checked_steps(mgs, i as int)[k], #[trigger] boundaries@[k]),
            (total_gaps as nat, required_gaps as nat, total_inputs as nat, total_satisfied as nat) == hygiene_totals(boundaries@),
        decreases mgs.len() - i,
    {
        let mg: &Microgram = micrograms[i];
        let checked = match &mg.interface {
            Some(f) => f.inputs.entries.len() > 0,
            None => false,
        };
        proof {
            assert(checked == hygiene_checked(mgs[i as int]));
        }
        if checked {
            proof {
                assert(names_view(avail@).to_set() =~= hygiene_avail(mgs, init, i as nat));
            }
            let (b, req) = boundary_of(mg, i, &avail);
            total_gaps = total_gaps.saturating_add(b.gaps.len());
            required_gaps = required_gaps.saturating_add(req);
            total_inputs = total_inputs.saturating_add(b.consumer_inputs);
            total_satisfied = total_satisfied.saturating_add(b.satisfied);
            let ghost before = boundaries@;
            boundaries.push(b);
            match &mg.interface {
                Some(f) => add_keys(&mut avail, &f.outputs),
                None => {},
            }
            proof {
                assert(boundaries@.drop_last() =~= before);
                assert(checked_steps(mgs, i + 1) == checked_steps(mgs, i as int).push(i as nat));
                assert forall|k: int| 0 <= k < boundaries@.len() implies is_boundary(
                    mgs,
                    init,
                    checked_steps(mgs, i + 1)[k],
                    #[trigger] boundaries@[k],
                ) by {
                    if k < before.len() {
                        assert(boundaries@[k] == before[k]);
                    }
                }
                assert(holds_set(names_view(avail@), hygiene_avail(mgs, init, (i + 1) as nat)));
            }
        } else {
            proof {
                assert(checked_steps(mgs, i + 1) == checked_steps(mgs, i as int));
            }
        }
        i = i + 1;
    }
    proof {
        if mgs.len() > 0 {
            assert(i == mgs.len());
        } else {
            assert(checked_steps(mgs, 0) == Seq::<nat>::empty());
            assert(checked_steps(mgs, 1) == Seq::<nat>::empty());
        }
    }
    let clean = required_gaps == 0;
    let r = HygieneCounts { clean, boundaries, total_gaps, required_gaps, total_inputs, total_satisfied };
    r
}


/// Load-free `check_chain_hygiene_by_names`: pick the named micrograms from
/// `all` (the first missing one is an error naming `dir`) and check them.
pub fn check_chain_hygiene_by_names(all: &[Microgram], dir: &str, names: &[&str], initial_input: &FieldMap) -> (r: Result<
    HygieneCounts,
    String,
>)
    ensures
        match r {
            Ok(h) => {
                &&& forall|i: int| 0 <= i < names@.len() ==> crate::chain::first_named(all@, (#[trigger] names@[i])@) >= 0
                &&& is_hygiene(crate::chain::named_sequence(all@, names@), initial_input.model().dom(), h)
            },
            Err(e) => {
                &&& exists|i: int| 0 <= i < names@.len() && crate::chain::first_named(all@, (#[trigger] names@[i])@) < 0
                &&& e@ == crate::chain::not_found_message(names@[crate::chain::first_missing(all@, names@)]@, dir@)
            },
        },
{
    match crate::chain::select_named(all, dir, names) {
        Ok(refs) => {
            proof {
                assert(crate::chain::derefs(refs@) =~= crate::chain::named_sequence(all@, names@));
            }
            Ok(check_chain_hygiene_refs(&refs, initial_input))
        },
        Err(e) => Err(e),
    }
}

} // verus!
