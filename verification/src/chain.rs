//! Chains of micrograms: the output of one step becomes the input of the next.
use vstd::prelude::*;
use crate::value::{
    Value, ValueModel, FieldMap, entries_model, last_index, lemma_entries_model_at, lemma_last_index,
    str_eq,
};
use crate::microgram::{Microgram, MicrogramResult, step_output, step_succeeds, is_step_result};
use crate::engine::names_view;
use crate::text::{seq_starts_with, starts_with};

verus! {

// ───────────────────────────── aliases ─────────────────────────────

/// Apply alias entries in order: an alias present in the map fills its
/// canonical name when that name is absent. Present names are never replaced.
pub open spec fn alias_fold(m: Map<Seq<char>, ValueModel>, aliases: Seq<(String, String)>) -> Map<Seq<char>, ValueModel>
    decreases aliases.len(),
{
    if aliases.len() == 0 {
        m
    } else {
        let m0 = alias_fold(m, aliases.drop_last());
        let a = aliases[aliases.len() - 1].0@;
        let c = aliases[aliases.len() - 1].1@;
        if m0.contains_key(a) && !m0.contains_key(c) {
            m0.insert(c, m0[a])
        } else {
            m0
        }
    }
}

/// The input a microgram sees after its declared aliases are applied.
pub open spec fn with_aliases(m: Map<Seq<char>, ValueModel>, mg: Microgram) -> Map<Seq<char>, ValueModel> {
    alias_fold(m, alias_entries(mg))
}

/// The alias entries a microgram declares (none without an interface).
pub open spec fn alias_entries(mg: Microgram) -> Seq<(String, String)> {
    match mg.interface {
        None => Seq::empty(),
        Some(iface) => iface.aliases.entries@,
    }
}

/// Applying aliases only adds names: every value present before keeps its value.
pub proof fn lemma_alias_fold_keeps(m: Map<Seq<char>, ValueModel>, aliases: Seq<(String, String)>)
    ensures
        forall|k: Seq<char>| #[trigger] m.contains_key(k) ==> alias_fold(m, aliases).contains_key(k)
            && alias_fold(m, aliases)[k] == m[k],
    decreases aliases.len(),
{
    if aliases.len() > 0 {
        lemma_alias_fold_keeps(m, aliases.drop_last());
    }
}

/// Aliases only fill canonical names: with no aliases nothing changes; a
/// name that applying `aliases` adds is the canonical name of one of them;
/// and every alias present beforehand has its canonical name present after.
pub proof fn lemma_alias_fold_fills(m: Map<Seq<char>, ValueModel>, aliases: Seq<(String, String)>)
    ensures
        aliases.len() == 0 ==> alias_fold(m, aliases) == m,
        forall|k: Seq<char>|
            #[trigger] alias_fold(m, aliases).contains_key(k) && !m.contains_key(k) ==> exists|i: int|
                0 <= i < aliases.len() && (#[trigger] aliases[i]).1@ == k,
        forall|i: int|
            0 <= i < aliases.len() && m.contains_key((#[trigger] aliases[i]).0@) ==> alias_fold(m, aliases).contains_key(
                aliases[i].1@,
            ),
    decreases aliases.len(),
{
    if aliases.len() > 0 {
        let prev = aliases.drop_last();
        lemma_alias_fold_fills(m, prev);
        lemma_alias_fold_keeps(m, prev);
        let m0 = alias_fold(m, prev);
        let n = aliases.len() - 1;
        assert forall|k: Seq<char>| #[trigger] alias_fold(m, aliases).contains_key(k) && !m.contains_key(k) implies exists|i: int|
            0 <= i < aliases.len() && (#[trigger] aliases[i]).1@ == k by {
            if m0.contains_key(k) {
                let i = choose|i: int| 0 <= i < prev.len() && (#[trigger] prev[i]).1@ == k;
                assert(aliases[i] == prev[i]);
            } else {
                assert(aliases[n].1@ == k);
            }
        }
        assert forall|i: int| 0 <= i < aliases.len() && m.contains_key((#[trigger] aliases[i]).0@) implies alias_fold(
            m,
            aliases,
        ).contains_key(aliases[i].1@) by {
            if i < n {
                assert(aliases[i] == prev[i]);
            }
        }
    }
}

/// For each alias declared by `target`: when the input holds the alias but not
/// its canonical name, copy the value to the canonical name.
pub fn apply_aliases(input: &mut FieldMap, target: &Microgram)
    ensures
        final(input).model() == with_aliases(old(input).model(), *target),
        forall|k: Seq<char>| #[trigger] old(input).model().contains_key(k) ==> final(input).model().contains_key(k)
            && final(input).model()[k] == old(input).model()[k],
{
    proof {
        lemma_alias_fold_keeps(input.model(), alias_entries(*target));
    }
    match &target.interface {
        None => {},
        Some(iface) => {
            let aliases = &iface.aliases.entries;
            let ghost start = input.model();
            let mut i: usize = 0;
            while i < aliases.len()
                invariant
                    i <= aliases@.len(),
                    input.model() == alias_fold(start, aliases@.subrange(0, i as int)),
                decreases aliases@.len() - i,
            {
                proof {
                    assert(aliases@.subrange(0, i + 1).drop_last() =~= aliases@.subrange(0, i as int));
                }
                let alias = aliases[i].0.as_str();
                let canonical = aliases[i].1.as_str();
                if input.contains_key(alias) && !input.contains_key(canonical) {
                    let v = match input.get(alias) {
                        Some(v) => v.clone(),
                        None => Value::Null,
                    };
                    input.insert(aliases[i].1.clone(), v);
                }
                i = i + 1;
            }
            proof {
                assert(aliases@.subrange(0, aliases@.len() as int) =~= aliases@);
            }
        },
    }
}

// ───────────────────────────── plain chains ─────────────────────────────

/// Result of chaining micrograms.
#[derive(Debug)]
pub struct ChainResult {
    pub success: bool,
    pub steps: Vec<MicrogramResult>,
    pub final_output: FieldMap,
    pub total_duration_us: u64,
}

/// Input of step `k` of a plain chain (after aliases): the initial input for
/// the first step, the previous step's output afterwards.
pub open spec fn chain_input(mgs: Seq<Microgram>, init: Map<Seq<char>, ValueModel>, k: nat, strict: bool) -> Map<
    Seq<char>,
    ValueModel,
>
    decreases k,
{
    if k == 0 {
        with_aliases(init, mgs[0])
    } else {
        with_aliases(
            step_output(mgs[k - 1], chain_input(mgs, init, (k - 1) as nat, strict), strict),
            mgs[k as int],
        )
    }
}

/// What a plain chain's steps hold: each step ran on the previous output, all
/// but the last succeeded, and the chain stops only at a failed step.
pub open spec fn is_chain_run(
    mgs: Seq<Microgram>,
    init: Map<Seq<char>, ValueModel>,
    strict: bool,
    steps: Seq<MicrogramResult>,
) -> bool {
    &&& steps.len() <= mgs.len()
    &&& forall|i: int| 0 <= i < steps.len() ==> is_step_result(mgs[i], chain_input(mgs, init, i as nat, strict), strict, #[trigger] steps[i])
    &&& forall|i: int| 0 <= i < steps.len() - 1 ==> (#[trigger] steps[i]).success
    &&& steps.len() < mgs.len() ==> steps.len() > 0 && !steps[steps.len() - 1].success
}

/// The saturating sum of the steps' durations.
pub open spec fn steps_duration(s: Seq<MicrogramResult>) -> int
    decreases s.len(),
{
    if s.len() == 0 {
        0
    } else {
        crate::pipe::sat_add(steps_duration(s.drop_last()), s.last().duration_us as int)
    }
}

/// The saturating sum of two durations.
pub fn add_duration(a: u64, b: u64) -> (r: u64)
    ensures
        r == if a + b > u64::MAX {
            u64::MAX as int
        } else {
            a + b
        },
{
    a.saturating_add(b)
}

/// The micrograms of a slice, as references.
pub fn as_refs(mgs: &[Microgram]) -> (r: Vec<&Microgram>)
    ensures
        r@.len() == mgs@.len(),
        forall|i: int| 0 <= i < mgs@.len() ==> *#[trigger] r@[i] == mgs@[i],
{
    let mut r: Vec<&Microgram> = Vec::new();
    let mut i: usize = 0;
    while i < mgs.len()
        invariant
            i <= mgs@.len(),
            r@.len() == i,
            forall|j: int| 0 <= j < i ==> *#[trigger] r@[j] == mgs@[j],
        decreases mgs@.len() - i,
    {
        r.push(&mgs[i]);
        i = i + 1;
    }
    r
}

/// The micrograms behind a sequence of references.
pub open spec fn derefs(s: Seq<&Microgram>) -> Seq<Microgram> {
    s.map_values(|m: &Microgram| *m)
}

/// Chain over references: see [`chain`].
#[verifier::loop_isolation(false)]
pub fn chain_refs(mgs: &Vec<&Microgram>, initial_input: FieldMap, strict: bool) -> (r: ChainResult)
    ensures
        is_chain_run(derefs(mgs@), initial_input.model(), strict, r.steps@),
        r.success == (r.steps@.len() == mgs@.len() && (r.steps@.len() > 0 ==> r.steps@[r.steps@.len() - 1].success)),
        r.final_output.model() == if r.steps@.len() == 0 {
            Map::<Seq<char>, ValueModel>::empty()
        } else {
            r.steps@[r.steps@.len() - 1].output.model()
        },
        r.total_duration_us == steps_duration(r.steps@),
{
    let ghost ms = derefs(mgs@);
    let ghost init = initial_input.model();
    let mut current = initial_input;
    let mut steps: Vec<MicrogramResult> = Vec::new();
    let mut total_us: u64 = 0;
    let mut i: usize = 0;
    while i < mgs.len()
        invariant
            ms == derefs(mgs@),
            ms.len() == mgs@.len(),
            i <= mgs@.len(),
            steps@.len() == i,
            total_us == steps_duration(steps@),
            forall|j: int| 0 <= j < i ==> is_step_result(ms[j], chain_input(ms, init, j as nat, strict), strict, #[trigger] steps@[j]),
            forall|j: int| 0 <= j < i ==> (#[trigger] steps@[j]).success,
            i == 0 ==> current.model() == init,
            i > 0 ==> current.model() == step_output(ms[i - 1], chain_input(ms, init, (i - 1) as nat, strict), strict),
        decreases mgs@.len() - i,
    {
        let mg: &Microgram = mgs[i];
        apply_aliases(&mut current, mg);
        proof {
            assert(ms[i as int] == *mg);
            assert(current.model() == chain_input(ms, init, i as nat, strict));
        }
        let result = mg.run_step(current, strict);
        total_us = add_duration(total_us, result.duration_us);
        if !result.success {
            let final_output = result.output.clone();
            let ghost before = steps@;
            steps.push(result);
            proof {
                assert(steps@.drop_last() =~= before);
                assert forall|j: int| 0 <= j < steps@.len() implies is_step_result(ms[j], chain_input(ms, init, j as nat, strict), strict, #[trigger] steps@[j]) by {
                    if j < i {
                        assert(steps@[j] == before[j]);
                    }
                }
                assert forall|j: int| 0 <= j < steps@.len() - 1 implies (#[trigger] steps@[j]).success by {
                    assert(steps@[j] == before[j]);
                }
            }
            return ChainResult { success: false, steps, final_output, total_duration_us: total_us };
        }
        current = result.output.clone();
        let ghost before = steps@;
        steps.push(result);
        proof {
            assert(steps@.drop_last() =~= before);
        }
        i = i + 1;
    }
    let final_output = if steps.len() > 0 {
        steps[steps.len() - 1].output.clone()
    } else {
        FieldMap::new()
    };
    ChainResult { success: true, steps, final_output, total_duration_us: total_us }
}

/// Chain micrograms: the output of step N becomes the input of step N+1, after
/// the aliases declared by step N+1 are applied. The chain stops at the first
/// step that fails; with `strict`, a step first validates its required inputs.
pub fn chain(micrograms: &[Microgram], initial_input: FieldMap, strict: bool) -> (r: ChainResult)
    ensures
        is_chain_run(micrograms@, initial_input.model(), strict, r.steps@),
        r.success == (r.steps@.len() == micrograms@.len() && (r.steps@.len() > 0 ==> r.steps@[r.steps@.len()
            - 1].success)),
        r.final_output.model() == if r.steps@.len() == 0 {
            Map::<Seq<char>, ValueModel>::empty()
        } else {
            r.steps@[r.steps@.len() - 1].output.model()
        },
        r.total_duration_us == steps_duration(r.steps@),
{
    let refs = as_refs(micrograms);
    proof {
        assert(derefs(refs@) =~= micrograms@);
    }
    chain_refs(&refs, initial_input, strict)
}

// ───────────────────────────── lookup by name ─────────────────────────────

/// Index of the first microgram named `name`, or -1.
pub open spec fn first_named(all: Seq<Microgram>, name: Seq<char>) -> int
    decreases all.len(),
{
    if all.len() == 0 {
        -1
    } else if all[0].name@ == name {
        0
    } else {
        let r = first_named(all.drop_first(), name);
        if r < 0 {
            -1
        } else {
            r + 1
        }
    }
}

pub proof fn lemma_first_named(all: Seq<Microgram>, name: Seq<char>)
    ensures
        -1 <= first_named(all, name) < all.len(),
        first_named(all, name) >= 0 ==> all[first_named(all, name)].name@ == name,
        forall|i: int| 0 <= i < all.len() && (first_named(all, name) < 0 || i < first_named(all, name)) ==> (
        #[trigger] all[i]).name@ != name,
    decreases all.len(),
{
    if all.len() > 0 && all[0].name@ != name {
        lemma_first_named(all.drop_first(), name);
        assert forall|i: int| 0 < i < all.len() implies all.drop_first()[i - 1] == all[i] by {}
    }
}

/// The first microgram named `name`.
pub fn find_named<'a>(all: &'a [Microgram], name: &str) -> (r: Option<&'a Microgram>)
    ensures
        r is None == (first_named(all@, name@) < 0),
        r is Some ==> *r->0 == all@[first_named(all@, name@)],
{
    proof {
        lemma_first_named(all@, name@);
    }
    let mut i: usize = 0;
    while i < all.len()
        invariant
            i <= all@.len(),
            forall|j: int| 0 <= j < i ==> (#[trigger] all@[j]).name@ != name@,
            -1 <= first_named(all@, name@) < all@.len(),
            first_named(all@, name@) >= 0 ==> all@[first_named(all@, name@)].name@ == name@,
            forall|j: int| 0 <= j < all@.len() && (first_named(all@, name@) < 0 || j < first_named(all@, name@)) ==> (
            #[trigger] all@[j]).name@ != name@,
        decreases all@.len() - i,
    {
        if str_eq(all[i].name.as_str(), name) {
            return Some(&all[i]);
        }
        i = i + 1;
    }
    None
}

/// The error for a name that no microgram carries.
pub open spec fn not_found_message(name: Seq<char>, dir: Seq<char>) -> Seq<char> {
    "Microgram '"@ + name + "' not found in "@ + dir
}

/// Index of the first name without a microgram, or -1.
pub open spec fn first_missing(all: Seq<Microgram>, names: Seq<&str>) -> int {
    if exists|i: int| 0 <= i < names.len() && first_named(all, names[i]@) < 0 {
        choose|i: int|
            0 <= i < names.len() && first_named(all, names[i]@) < 0 && forall|j: int|
                0 <= j < i ==> first_named(all, #[trigger] names[j]@) >= 0
    } else {
        -1
    }
}

/// Select the micrograms named in `names`, in that order; the error names the
/// first missing one. `dir` is the directory shown in the error.
pub fn select_named<'a>(all: &'a [Microgram], dir: &str, names: &[&str]) -> (r: Result<Vec<&'a Microgram>, String>)
    ensures
        match r {
            Ok(v) => {
                &&& forall|i: int| 0 <= i < names@.len() ==> first_named(all@, (#[trigger] names@[i])@) >= 0
                &&& v@.len() == names@.len()
                &&& forall|i: int| 0 <= i < names@.len() ==> *(#[trigger] v@[i]) == all@[first_named(all@, names@[i]@)]
            },
            Err(e) => {
                &&& exists|i: int| 0 <= i < names@.len() && first_named(all@, (#[trigger] names@[i])@) < 0
                &&& e@ == not_found_message(names@[first_missing(all@, names@)]@, dir@)
            },
        },
{
    let mut out: Vec<&'a Microgram> = Vec::new();
    let mut i: usize = 0;
    while i < names.len()
        invariant
            i <= names@.len(),
            out@.len() == i,
            forall|j: int| 0 <= j < i ==> first_named(all@, (#[trigger] names@[j])@) >= 0,
            forall|j: int| 0 <= j < i ==> *(#[trigger] out@[j]) == all@[first_named(all@, names@[j]@)],
        decreases names@.len() - i,
    {
        match find_named(all, names[i]) {
            Some(m) => {
                out.push(m);
            },
            None => {
                proof {
                    assert(first_named(all@, names@[i as int]@) < 0);
                    let w = choose|q: int|
                        0 <= q < names@.len() && first_named(all@, names@[q]@) < 0 && forall|j: int|
                            0 <= j < q ==> first_named(all@, #[trigger] names@[j]@) >= 0;
                    assert(first_missing(all@, names@) == w);
                    if w < i {
                        assert(first_named(all@, names@[w]@) >= 0);
                    }
                    if w > i {
                        assert(first_named(all@, names@[i as int]@) >= 0);
                    }
                    assert(w == i);
                }
                let mut e = crate::text::concat("Microgram '", names[i]);
                e.append("' not found in ");
                e.append(dir);
                return Err(e);
            },
        }
        i = i + 1;
    }
    Ok(out)
}

/// Load-free `chain_by_names`: pick the named micrograms from `all` and chain
/// them (not strict). `dir` is the directory shown in a not-found error.
pub fn chain_by_names(all: &[Microgram], dir: &str, names: &[&str], initial_input: FieldMap) -> (r: Result<ChainResult, String>)
    ensures
        match r {
            Ok(c) => {
                let ms = names@.map_values(|n: &str| all@[first_named(all@, n@)]);
                &&& forall|i: int| 0 <= i < names@.len() ==> first_named(all@, (#[trigger] names@[i])@) >= 0
                &&& is_chain_run(ms, initial_input.model(), false, c.steps@)
                &&& c.success == (c.steps@.len() == ms.len() && (c.steps@.len() > 0 ==> c.steps@[c.steps@.len() - 1].success))
                &&& c.total_duration_us == steps_duration(c.steps@)
            },
            Err(e) => {
                &&& exists|i: int| 0 <= i < names@.len() && first_named(all@, (#[trigger] names@[i])@) < 0
                &&& e@ == not_found_message(names@[first_missing(all@, names@)]@, dir@)
            },
        },
{
    match select_named(all, dir, names) {
        Ok(refs) => {
            proof {
                assert(derefs(refs@) =~= names@.map_values(|n: &str| all@[first_named(all@, n@)]));
            }
            Ok(chain_refs(&refs, initial_input, false))
        },
        Err(e) => Err(e),
    }
}


// ───────────────────────────── accumulating chains ─────────────────────────────

/// `m` without its internal fields (names starting with `_`).
pub open spec fn without_internal(m: Map<Seq<char>, ValueModel>) -> Map<Seq<char>, ValueModel> {
    Map::new(|k: Seq<char>| m.contains_key(k) && !seq_starts_with(k, "_"@), |k: Seq<char>| m[k])
}

/// Running context of an accumulating chain before step `k`: the initial
/// input with every earlier step's output merged over it.
pub open spec fn acc_ctx(mgs: Seq<Microgram>, init: Map<Seq<char>, ValueModel>, k: nat, strict: bool) -> Map<
    Seq<char>,
    ValueModel,
>
    decreases k,
{
    if k == 0 {
        init
    } else {
        let c = acc_ctx(mgs, init, (k - 1) as nat, strict);
        c.union_prefer_right(step_output(mgs[k - 1], with_aliases(c, mgs[k - 1]), strict))
    }
}

/// Input of step `k` of an accumulating chain.
pub open spec fn acc_input(mgs: Seq<Microgram>, init: Map<Seq<char>, ValueModel>, k: nat, strict: bool) -> Map<
    Seq<char>,
    ValueModel,
> {
    with_aliases(acc_ctx(mgs, init, k, strict), mgs[k as int])
}

/// Index of the first failing step at or after `k`, or the chain length.
pub open spec fn acc_stop(mgs: Seq<Microgram>, init: Map<Seq<char>, ValueModel>, strict: bool, k: nat) -> nat
    decreases mgs.len() - k,
{
    if k >= mgs.len() {
        mgs.len()
    } else if !step_succeeds(mgs[k as int], acc_input(mgs, init, k, strict), strict) {
        k
    } else {
        acc_stop(mgs, init, strict, k + 1)
    }
}

/// Whether an accumulating chain succeeds.
pub open spec fn acc_success(mgs: Seq<Microgram>, init: Map<Seq<char>, ValueModel>, strict: bool) -> bool {
    acc_stop(mgs, init, strict, 0) == mgs.len()
}

/// Final output of an accumulating chain: the public part of the context when
/// every step succeeds, else the failing step's output.
pub open spec fn acc_final(mgs: Seq<Microgram>, init: Map<Seq<char>, ValueModel>, strict: bool) -> Map<Seq<char>, ValueModel> {
    let f = acc_stop(mgs, init, strict, 0);
    if f == mgs.len() {
        without_internal(acc_ctx(mgs, init, mgs.len(), strict))
    } else {
        step_output(mgs[f as int], acc_input(mgs, init, f, strict), strict)
    }
}

/// What an accumulating chain's result holds.
pub open spec fn is_accumulate_run(mgs: Seq<Microgram>, init: Map<Seq<char>, ValueModel>, strict: bool, r: ChainResult) -> bool {
    &&& r.steps@.len() == if acc_success(mgs, init, strict) {
        mgs.len()
    } else {
        acc_stop(mgs, init, strict, 0) + 1
    }
    &&& forall|i: int| 0 <= i < r.steps@.len() ==> is_step_result(mgs[i], acc_input(mgs, init, i as nat, strict), strict, #[trigger] r.steps@[i])
    &&& r.success == acc_success(mgs, init, strict)
    &&& r.final_output.model() == acc_final(mgs, init, strict)
    &&& r.total_duration_us == steps_duration(r.steps@)
}

pub proof fn lemma_acc_stop(mgs: Seq<Microgram>, init: Map<Seq<char>, ValueModel>, strict: bool, k: nat, i: nat)
    requires
        k <= i <= mgs.len(),
        forall|j: int| k <= j < i ==> step_succeeds(mgs[j], acc_input(mgs, init, j as nat, strict), strict),
        i < mgs.len() ==> !step_succeeds(mgs[i as int], acc_input(mgs, init, i, strict), strict),
    ensures
        acc_stop(mgs, init, strict, k) == i,
    decreases i - k,
{
    if k < i {
        lemma_acc_stop(mgs, init, strict, k + 1, i);
    }
}

pub proof fn lemma_fold_inserts(m: Map<Seq<char>, ValueModel>, s: Seq<(String, Value)>)
    ensures
        m.union_prefer_right(entries_model(s)) == if s.len() == 0 {
            m
        } else {
            m.union_prefer_right(entries_model(s.drop_last())).insert(s[s.len() - 1].0@, s[s.len() - 1].1.model())
        },
{
    if s.len() == 0 {
        assert(m.union_prefer_right(entries_model(s)) =~= m);
    } else {
        assert(m.union_prefer_right(entries_model(s)) =~= m.union_prefer_right(entries_model(s.drop_last())).insert(
            s[s.len() - 1].0@,
            s[s.len() - 1].1.model(),
        ));
    }
}

/// Insert every entry of `src` into `dst`, replacing values of shared names.
pub fn merge_into(dst: &mut FieldMap, src: &FieldMap)
    ensures
        final(dst).model() == old(dst).model().union_prefer_right(src.model()),
{
    let ghost start = dst.model();
    let mut i: usize = 0;
    while i < src.entries.len()
        invariant
            i <= src.entries@.len(),
            dst.model() == start.union_prefer_right(entries_model(src.entries@.subrange(0, i as int))),
        decreases src.entries@.len() - i,
    {
        proof {
            assert(src.entries@.subrange(0, i + 1).drop_last() =~= src.entries@.subrange(0, i as int));
            lemma_fold_inserts(start, src.entries@.subrange(0, i + 1));
        }
        dst.insert(src.entries[i].0.clone(), src.entries[i].1.clone());
        i = i + 1;
    }
    proof {
        assert(src.entries@.subrange(0, src.entries@.len() as int) =~= src.entries@);
    }
}

/// The fields of `m` whose names do not start with `_`.
pub fn public_fields(m: &FieldMap) -> (r: FieldMap)
    ensures
        r.model() == without_internal(m.model()),
{
    let mut r = FieldMap::new();
    let mut i: usize = 0;
    while i < m.entries.len()
        invariant
            i <= m.entries@.len(),
            r.model() == without_internal(entries_model(m.entries@.subrange(0, i as int))),
        decreases m.entries@.len() - i,
    {
        let ghost prev = entries_model(m.entries@.subrange(0, i as int));
        proof {
            assert(m.entries@.subrange(0, i + 1).drop_last() =~= m.entries@.subrange(0, i as int));
        }
        let internal = starts_with(m.entries[i].0.as_str(), "_");
        if !internal {
            r.insert(m.entries[i].0.clone(), m.entries[i].1.clone());
        }
        proof {
            let next = entries_model(m.entries@.subrange(0, i + 1));
            assert(next == prev.insert(m.entries@[i as int].0@, m.entries@[i as int].1.model()));
            assert(r.model() =~= without_internal(next));
        }
        i = i + 1;
    }
    proof {
        assert(m.entries@.subrange(0, m.entries@.len() as int) =~= m.entries@);
    }
    r
}

/// Chain over references with context accumulation: see [`chain_accumulate`].
#[verifier::loop_isolation(false)]
pub fn chain_accumulate_refs(mgs: &Vec<&Microgram>, initial_input: FieldMap, strict: bool) -> (r: ChainResult)
    ensures
        is_accumulate_run(derefs(mgs@), initial_input.model(), strict, r),
{
    let ghost ms = derefs(mgs@);
    let ghost init = initial_input.model();
    let mut context = initial_input;
    let mut steps: Vec<MicrogramResult> = Vec::new();
    let mut total_us: u64 = 0;
    let mut i: usize = 0;
    while i < mgs.len()
        invariant
            ms == derefs(mgs@),
            ms.len() == mgs@.len(),
            i <= mgs@.len(),
            steps@.len() == i,
            total_us == steps_duration(steps@),
            forall|j: int| 0 <= j < i ==> is_step_result(ms[j], acc_input(ms, init, j as nat, strict), strict, #[trigger] steps@[j]),
            forall|j: int| 0 <= j < i ==> step_succeeds(ms[j], acc_input(ms, init, j as nat, strict), strict),
            context.model() == acc_ctx(ms, init, i as nat, strict),
        decreases mgs@.len() - i,
    {
        let mg: &Microgram = mgs[i];
        let mut step_input = context.clone();
        apply_aliases(&mut step_input, mg);
        proof {
            assert(ms[i as int] == *mg);
        }
        let result = mg.run_step(step_input, strict);
        total_us = add_duration(total_us, result.duration_us);
        if !result.success {
            let final_output = result.output.clone();
            let ghost before = steps@;
            steps.push(result);
            proof {
                assert(steps@.drop_last() =~= before);
                lemma_acc_stop(ms, init, strict, 0, i as nat);
                assert forall|j: int| 0 <= j < steps@.len() implies is_step_result(ms[j], acc_input(ms, init, j as nat, strict), strict, #[trigger] steps@[j]) by {
                    if j < i {
                        assert(steps@[j] == before[j]);
                    }
                }
            }
            return ChainResult { success: false, steps, final_output, total_duration_us: total_us };
        }
        merge_into(&mut context, &result.output);
        let ghost before = steps@;
        steps.push(result);
        proof {
            assert(steps@.drop_last() =~= before);
        }
        i = i + 1;
    }
    proof {
        lemma_acc_stop(ms, init, strict, 0, ms.len());
    }
    let final_output = public_fields(&context);
    ChainResult { success: true, steps, final_output, total_duration_us: total_us }
}

/// Chain with context accumulation: each step's output is merged into a
/// running context (new names added, present names updated), so fields from
/// earlier steps survive steps that do not mention them. A step sees the
/// context with its aliases applied. The final output is the context without
/// internal fields, or the failing step's output.
pub fn chain_accumulate(micrograms: &[Microgram], initial_input: FieldMap, strict: bool) -> (r: ChainResult)
    ensures
        is_accumulate_run(micrograms@, initial_input.model(), strict, r),
{
    let refs = as_refs(micrograms);
    proof {
        assert(derefs(refs@) =~= micrograms@);
    }
    chain_accumulate_refs(&refs, initial_input, strict)
}

/// The named micrograms, looked up in `all`.
pub open spec fn named_sequence(all: Seq<Microgram>, names: Seq<&str>) -> Seq<Microgram> {
    names.map_values(|n: &str| all[first_named(all, n@)])
}

/// Load-free `chain_accumulate_by_names`: pick the named micrograms from `all`
/// and chain them with accumulation (not strict).
pub fn chain_accumulate_by_names(all: &[Microgram], dir: &str, names: &[&str], initial_input: FieldMap) -> (r: Result<
    ChainResult,
    String,
>)
    ensures
        match r {
            Ok(c) => {
                &&& forall|i: int| 0 <= i < names@.len() ==> first_named(all@, (#[trigger] names@[i])@) >= 0
                &&& is_accumulate_run(named_sequence(all@, names@), initial_input.model(), false, c)
            },
            Err(e) => {
                &&& exists|i: int| 0 <= i < names@.len() && first_named(all@, (#[trigger] names@[i])@) < 0
                &&& e@ == not_found_message(names@[first_missing(all@, names@)]@, dir@)
            },
        },
{
    match select_named(all, dir, names) {
        Ok(refs) => {
            proof {
                assert(derefs(refs@) =~= named_sequence(all@, names@));
            }
            Ok(chain_accumulate_refs(&refs, initial_input, false))
        },
        Err(e) => Err(e),
    }
}

// ───────────────────────────── resilient chains ─────────────────────────────

/// Execution status of a resilient chain.
#[derive(Debug, Clone, Copy, PartialEq, Eq, Structural)]
pub enum ChainStatus {
    Complete,
    Partial,
    Failed,
}

/// Result of a resilient chain.
#[derive(Debug)]
pub struct ResilientChainResult {
    pub status: ChainStatus,
    pub steps: Vec<MicrogramResult>,
    pub final_output: FieldMap,
    pub total_duration_us: u64,
    pub failed_steps: Vec<String>,
}

/// Data fed to step `k` of a resilient chain (before aliases): the output of
/// the last step that succeeded, or the initial input.
pub open spec fn res_ctx(mgs: Seq<Microgram>, init: Map<Seq<char>, ValueModel>, k: nat, strict: bool) -> Map<
    Seq<char>,
    ValueModel,
>
    decreases k,
{
    if k == 0 {
        init
    } else {
        let c = res_ctx(mgs, init, (k - 1) as nat, strict);
        let inp = with_aliases(c, mgs[k - 1]);
        if step_succeeds(mgs[k - 1], inp, strict) {
            step_output(mgs[k - 1], inp, strict)
        } else {
            c
        }
    }
}

/// Input of step `k` of a resilient chain.
pub open spec fn res_input(mgs: Seq<Microgram>, init: Map<Seq<char>, ValueModel>, k: nat, strict: bool) -> Map<
    Seq<char>,
    ValueModel,
> {
    with_aliases(res_ctx(mgs, init, k, strict), mgs[k as int])
}

/// Names of the steps among the first `k` that failed, in order.
pub open spec fn res_failed(mgs: Seq<Microgram>, init: Map<Seq<char>, ValueModel>, k: nat, strict: bool) -> Seq<Seq<char>>
    decreases k,
{
    if k == 0 {
        Seq::empty()
    } else {
        let prev = res_failed(mgs, init, (k - 1) as nat, strict);
        if step_succeeds(mgs[k - 1], res_input(mgs, init, (k - 1) as nat, strict), strict) {
            prev
        } else {
            prev.push(mgs[k - 1].name@)
        }
    }
}

/// Chain over references, continuing after failures: see [`chain_resilient`].
#[verifier::loop_isolation(false)]
pub fn chain_resilient_refs(mgs: &Vec<&Microgram>, initial_input: FieldMap, strict: bool) -> (r: ResilientChainResult)
    ensures
        ({
            let ms = derefs(mgs@);
            let init = initial_input.model();
            let failed = res_failed(ms, init, ms.len(), strict);
            &&& r.steps@.len() == ms.len()
            &&& forall|i: int| 0 <= i < ms.len() ==> is_step_result(ms[i], res_input(ms, init, i as nat, strict), strict, #[trigger] r.steps@[i])
            &&& names_view(r.failed_steps@) == failed
            &&& r.status == if failed.len() == 0 {
                ChainStatus::Complete
            } else if failed.len() == ms.len() {
                ChainStatus::Failed
            } else {
                ChainStatus::Partial
            }
            &&& r.final_output.model() == if ms.len() == 0 {
                Map::<Seq<char>, ValueModel>::empty()
            } else {
                res_ctx(ms, init, ms.len(), strict)
            }
            &&& r.total_duration_us == steps_duration(r.steps@)
        }),
{
    let ghost ms = derefs(mgs@);
    let ghost init = initial_input.model();
    let mut current = initial_input;
    let mut steps: Vec<MicrogramResult> = Vec::new();
    let mut failed_steps: Vec<String> = Vec::new();
    let mut total_us: u64 = 0;
    let mut i: usize = 0;
    while i < mgs.len()
        invariant
            ms == derefs(mgs@),
            ms.len() == mgs@.len(),
            i <= mgs@.len(),
            steps@.len() == i,
            total_us == steps_duration(steps@),
            forall|j: int| 0 <= j < i ==> is_step_result(ms[j], res_input(ms, init, j as nat, strict), strict, #[trigger] steps@[j]),
            current.model() == res_ctx(ms, init, i as nat, strict),
            names_view(failed_steps@) == res_failed(ms, init, i as nat, strict),
            failed_steps@.len() <= i,
        decreases mgs@.len() - i,
    {
        let mg: &Microgram = mgs[i];
        let mut remapped = current.clone();
        apply_aliases(&mut remapped, mg);
        proof {
            assert(ms[i as int] == *mg);
        }
        let result = mg.run_step(remapped, strict);
        total_us = add_duration(total_us, result.duration_us);
        if result.success {
            current = result.output.clone();
        } else {
            let ghost before = failed_steps@;
            failed_steps.push(mg.name.clone());
            proof {
                assert(names_view(failed_steps@) =~= names_view(before).push(mg.name@));
            }
        }
        let ghost before_steps = steps@;
        steps.push(result);
        proof {
            assert(steps@.drop_last() =~= before_steps);
            assert forall|j: int| 0 <= j < i + 1 implies is_step_result(ms[j], res_input(ms, init, j as nat, strict), strict, #[trigger] steps@[j]) by {
                if j < i {
                    assert(steps@[j] == before_steps[j]);
                }
            }
        }
        i = i + 1;
    }
    let status = if failed_steps.len() == 0 {
        ChainStatus::Complete
    } else if failed_steps.len() == mgs.len() {
        ChainStatus::Failed
    } else {
        ChainStatus::Partial
    };
    let final_output = if mgs.len() == 0 {
        FieldMap::new()
    } else {
        current
    };
    ResilientChainResult { status, steps, final_output, total_duration_us: total_us, failed_steps }
}

/// Chain micrograms, continuing after a failed step: a failed step is recorded
/// and the next step receives the output of the last step that succeeded
/// (or the initial input). Status is Complete when none failed, Failed when
/// all failed, Partial otherwise.
pub fn chain_resilient(micrograms: &[Microgram], initial_input: FieldMap, strict: bool) -> (r: ResilientChainResult)
    ensures
        ({
            let ms = micrograms@;
            let init = initial_input.model();
            let failed = res_failed(ms, init, ms.len(), strict);
            &&& r.steps@.len() == ms.len()
            &&& forall|i: int| 0 <= i < ms.len() ==> is_step_result(ms[i], res_input(ms, init, i as nat, strict), strict, #[trigger] r.steps@[i])
            &&& names_view(r.failed_steps@) == failed
            &&& r.status == if failed.len() == 0 {
                ChainStatus::Complete
            } else if failed.len() == ms.len() {
                ChainStatus::Failed
            } else {
                ChainStatus::Partial
            }
            &&& r.final_output.model() == if ms.len() == 0 {
                Map::<Seq<char>, ValueModel>::empty()
            } else {
                res_ctx(ms, init, ms.len(), strict)
            }
            &&& r.total_duration_us == steps_duration(r.steps@)
        }),
{
    let refs = as_refs(micrograms);
    proof {
        assert(derefs(refs@) =~= micrograms@);
    }
    chain_resilient_refs(&refs, initial_input, strict)
}

/// Load-free `chain_resilient_by_names`: pick the named micrograms from `all`
/// and chain them resiliently (not strict).
pub fn chain_resilient_by_names(all: &[Microgram], dir: &str, names: &[&str], initial_input: FieldMap) -> (r: Result<
    ResilientChainResult,
    String,
>)
    ensures
        match r {
            Ok(c) => {
                let ms = named_sequence(all@, names@);
                &&& forall|i: int| 0 <= i < names@.len() ==> first_named(all@, (#[trigger] names@[i])@) >= 0
                &&& c.steps@.len() == ms.len()
                &&& forall|i: int| 0 <= i < ms.len() ==> is_step_result(ms[i], res_input(ms, initial_input.model(), i as nat, false), false, #[trigger] c.steps@[i])
                &&& names_view(c.failed_steps@) == res_failed(ms, initial_input.model(), ms.len(), false)
                &&& c.total_duration_us == steps_duration(c.steps@)
            },
            Err(e) => {
                &&& exists|i: int| 0 <= i < names@.len() && first_named(all@, (#[trigger] names@[i])@) < 0
                &&& e@ == not_found_message(names@[first_missing(all@, names@)]@, dir@)
            },
        },
{
    match select_named(all, dir, names) {
        Ok(refs) => {
            proof {
                assert(derefs(refs@) =~= named_sequence(all@, names@));
            }
            Ok(chain_resilient_refs(&refs, initial_input, false))
        },
        Err(e) => Err(e),
    }
}

} // verus!
