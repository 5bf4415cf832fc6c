//! A catalog of a collection of micrograms, and checking their aliases.
use vstd::prelude::*;
use crate::value::str_eq;
use crate::engine::names_view;
use crate::strmap::{StrMap, live_keys, pair_last_index, last_position};
use crate::microgram::{Microgram, is_test_result, passes_all, lemma_no_failures};
use crate::interface::{input_variables, output_fields, condition_vars, return_fields, node_seq, contains_name, type_map, input_types, output_types};
use crate::compose::{can_feed_with_aliases, resolved_input, live_alias};
use crate::mutate::copy_aliases;
use crate::levenshtein::{edit_distance, min3};
use crate::text::{seq_contains, str_contains, remove_all, remove_pattern, byte_len};
use crate::levenshtein::byte_levenshtein;
use vstd::utf8::encode_utf8;
use crate::chain_checks::capped;

verus! {

/// One microgram in the catalog.
#[derive(Debug)]
pub struct CatalogEntry {
    pub name: String,
    pub description: String,
    pub version: String,
    pub nodes: usize,
    pub inputs: Vec<String>,
    pub outputs: Vec<String>,
    /// Field name to type name, declared or inferred.
    pub typed_inputs: StrMap<String>,
    pub typed_outputs: StrMap<String>,
    /// Alternative name to canonical name.
    pub aliases: StrMap<String>,
    pub has_interface: bool,
    pub test_count: usize,
    pub tests_pass: bool,
}

/// The whole catalog: its entries and which entry can feed which.
#[derive(Debug)]
pub struct Catalog {
    pub entries: Vec<CatalogEntry>,
    pub total_micrograms: usize,
    pub total_tests: usize,
    pub all_pass: bool,
    pub connections: Vec<(String, String)>,
}

/// `e` is the catalog entry of `mg`.
pub open spec fn is_entry_of(e: CatalogEntry, mg: Microgram) -> bool {
    &&& e.name == mg.name
    &&& e.description == mg.description
    &&& e.version == mg.version
    &&& e.nodes == live_keys(mg.tree.nodes.entries@, mg.tree.nodes.entries@.len() as int).len()
    &&& type_map(e.typed_inputs) == input_types(mg)
    &&& type_map(e.typed_outputs) == output_types(mg)
    &&& names_view(e.inputs@) == if mg.interface is Some {
        live_keys(e.typed_inputs.entries@, e.typed_inputs.entries@.len() as int)
    } else {
        condition_vars(node_seq(mg))
    }
    &&& names_view(e.outputs@) == if mg.interface is Some {
        live_keys(e.typed_outputs.entries@, e.typed_outputs.entries@.len() as int)
    } else {
        return_fields(node_seq(mg))
    }
    &&& e.aliases.entries@ == match mg.interface {
        Some(iface) => iface.aliases.entries@,
        None => Seq::empty(),
    }
    &&& e.has_interface == mg.interface is Some
    &&& e.test_count == mg.tests@.len()
    &&& e.tests_pass == passes_all(mg)
}

/// Some output of `a` feeds some input of `b`, directly or through aliases.
pub open spec fn feeds(a: CatalogEntry, b: CatalogEntry) -> bool {
    exists|i: int|
        0 <= i < a.outputs@.len() && (#[trigger] resolved_input(
            a.outputs@[i]@,
            names_view(b.inputs@),
            a.aliases.entries@,
            b.aliases.entries@,
        )) is Some
}

/// The connections among the first `k` ordered pairs of entries (row by
/// row): pairs of different names where the first feeds the second.
pub open spec fn connections_upto(es: Seq<CatalogEntry>, k: int) -> Seq<(Seq<char>, Seq<char>)>
    decreases k,
{
    if k <= 0 || es.len() == 0 {
        Seq::empty()
    } else {
        let prev = connections_upto(es, k - 1);
        let a = es[(k - 1) / es.len() as int];
        let b = es[(k - 1) % es.len() as int];
        if a.name@ != b.name@ && feeds(a, b) {
            prev.push((a.name@, b.name@))
        } else {
            prev
        }
    }
}

/// Total number of tests of the first `n` micrograms.
pub open spec fn test_total(all: Seq<Microgram>, n: int) -> nat
    decreases n,
{
    if n <= 0 {
        0
    } else {
        test_total(all, n - 1) + all[n - 1].tests@.len()
    }
}

pub open spec fn pairs_view(s: Seq<(String, String)>) -> Seq<(Seq<char>, Seq<char>)> {
    s.map_values(|p: (String, String)| (p.0@, p.1@))
}

fn catalog_entry(mg: &Microgram) -> (e: CatalogEntry)
    ensures
        is_entry_of(e, *mg),
{
    let typed_in = mg.typed_inputs();
    let typed_out = mg.typed_outputs();
    let has_interface = mg.interface.is_some();
    let inputs = if has_interface {
        typed_in.keys()
    } else {
        input_variables(mg)
    };
    let outputs = if has_interface {
        typed_out.keys()
    } else {
        output_fields(mg)
    };
    let result = mg.test();
    proof {
        lemma_no_failures(*mg, result);
    }
    let aliases = match &mg.interface {
        Some(iface) => copy_aliases(&iface.aliases),
        None => {
            let m: StrMap<String> = StrMap::new();
            proof {
                assert(m.entries@ =~= Seq::<(String, String)>::empty());
            }
            m
        },
    };
    let nodes = mg.tree.nodes.keys().len();
    CatalogEntry {
        name: mg.name.clone(),
        description: mg.description.clone(),
        version: mg.version.clone(),
        nodes,
        inputs,
        outputs,
        typed_inputs: typed_in,
        typed_outputs: typed_out,
        aliases,
        has_interface,
        test_count: result.total,
        tests_pass: result.failed == 0,
    }
}

/// Catalog every microgram of `all`: its name, size, inputs and outputs
/// (declared when it has an interface, read off the tree otherwise), their
/// types, aliases, test count and whether its tests pass; then every
/// ordered pair of entries with different names where the first feeds the
/// second. The test total saturates at `usize::MAX`.
pub fn catalog(all: &[Microgram]) -> (r: Catalog)
    ensures
        r.entries@.len() == all@.len(),
        forall|i: int| 0 <= i < all@.len() ==> is_entry_of(#[trigger] r.entries@[i], all@[i]),
        r.total_micrograms == all@.len(),
        r.total_tests == capped(test_total(all@, all@.len() as int)),
        r.all_pass == forall|i: int| 0 <= i < all@.len() ==> passes_all(#[trigger] all@[i]),
        pairs_view(r.connections@) == connections_upto(r.entries@, (all@.len() * all@.len()) as int),
{
    let n = all.len();
    let mut entries: Vec<CatalogEntry> = Vec::new();
    let mut total_tests: usize = 0;
    let mut all_pass = true;
    let mut i: usize = 0;
    while i < n
        invariant
            n == all@.len(),
            i <= n,
            entries@.len() == i,
            forall|j: int| 0 <= j < i ==> is_entry_of(#[trigger] entries@[j], all@[j]),
            total_tests == capped(test_total(all@, i as int)),
            all_pass == forall|j: int| 0 <= j < i ==> passes_all(#[trigger] all@[j]),
        decreases n - i,
    {
        let e = catalog_entry(&all[i]);
        if !e.tests_pass {
            all_pass = false;
        }
        total_tests = total_tests.saturating_add(e.test_count);
        entries.push(e);
        i = i + 1;
    }
    let mut connections: Vec<(String, String)> = Vec::new();
    let mut a: usize = 0;
    while a < n
        invariant
            n == entries@.len(),
            a <= n,
            pairs_view(connections@) == connections_upto(entries@, a * n),
        decreases n - a,
    {
        let mut b: usize = 0;
        while b < n
            invariant
                n == entries@.len(),
                a < n,
                b <= n,
                pairs_view(connections@) == connections_upto(entries@, a * n + b),
            decreases n - b,
        {
            let ea = &entries[a];
            let eb = &entries[b];
            proof {
                let k = a * n + b;
                assert((k as int) / (n as int) == a as int) by (nonlinear_arith)
                    requires
                        k == a * n + b,
                        0 <= b < n,
                        0 <= a,
                ;
                assert((k as int) % (n as int) == b as int) by (nonlinear_arith)
                    requires
                        k == a * n + b,
                        0 <= b < n,
                        0 <= a,
                ;
            }
            if !str_eq(ea.name.as_str(), eb.name.as_str()) && can_feed_with_aliases(
                ea.outputs.as_slice(),
                eb.inputs.as_slice(),
                &ea.aliases,
                &eb.aliases,
            ) {
                let ghost before = connections@;
                connections.push((ea.name.clone(), eb.name.clone()));
                proof {
                    assert(pairs_view(connections@) =~= pairs_view(before).push((ea.name@, eb.name@)));
                }
            }
            b = b + 1;
        }
        proof {
            assert((a + 1) * n == a * n + n) by (nonlinear_arith);
        }
        a = a + 1;
    }
    Catalog { total_micrograms: n, total_tests, all_pass, entries, connections }
}

// ───────────────────────────── alias checks ─────────────────────────────

/// A field name with the usual prefixes and suffixes taken out:
/// `_icsr`, `_flag`, `_status`, `_pct`, `is_`, `has_`, in that order.
pub open spec fn normalized(s: Seq<char>) -> Seq<char> {
    remove_all(
        remove_all(
            remove_all(remove_all(remove_all(remove_all(s, "_icsr"@), "_flag"@), "_status"@), "_pct"@),
            "is_"@,
        ),
        "has_"@,
    )
}

fn normalize(s: &str) -> (r: String)
    ensures
        r@ == normalized(s@),
{
    let a = remove_pattern(s, "_icsr");
    let b = remove_pattern(a.as_str(), "_flag");
    let c = remove_pattern(b.as_str(), "_status");
    let d = remove_pattern(c.as_str(), "_pct");
    let e = remove_pattern(d.as_str(), "is_");
    remove_pattern(e.as_str(), "has_")
}

/// Two field names are likely aliases of one concept: both are at least 4
/// bytes long, and one contains the other, or they agree once normalized,
/// or their lengths differ by at most 3 bytes and their byte edit distance
/// is under three tenths of the longer length.
pub open spec fn likely_alias(a: Seq<char>, b: Seq<char>) -> bool {
    let ab = encode_utf8(a);
    let bb = encode_utf8(b);
    let la = ab.len() as int;
    let lb = bb.len() as int;
    let longest = if la >= lb {
        la
    } else {
        lb
    };
    let diff = if la >= lb {
        la - lb
    } else {
        lb - la
    };
    if la < 4 || lb < 4 {
        false
    } else if seq_contains(a, b) || seq_contains(b, a) {
        true
    } else if normalized(a).len() > 0 && normalized(b).len() > 0 && normalized(a) == normalized(b) {
        true
    } else {
        diff <= 3 && longest > 0 && 10 * edit_distance(ab, bb) < 3 * longest
    }
}

/// Whether two field names are likely aliases (see [`likely_alias`]).
pub fn fields_likely_alias(a: &str, b: &str) -> (r: bool)
    ensures
        r == likely_alias(a@, b@),
{
    let la = byte_len(a);
    let lb = byte_len(b);
    if la < 4 || lb < 4 {
        return false;
    }
    if str_contains(a, b) || str_contains(b, a) {
        return true;
    }
    let na = normalize(a);
    let nb = normalize(b);
    if na.unicode_len() > 0 && nb.unicode_len() > 0 && str_eq(na.as_str(), nb.as_str()) {
        return true;
    }
    let diff = if la >= lb {
        la - lb
    } else {
        lb - la
    };
    if diff <= 3 {
        let dist = byte_levenshtein(a, b);
        let longest = if la >= lb {
            la
        } else {
            lb
        };
        proof {
            crate::levenshtein::lemma_edit_distance_bound(encode_utf8(a@), encode_utf8(b@));
        }
        if longest > 0 && (dist as u128) * 10 < (longest as u128) * 3 {
            return true;
        }
    }
    false
}

/// An alias that maps to different canonical names in different micrograms.
#[derive(Debug, Clone)]
pub struct AliasConflict {
    pub alias: String,
    /// (microgram name, canonical name) for each declaration.
    pub canonicals: Vec<(String, String)>,
}

/// A suggested alias: an output of one microgram that is probably the same
/// field as an input of another.
#[derive(Debug, Clone)]
pub struct AliasSuggestion {
    pub from: String,
    pub to: String,
    pub source: String,
    pub target: String,
}

/// Result of checking the aliases of a collection.
#[derive(Debug, Clone)]
pub struct AliasCheckResult {
    pub total_aliases: usize,
    pub conflicts: Vec<AliasConflict>,
    /// (microgram, alias, canonical) where the canonical name is neither an
    /// input nor an output.
    pub unused: Vec<(String, String, String)>,
    pub suggested: Vec<AliasSuggestion>,
}

/// One alias declaration: microgram, alias, canonical name, and whether the
/// canonical name is a declared input or output.
pub type AliasRecord = (Seq<char>, Seq<char>, Seq<char>, bool);

/// Alias declarations of the first `k` entries of `mg`'s alias table (the
/// entries that give their alias its meaning).
pub open spec fn records_of(mg: Microgram, k: int) -> Seq<AliasRecord>
    decreases k,
{
    if k <= 0 {
        Seq::empty()
    } else {
        match mg.interface {
            Some(iface) => {
                let t = iface.aliases.entries@;
                let prev = records_of(mg, k - 1);
                if live_alias(t, k - 1) {
                    let c = t[k - 1].1@;
                    prev.push(
                        (
                            mg.name@,
                            t[k - 1].0@,
                            c,
                            iface.inputs.model().contains_key(c) || iface.outputs.model().contains_key(c),
                        ),
                    )
                } else {
                    prev
                }
            },
            None => Seq::empty(),
        }
    }
}

/// Number of alias-table entries of a microgram.
pub open spec fn alias_table_len(mg: Microgram) -> int {
    match mg.interface {
        Some(iface) => iface.aliases.entries@.len() as int,
        None => 0,
    }
}

/// Alias declarations of the first `n` micrograms, in order.
pub open spec fn all_records(all: Seq<Microgram>, n: int) -> Seq<AliasRecord>
    decreases n,
{
    if n <= 0 {
        Seq::empty()
    } else {
        all_records(all, n - 1) + records_of(all[n - 1], alias_table_len(all[n - 1]))
    }
}

/// The aliases declared, each once, in order of first declaration.
pub open spec fn alias_names(rs: Seq<AliasRecord>, n: int) -> Seq<Seq<char>>
    decreases n,
{
    if n <= 0 {
        Seq::empty()
    } else {
        crate::interface::add_unique(alias_names(rs, n - 1), rs[n - 1].1)
    }
}

/// (microgram, canonical) of the first `n` declarations of `alias`.
pub open spec fn declarations(rs: Seq<AliasRecord>, alias: Seq<char>, n: int) -> Seq<(Seq<char>, Seq<char>)>
    decreases n,
{
    if n <= 0 {
        Seq::empty()
    } else {
        let prev = declarations(rs, alias, n - 1);
        if rs[n - 1].1 == alias {
            prev.push((rs[n - 1].0, rs[n - 1].2))
        } else {
            prev
        }
    }
}

/// More than one declaration, not all with the first one's canonical name.
pub open spec fn conflicting(ds: Seq<(Seq<char>, Seq<char>)>) -> bool {
    ds.len() > 1 && exists|j: int| 0 <= j < ds.len() && (#[trigger] ds[j]).1 != ds[0].1
}

/// The conflicts among the first `n` distinct aliases.
pub open spec fn conflicts_upto(rs: Seq<AliasRecord>, n: int) -> Seq<(Seq<char>, Seq<(Seq<char>, Seq<char>)>)>
    decreases n,
{
    if n <= 0 {
        Seq::empty()
    } else {
        let names = alias_names(rs, rs.len() as int);
        let prev = conflicts_upto(rs, n - 1);
        let ds = declarations(rs, names[n - 1], rs.len() as int);
        if conflicting(ds) {
            prev.push((names[n - 1], ds))
        } else {
            prev
        }
    }
}

/// The unused declarations among the first `n`.
pub open spec fn unused_upto(rs: Seq<AliasRecord>, n: int) -> Seq<(Seq<char>, Seq<char>, Seq<char>)>
    decreases n,
{
    if n <= 0 {
        Seq::empty()
    } else {
        let prev = unused_upto(rs, n - 1);
        if !rs[n - 1].3 {
            prev.push((rs[n - 1].0, rs[n - 1].1, rs[n - 1].2))
        } else {
            prev
        }
    }
}

/// Suggestions of output `o` of `a` against the first `m` inputs of `b`.
pub open spec fn suggestions_for_output(
    a: Seq<char>,
    o: Seq<char>,
    b: Seq<char>,
    ins: Seq<Seq<char>>,
    m: int,
) -> Seq<(Seq<char>, Seq<char>, Seq<char>, Seq<char>)>
    decreases m,
{
    if m <= 0 {
        Seq::empty()
    } else {
        let prev = suggestions_for_output(a, o, b, ins, m - 1);
        let i = ins[m - 1];
        if o != i && likely_alias(o, i) {
            prev.push((a, b, o, i))
        } else {
            prev
        }
    }
}

/// Suggestions of the first `n` outputs of `a` against the inputs of `b`.
pub open spec fn suggestions_for_pair(a: Microgram, b: Microgram, n: int) -> Seq<
    (Seq<char>, Seq<char>, Seq<char>, Seq<char>),
>
    decreases n,
{
    if n <= 0 {
        Seq::empty()
    } else {
        let outs = return_fields(node_seq(a));
        let ins = condition_vars(node_seq(b));
        suggestions_for_pair(a, b, n - 1) + suggestions_for_output(a.name@, outs[n - 1], b.name@, ins, ins.len() as int)
    }
}

/// Suggestions over the first `k` ordered pairs (row by row), skipping
/// pairs with the same name.
pub open spec fn suggestions_upto(all: Seq<Microgram>, k: int) -> Seq<(Seq<char>, Seq<char>, Seq<char>, Seq<char>)>
    decreases k,
{
    if k <= 0 || all.len() == 0 {
        Seq::empty()
    } else {
        let a = all[(k - 1) / all.len() as int];
        let b = all[(k - 1) % all.len() as int];
        let here = if a.name@ == b.name@ {
            Seq::empty()
        } else {
            suggestions_for_pair(a, b, return_fields(node_seq(a)).len() as int)
        };
        suggestions_upto(all, k - 1) + here
    }
}

pub open spec fn conflict_view(c: AliasConflict) -> (Seq<char>, Seq<(Seq<char>, Seq<char>)>) {
    (c.alias@, c.canonicals@.map_values(|p: (String, String)| (p.0@, p.1@)))
}

pub open spec fn triple_view(t: (String, String, String)) -> (Seq<char>, Seq<char>, Seq<char>) {
    (t.0@, t.1@, t.2@)
}

pub open spec fn suggestion_view(s: AliasSuggestion) -> (Seq<char>, Seq<char>, Seq<char>, Seq<char>) {
    (s.from@, s.to@, s.source@, s.target@)
}

pub open spec fn record_view(r: (String, String, String, bool)) -> AliasRecord {
    (r.0@, r.1@, r.2@, r.3)
}

pub open spec fn records_view(s: Seq<(String, String, String, bool)>) -> Seq<AliasRecord> {
    s.map_values(|r: (String, String, String, bool)| record_view(r))
}

fn collect_records(all: &[Microgram]) -> (r: Vec<(String, String, String, bool)>)
    ensures
        records_view(r@) == all_records(all@, all@.len() as int),
{
    let mut out: Vec<(String, String, String, bool)> = Vec::new();
    let mut i: usize = 0;
    proof {
        assert(records_view(out@) =~= all_records(all@, 0));
    }
    while i < all.len()
        invariant
            i <= all@.len(),
            records_view(out@) == all_records(all@, i as int),
        decreases all@.len() - i,
    {
        let mg = &all[i];
        let ghost start = records_view(out@);
        match &mg.interface {
            Some(iface) => {
                let t = &iface.aliases.entries;
                let mut k: usize = 0;
                proof {
                    assert(records_view(out@) =~= start + records_of(*mg, 0));
                }
                while k < t.len()
                    invariant
                        mg.interface == Some(*iface),
                        t == &iface.aliases.entries,
                        k <= t@.len(),
                        records_view(out@) == start + records_of(*mg, k as int),
                    decreases t@.len() - k,
                {
                    let live = last_position(t, t[k].0.as_str()) == Some(k);
                    if live {
                        let c = &t[k].1;
                        let used = iface.inputs.contains_key(c.as_str()) || iface.outputs.contains_key(c.as_str());
                        let ghost before = out@;
                        out.push((mg.name.clone(), t[k].0.clone(), c.clone(), used));
                        proof {
                            assert(records_view(out@) =~= records_view(before).push(record_view(out@.last())));
                        }
                    }
                    proof {
                        assert(live_alias(t@, k as int) == live);
                    }
                    k = k + 1;
                }
            },
            None => {
                proof {
                    assert(records_of(*mg, alias_table_len(*mg)) =~= Seq::<AliasRecord>::empty());
                    assert(records_view(out@) =~= start + records_of(*mg, alias_table_len(*mg)));
                }
            },
        }
        proof {
            assert(all@[i as int] == *mg);
        }
        i = i + 1;
    }
    out
}

/// Check the aliases of a collection: count every declaration; report
/// aliases that different micrograms map to different canonical names
/// (in order of first declaration, with every declaration); report
/// declarations whose canonical name is neither an input nor an output;
/// and, for every ordered pair of micrograms with different names, suggest
/// each output of the first and input of the second that differ but are
/// likely aliases.
pub fn alias_check(all: &[Microgram]) -> (r: AliasCheckResult)
    ensures
        ({
            let rs = all_records(all@, all@.len() as int);
            &&& r.total_aliases == rs.len()
            &&& r.conflicts@.map_values(|c: AliasConflict| conflict_view(c)) == conflicts_upto(
                rs,
                alias_names(rs, rs.len() as int).len() as int,
            )
            &&& r.unused@.map_values(|t: (String, String, String)| triple_view(t)) == unused_upto(rs, rs.len() as int)
            &&& r.suggested@.map_values(|x: AliasSuggestion| suggestion_view(x)) == suggestions_upto(
                all@,
                (all@.len() * all@.len()) as int,
            )
        }),
{
    let records = collect_records(all);
    let ghost rs = records_view(records@);
    let total = records.len();
    let mut unused: Vec<(String, String, String)> = Vec::new();
    let mut names: Vec<String> = Vec::new();
    let mut i: usize = 0;
    while i < records.len()
        invariant
            rs == records_view(records@),
            i <= records@.len(),
            unused@.map_values(|t: (String, String, String)| triple_view(t)) == unused_upto(rs, i as int),
            names_view(names@) == alias_names(rs, i as int),
        decreases records@.len() - i,
    {
        let rec = &records[i];
        if !rec.3 {
            let ghost before = unused@;
            unused.push((rec.0.clone(), rec.1.clone(), rec.2.clone()));
            proof {
                assert(unused@.map_values(|t: (String, String, String)| triple_view(t)) =~= before.map_values(
                    |t: (String, String, String)| triple_view(t),
                ).push(triple_view(unused@.last())));
            }
        }
        let ghost nb = names@;
        if !contains_name(&names, rec.1.as_str()) {
            names.push(rec.1.clone());
            proof {
                assert(names_view(names@) =~= names_view(nb).push(rec.1@));
            }
        }
        i = i + 1;
    }
    let mut conflicts: Vec<AliasConflict> = Vec::new();
    let mut a: usize = 0;
    while a < names.len()
        invariant
            rs == records_view(records@),
            names_view(names@) == alias_names(rs, rs.len() as int),
            a <= names@.len(),
            conflicts@.map_values(|c: AliasConflict| conflict_view(c)) == conflicts_upto(rs, a as int),
        decreases names@.len() - a,
    {
        let alias = names[a].as_str();
        let mut decl: Vec<(String, String)> = Vec::new();
        let mut j: usize = 0;
        while j < records.len()
            invariant
                rs == records_view(records@),
                j <= records@.len(),
                decl@.map_values(|p: (String, String)| (p.0@, p.1@)) == declarations(rs, alias@, j as int),
            decreases records@.len() - j,
        {
            if str_eq(records[j].1.as_str(), alias) {
                let ghost before = decl@;
                decl.push((records[j].0.clone(), records[j].2.clone()));
                proof {
                    assert(decl@.map_values(|p: (String, String)| (p.0@, p.1@)) =~= before.map_values(
                        |p: (String, String)| (p.0@, p.1@),
                    ).push((records@[j as int].0@, records@[j as int].2@)));
                }
            }
            j = j + 1;
        }
        let ghost ds = declarations(rs, alias@, rs.len() as int);
        let mut differs = false;
        if decl.len() > 1 {
            let mut q: usize = 0;
            while q < decl.len()
                invariant
                    decl@.len() > 1,
                    decl@.map_values(|p: (String, String)| (p.0@, p.1@)) == ds,
                    q <= decl@.len(),
                    differs == exists|w: int| 0 <= w < q && (#[trigger] ds[w]).1 != ds[0].1,
                decreases decl@.len() - q,
            {
                proof {
                    assert(ds[q as int].1 == decl@[q as int].1@);
                    assert(ds[0].1 == decl@[0].1@);
                }
                if !str_eq(decl[q].1.as_str(), decl[0].1.as_str()) {
                    differs = true;
                }
                q = q + 1;
            }
        }
        let ghost before = conflicts@;
        if decl.len() > 1 && differs {
            conflicts.push(AliasConflict { alias: names[a].clone(), canonicals: decl });
            proof {
                assert(conflicts@.map_values(|c: AliasConflict| conflict_view(c)) =~= before.map_values(
                    |c: AliasConflict| conflict_view(c),
                ).push(conflict_view(conflicts@.last())));
            }
        }
        a = a + 1;
    }
    let suggested = suggest_aliases(all);
    AliasCheckResult { total_aliases: total, conflicts, unused, suggested }
}

fn suggest_aliases(all: &[Microgram]) -> (r: Vec<AliasSuggestion>)
    ensures
        r@.map_values(|x: AliasSuggestion| suggestion_view(x)) == suggestions_upto(all@, (all@.len() * all@.len()) as int),
{
    let n = all.len();
    let mut out: Vec<AliasSuggestion> = Vec::new();
    let mut a: usize = 0;
    proof {
        assert(out@.map_values(|x: AliasSuggestion| suggestion_view(x)) =~= suggestions_upto(all@, 0));
    }
    while a < n
        invariant
            n == all@.len(),
            a <= n,
            out@.map_values(|x: AliasSuggestion| suggestion_view(x)) == suggestions_upto(all@, a * n),
        decreases n - a,
    {
        let ma = &all[a];
        let outs = output_fields(ma);
        let mut b: usize = 0;
        while b < n
            invariant
                n == all@.len(),
                a < n,
                b <= n,
                *ma == all@[a as int],
                names_view(outs@) == return_fields(node_seq(*ma)),
                out@.map_values(|x: AliasSuggestion| suggestion_view(x)) == suggestions_upto(all@, a * n + b),
            decreases n - b,
        {
            let mb = &all[b];
            let ghost start = out@.map_values(|x: AliasSuggestion| suggestion_view(x));
            proof {
                let k = a * n + b;
                assert((k as int) / (n as int) == a as int) by (nonlinear_arith)
                    requires
                        k == a * n + b,
                        0 <= b < n,
                        0 <= a,
                ;
                assert((k as int) % (n as int) == b as int) by (nonlinear_arith)
                    requires
                        k == a * n + b,
                        0 <= b < n,
                        0 <= a,
                ;
            }
            if !str_eq(ma.name.as_str(), mb.name.as_str()) {
                let ins = input_variables(mb);
                let mut o: usize = 0;
                proof {
                    assert(out@.map_values(|x: AliasSuggestion| suggestion_view(x)) =~= start + suggestions_for_pair(
                        *ma,
                        *mb,
                        0,
                    ));
                }
                while o < outs.len()
                    invariant
                        *ma == all@[a as int],
                        names_view(outs@) == return_fields(node_seq(*ma)),
                        names_view(ins@) == condition_vars(node_seq(*mb)),
                        o <= outs@.len(),
                        out@.map_values(|x: AliasSuggestion| suggestion_view(x)) == start + suggestions_for_pair(
                            *ma,
                            *mb,
                            o as int,
                        ),
                    decreases outs@.len() - o,
                {
                    let ghost mid = out@.map_values(|x: AliasSuggestion| suggestion_view(x));
                    let mut p: usize = 0;
                    proof {
                        assert(names_view(outs@)[o as int] == outs@[o as int]@);
                    }
                    while p < ins.len()
                        invariant
                            o < outs@.len(),
                            names_view(ins@) == condition_vars(node_seq(*mb)),
                            p <= ins@.len(),
                            out@.map_values(|x: AliasSuggestion| suggestion_view(x)) == mid + suggestions_for_output(
                                ma.name@,
                                outs@[o as int]@,
                                mb.name@,
                                names_view(ins@),
                                p as int,
                            ),
                        decreases ins@.len() - p,
                    {
                        let of = outs[o].as_str();
                        let inf = ins[p].as_str();
                        proof {
                            assert(names_view(ins@)[p as int] == ins@[p as int]@);
                        }
                        if !str_eq(of, inf) && fields_likely_alias(of, inf) {
                            let ghost before = out@;
                            out.push(
                                AliasSuggestion {
                                    from: ma.name.clone(),
                                    to: mb.name.clone(),
                                    source: outs[o].clone(),
                                    target: ins[p].clone(),
                                },
                            );
                            proof {
                                assert(out@.map_values(|x: AliasSuggestion| suggestion_view(x)) =~= before.map_values(
                                    |x: AliasSuggestion| suggestion_view(x),
                                ).push(suggestion_view(out@.last())));
                            }
                        }
                        p = p + 1;
                    }
                    o = o + 1;
                }
            }
            b = b + 1;
        }
        proof {
            assert((a + 1) * n == a * n + n) by (nonlinear_arith);
        }
        a = a + 1;
    }
    out
}

} // verus!
