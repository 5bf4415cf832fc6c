//! Skill routing: strategy names, the capability and keyword indexes, and
//! fuzzy lookup of skill names.
use vstd::prelude::*;
use crate::engine::names_view;
use crate::levenshtein::{edit_distance, levenshtein};
use crate::strmap::{StrMap, pair_last_index, lemma_pairs_model_at};
use crate::taxonomy::{to_lowercase, str_lowercase};
use crate::value::str_eq;
use crate::text::byte_len;

verus! {

/// Routing strategy used for skill discovery.
#[derive(Debug, Clone, Copy, PartialEq, Eq, Structural)]
pub enum RoutingStrategy {
    /// Graph-based routing using adjacency weights.
    Adjacency,
    /// Pattern matching on skill capabilities.
    Capability,
    /// Keyword similarity using edit distance.
    Semantic,
    /// Weighted combination of all strategies.
    Hybrid,
}

impl Default for RoutingStrategy {
    fn default() -> (r: Self)
        ensures
            r == RoutingStrategy::Hybrid,
    {
        RoutingStrategy::Hybrid
    }
}

/// The strategy a lowercased name stands for.
pub open spec fn strategy_named(s: Seq<char>) -> Option<RoutingStrategy> {
    if s == "adjacency"@ || s == "adj"@ || s == "graph"@ {
        Some(RoutingStrategy::Adjacency)
    } else if s == "capability"@ || s == "cap"@ || s == "pattern"@ {
        Some(RoutingStrategy::Capability)
    } else if s == "semantic"@ || s == "sem"@ || s == "keyword"@ {
        Some(RoutingStrategy::Semantic)
    } else if s == "hybrid"@ || s == "all"@ || s == "combined"@ {
        Some(RoutingStrategy::Hybrid)
    } else {
        None
    }
}

impl RoutingStrategy {
    /// Parse a strategy name, ignoring case.
    pub fn from_str(s: &str) -> (r: Option<RoutingStrategy>)
        ensures
            r == strategy_named(str_lowercase(s@)),
    {
        let lower = to_lowercase(s);
        let k = lower.as_str();
        if str_eq(k, "adjacency") || str_eq(k, "adj") || str_eq(k, "graph") {
            Some(RoutingStrategy::Adjacency)
        } else if str_eq(k, "capability") || str_eq(k, "cap") || str_eq(k, "pattern") {
            Some(RoutingStrategy::Capability)
        } else if str_eq(k, "semantic") || str_eq(k, "sem") || str_eq(k, "keyword") {
            Some(RoutingStrategy::Semantic)
        } else if str_eq(k, "hybrid") || str_eq(k, "all") || str_eq(k, "combined") {
            Some(RoutingStrategy::Hybrid)
        } else {
            None
        }
    }
}

/// A routing request.
#[derive(Debug, Clone)]
pub struct RoutingRequest {
    /// Source skill (current context).
    pub source: String,
    /// Natural language context or query.
    pub context: String,
    /// Strategy to use.
    pub strategy: RoutingStrategy,
    /// Maximum number of results.
    pub limit: usize,
}

impl Default for RoutingRequest {
    fn default() -> (r: Self)
        ensures
            r.source@.len() == 0,
            r.context@.len() == 0,
            r.strategy == RoutingStrategy::Hybrid,
            r.limit == 5,
    {
        RoutingRequest { source: String::new(), context: String::new(), strategy: RoutingStrategy::Hybrid, limit: 5 }
    }
}

/// What a skill declares it can do.
#[derive(Debug, Clone)]
pub struct SkillCapability {
    /// Skill name.
    pub name: String,
    /// Trigger phrases.
    pub triggers: Vec<String>,
    /// What this skill handles.
    pub handles: Vec<String>,
    /// Keywords of the skill.
    pub keywords: Vec<String>,
    /// Category (such as "algorithms").
    pub category: String,
}

/// Errors of routing operations.
#[derive(Debug, Clone)]
pub enum RoutingError {
    /// No skill graph is loaded.
    GraphNotLoaded,
    /// The source skill is unknown.
    SourceNotFound(String),
    /// The strategy name is unknown.
    InvalidStrategy(String),
    /// Reading a file failed.
    IoError(String),
    /// Parsing a file failed.
    ParseError(String),
}

impl RoutingError {
    /// The message this error shows.
    pub fn message(&self) -> (r: String)
        ensures
            r@ == match self {
                RoutingError::GraphNotLoaded => "Skill graph not loaded"@,
                RoutingError::SourceNotFound(s) => "Source skill not found: "@ + s@,
                RoutingError::InvalidStrategy(s) => "Invalid routing strategy: "@ + s@,
                RoutingError::IoError(s) => "IO error: "@ + s@,
                RoutingError::ParseError(s) => "Parse error: "@ + s@,
            },
    {
        match self {
            RoutingError::GraphNotLoaded => String::from_str("Skill graph not loaded"),
            RoutingError::SourceNotFound(s) => crate::text::concat("Source skill not found: ", s.as_str()),
            RoutingError::InvalidStrategy(s) => crate::text::concat("Invalid routing strategy: ", s.as_str()),
            RoutingError::IoError(s) => crate::text::concat("IO error: ", s.as_str()),
            RoutingError::ParseError(s) => crate::text::concat("Parse error: ", s.as_str()),
        }
    }
}

// ───────────────────────────── the indexes ─────────────────────────────

/// Meaning of the keyword index: each keyword with the skills it points to.
pub open spec fn index_model(m: StrMap<Vec<String>>) -> Map<Seq<char>, Seq<Seq<char>>> {
    m.model().map_values(|v: Vec<String>| names_view(v@))
}

/// The skills listed under `word`, empty when there are none.
pub open spec fn listed(idx: Map<Seq<char>, Seq<Seq<char>>>, word: Seq<char>) -> Seq<Seq<char>> {
    if idx.contains_key(word) {
        idx[word]
    } else {
        Seq::empty()
    }
}

/// `idx` with `name` added to the skills listed under `word`.
pub open spec fn index_add(idx: Map<Seq<char>, Seq<Seq<char>>>, word: Seq<char>, name: Seq<char>) -> Map<
    Seq<char>,
    Seq<Seq<char>>,
> {
    idx.insert(word, listed(idx, word).push(name))
}

/// `idx` with `name` added under each of `words`, in order.
pub open spec fn index_add_all(idx: Map<Seq<char>, Seq<Seq<char>>>, words: Seq<Seq<char>>, name: Seq<char>) -> Map<
    Seq<char>,
    Seq<Seq<char>>,
>
    decreases words.len(),
{
    if words.len() == 0 {
        idx
    } else {
        index_add(index_add_all(idx, words.drop_last(), name), words.last(), name)
    }
}

/// Lowercase forms of a sequence of strings.
pub open spec fn lowered(s: Seq<String>) -> Seq<Seq<char>> {
    s.map_values(|x: String| str_lowercase(x@))
}

/// Add `name` under `word` in the keyword index.
pub fn index_push(m: &mut StrMap<Vec<String>>, word: String, name: String)
    ensures
        index_model(*final(m)) == index_add(index_model(*old(m)), word@, name@),
{
    proof {
        lemma_pairs_model_at(m.entries@, word@);
    }
    let list: Vec<String> = match m.get(word.as_str()) {
        Some(v) => {
            let mut l = v.clone();
            proof {
                assert(names_view(l@) =~= names_view(v@));
            }
            l.push(name);
            l
        },
        None => {
            let mut l: Vec<String> = Vec::new();
            l.push(name);
            l
        },
    };
    let ghost before = index_model(*m);
    proof {
        assert(names_view(list@) =~= listed(before, word@).push(name@));
    }
    m.insert(word, list);
    proof {
        assert(index_model(*m) =~= index_add(before, word@, name@));
    }
}

/// Add `name` under the lowercase form of each of `words`.
pub fn index_push_all(m: &mut StrMap<Vec<String>>, words: &Vec<String>, name: &String)
    ensures
        index_model(*final(m)) == index_add_all(index_model(*old(m)), lowered(words@), name@),
{
    let ghost start = index_model(*m);
    let mut i: usize = 0;
    while i < words.len()
        invariant
            i <= words@.len(),
            index_model(*m) == index_add_all(start, lowered(words@.subrange(0, i as int)), name@),
        decreases words@.len() - i,
    {
        let w = to_lowercase(words[i].as_str());
        index_push(m, w, name.clone());
        proof {
            assert(lowered(words@.subrange(0, i + 1)).drop_last() =~= lowered(words@.subrange(0, i as int)));
        }
        i = i + 1;
    }
    proof {
        assert(words@.subrange(0, words@.len() as int) =~= words@);
    }
}

/// Routing engine state: the capabilities by skill name, the keyword index
/// and every known skill name.
#[derive(Debug)]
pub struct RoutingEngine {
    pub capabilities: StrMap<SkillCapability>,
    pub semantic_index: StrMap<Vec<String>>,
    pub skill_names: Vec<String>,
}

/// Unicode's White_Space property, which `char::is_whitespace` tests:
/// U+0009 to U+000D, U+0020, U+0085, U+00A0, U+1680, U+2000 to U+200A,
/// U+2028, U+2029, U+202F, U+205F and U+3000.
pub open spec fn white_space(c: char) -> bool {
    let u = c as int;
    ||| 0x9 <= u <= 0xd
    ||| u == 0x20
    ||| u == 0x85
    ||| u == 0xa0
    ||| u == 0x1680
    ||| 0x2000 <= u <= 0x200a
    ||| u == 0x2028
    ||| u == 0x2029
    ||| u == 0x202f
    ||| u == 0x205f
    ||| u == 0x3000
}

/// The words of `s`: its maximal runs of characters other than white space,
/// in order (what `str::split_whitespace` yields).
pub open spec fn whitespace_words(s: Seq<char>) -> Seq<Seq<char>>
    decreases s.len(),
{
    if s.len() == 0 {
        Seq::empty()
    } else {
        let w = whitespace_words(s.drop_last());
        let c = s.last();
        if white_space(c) {
            w
        } else if s.len() >= 2 && !white_space(s[s.len() - 2]) {
            w.drop_last().push(w.last().push(c))
        } else {
            w.push(seq![c])
        }
    }
}

fn is_white_space(c: char) -> (r: bool)
    ensures
        r == white_space(c),
{
    let u = c as u32;
    (0x9 <= u && u <= 0xd) || u == 0x20 || u == 0x85 || u == 0xa0 || u == 0x1680 || (0x2000 <= u && u <= 0x200a)
        || u == 0x2028 || u == 0x2029 || u == 0x202f || u == 0x205f || u == 0x3000
}

/// The words of `s`, as `str::split_whitespace` splits it.
pub(crate) fn split_words(s: &str) -> (r: Vec<String>)
    ensures
        names_view(r@) == whitespace_words(s@),
{
    let cs = crate::levenshtein::chars_of(s);
    let mut words: Vec<String> = Vec::new();
    let mut in_word = false;
    let mut i: usize = 0;
    while i < cs.len()
        invariant
            cs@ == s@,
            i <= cs@.len(),
            names_view(words@) == whitespace_words(s@.take(i as int)),
            in_word == (i > 0 && !white_space(s@[i - 1])),
            in_word ==> words@.len() > 0,
        decreases cs@.len() - i,
    {
        let c = cs[i];
        let ghost before = names_view(words@);
        proof {
            assert(s@.take(i + 1).drop_last() =~= s@.take(i as int));
            assert(s@.take(i + 1).last() == c);
            if i > 0 {
                assert(s@.take(i + 1)[i - 1] == s@[i - 1]);
            }
        }
        if is_white_space(c) {
            in_word = false;
        } else if in_word {
            let mut last = words.pop().unwrap();
            crate::text::push_char(&mut last, c);
            words.push(last);
            proof {
                assert(names_view(words@) =~= before.drop_last().push(before.last().push(c)));
            }
            in_word = true;
        } else {
            let mut w = String::new();
            crate::text::push_char(&mut w, c);
            words.push(w);
            proof {
                assert(w@ =~= seq![c]);
                assert(names_view(words@) =~= before.push(seq![c]));
            }
            in_word = true;
        }
        i = i + 1;
    }
    proof {
        assert(s@.take(cs@.len() as int) =~= s@);
    }
    words
}

/// Words of a trigger phrase that are indexed: longer than two bytes, lowercased.
pub open spec fn trigger_words(words: Seq<Seq<char>>) -> Seq<Seq<char>>
    decreases words.len(),
{
    if words.len() == 0 {
        Seq::empty()
    } else {
        let prev = trigger_words(words.drop_last());
        if vstd::utf8::encode_utf8(words.last()).len() > 2 {
            prev.push(str_lowercase(words.last()))
        } else {
            prev
        }
    }
}

/// Index words of all trigger phrases, in order.
pub open spec fn triggers_words(triggers: Seq<Seq<char>>) -> Seq<Seq<char>>
    decreases triggers.len(),
{
    if triggers.len() == 0 {
        Seq::empty()
    } else {
        triggers_words(triggers.drop_last()) + trigger_words(whitespace_words(triggers.last()))
    }
}

/// Every word under which a capability is indexed: its lowercased keywords,
/// then the words of its triggers.
pub open spec fn capability_words(c: SkillCapability) -> Seq<Seq<char>> {
    lowered(c.keywords@) + triggers_words(names_view(c.triggers@))
}

/// The keyword index built from the first `n` entries of the capability
/// table, skipping entries that a later entry with the same name replaces.
pub open spec fn index_from(caps: Seq<(String, SkillCapability)>, n: int) -> Map<Seq<char>, Seq<Seq<char>>>
    decreases n,
{
    if n <= 0 {
        Map::empty()
    } else {
        let prev = index_from(caps, n - 1);
        let e = caps[n - 1];
        if pair_last_index(caps, e.0@) == n - 1 {
            index_add_all(prev, capability_words(e.1), e.1.name@)
        } else {
            prev
        }
    }
}

proof fn lemma_index_add_all_concat(
    idx: Map<Seq<char>, Seq<Seq<char>>>,
    a: Seq<Seq<char>>,
    b: Seq<Seq<char>>,
    name: Seq<char>,
)
    ensures
        index_add_all(idx, a + b, name) == index_add_all(index_add_all(idx, a, name), b, name),
    decreases b.len(),
{
    if b.len() == 0 {
        assert(a + b =~= a);
    } else {
        assert((a + b).drop_last() =~= a + b.drop_last());
        lemma_index_add_all_concat(idx, a, b.drop_last(), name);
    }
}

impl RoutingEngine {
    /// An engine with no capabilities.
    pub fn new() -> (e: RoutingEngine)
        ensures
            e.capabilities.model() == Map::<Seq<char>, SkillCapability>::empty(),
            index_model(e.semantic_index) == Map::<Seq<char>, Seq<Seq<char>>>::empty(),
            e.skill_names@.len() == 0,
    {
        let e = RoutingEngine { capabilities: StrMap::new(), semantic_index: StrMap::new(), skill_names: Vec::new() };
        proof {
            assert(index_model(e.semantic_index) =~= Map::<Seq<char>, Seq<Seq<char>>>::empty());
        }
        e
    }

    /// Add a capability: index its lowercased keywords under its name, add
    /// the name to the known skills when it is new, and store the capability
    /// under its name.
    pub fn add_capability(&mut self, capability: SkillCapability)
        ensures
            index_model(final(self).semantic_index) == index_add_all(
                index_model(old(self).semantic_index),
                lowered(capability.keywords@),
                capability.name@,
            ),
            names_view(final(self).skill_names@) == if names_view(old(self).skill_names@).contains(capability.name@) {
                names_view(old(self).skill_names@)
            } else {
                names_view(old(self).skill_names@).push(capability.name@)
            },
            final(self).capabilities.model() == old(self).capabilities.model().insert(capability.name@, capability),
    {
        index_push_all(&mut self.semantic_index, &capability.keywords, &capability.name);
        let mut found = false;
        let mut i: usize = 0;
        while i < self.skill_names.len()
            invariant
                i <= self.skill_names@.len(),
                found == exists|j: int| 0 <= j < i && (#[trigger] self.skill_names@[j])@ == capability.name@,
            decreases self.skill_names@.len() - i,
        {
            if str_eq(self.skill_names[i].as_str(), capability.name.as_str()) {
                found = true;
            }
            i = i + 1;
        }
        let ghost before = self.skill_names@;
        proof {
            let nv = names_view(before);
            if found {
                let j = choose|j: int| 0 <= j < i && (#[trigger] before[j])@ == capability.name@;
                assert(nv[j] == capability.name@);
            }
            if nv.contains(capability.name@) {
                let j = choose|j: int| 0 <= j < nv.len() && nv[j] == capability.name@;
                assert(before[j]@ == capability.name@);
            }
        }
        if !found {
            self.skill_names.push(capability.name.clone());
            proof {
                assert(names_view(self.skill_names@) =~= names_view(before).push(capability.name@));
            }
        }
        let key = capability.name.clone();
        self.capabilities.insert(key, capability);
    }

    /// Rebuild the keyword index from the capabilities: each capability is
    /// indexed under its lowercased keywords and under the lowercased words
    /// longer than two bytes of its trigger phrases.
    pub fn build_semantic_index(&mut self)
        ensures
            index_model(final(self).semantic_index) == index_from(
                old(self).capabilities.entries@,
                old(self).capabilities.entries@.len() as int,
            ),
            final(self).capabilities == old(self).capabilities,
            final(self).skill_names == old(self).skill_names,
    {
        let mut idx: StrMap<Vec<String>> = StrMap::new();
        proof {
            assert(index_model(idx) =~= Map::<Seq<char>, Seq<Seq<char>>>::empty());
        }
        let n = self.capabilities.entries.len();
        let mut i: usize = 0;
        while i < n
            invariant
                n == self.capabilities.entries@.len(),
                i <= n,
                index_model(idx) == index_from(self.capabilities.entries@, i as int),
            decreases n - i,
        {
            let live = match self.capabilities.position(self.capabilities.entries[i].0.as_str()) {
                Some(p) => p == i,
                None => false,
            };
            if live {
                let cap = &self.capabilities.entries[i].1;
                let ghost start = index_model(idx);
                index_push_all(&mut idx, &cap.keywords, &cap.name);
                let ghost mid = index_model(idx);
                let mut t: usize = 0;
                while t < cap.triggers.len()
                    invariant
                        t <= cap.triggers@.len(),
                        index_model(idx) == index_add_all(
                            mid,
                            triggers_words(names_view(cap.triggers@.subrange(0, t as int))),
                            cap.name@,
                        ),
                    decreases cap.triggers@.len() - t,
                {
                    let words = split_words(cap.triggers[t].as_str());
                    let ghost before_t = index_model(idx);
                    let ghost tw_prev = triggers_words(names_view(cap.triggers@.subrange(0, t as int)));
                    let mut w: usize = 0;
                    while w < words.len()
                        invariant
                            w <= words@.len(),
                            index_model(idx) == index_add_all(
                                before_t,
                                trigger_words(names_view(words@.subrange(0, w as int))),
                                cap.name@,
                            ),
                        decreases words@.len() - w,
                    {
                        let ghost prev_words = names_view(words@.subrange(0, w as int));
                        proof {
                            assert(names_view(words@.subrange(0, w + 1)).drop_last() =~= prev_words);
                            assert(names_view(words@.subrange(0, w + 1)).last() == words@[w as int]@);
                        }
                        let ghost at_w = index_model(idx);
                        if byte_len(words[w].as_str()) > 2 {
                            let lw = to_lowercase(words[w].as_str());
                            index_push(&mut idx, lw, cap.name.clone());
                        }
                        proof {
                            let nw = names_view(words@.subrange(0, w + 1));
                            let tw = trigger_words(nw);
                            if vstd::utf8::encode_utf8(words@[w as int]@).len() > 2 {
                                assert(tw == trigger_words(prev_words).push(str_lowercase(words@[w as int]@)));
                                assert(tw.drop_last() =~= trigger_words(prev_words));
                                assert(index_add_all(before_t, tw, cap.name@) == index_add(
                                    index_add_all(before_t, tw.drop_last(), cap.name@),
                                    tw.last(),
                                    cap.name@,
                                ));
                            } else {
                                assert(tw == trigger_words(prev_words));
                            }
                        }
                        w = w + 1;
                    }
                    proof {
                        assert(words@.subrange(0, words@.len() as int) =~= words@);
                        assert(names_view(cap.triggers@.subrange(0, t + 1)).drop_last() =~= names_view(
                            cap.triggers@.subrange(0, t as int),
                        ));
                        assert(names_view(cap.triggers@.subrange(0, t + 1)).last() == cap.triggers@[t as int]@);
                        lemma_index_add_all_concat(
                            mid,
                            tw_prev,
                            trigger_words(whitespace_words(cap.triggers@[t as int]@)),
                            cap.name@,
                        );
                    }
                    t = t + 1;
                }
                proof {
                    assert(cap.triggers@.subrange(0, cap.triggers@.len() as int) =~= cap.triggers@);
                    lemma_index_add_all_concat(
                        start,
                        lowered(cap.keywords@),
                        triggers_words(names_view(cap.triggers@)),
                        cap.name@,
                    );
                }
            }
            i = i + 1;
        }
        self.semantic_index = idx;
    }
}

// ───────────────────────────── fuzzy lookup ─────────────────────────────

/// Names among the first `n` whose distance from `query` is exactly `k`, in order.
pub open spec fn at_distance(names: Seq<Seq<char>>, query: Seq<char>, k: nat, n: int) -> Seq<Seq<char>>
    decreases n,
{
    if n <= 0 {
        Seq::empty()
    } else {
        let prev = at_distance(names, query, k, n - 1);
        if edit_distance(query, names[n - 1]) == k {
            prev.push(names[n - 1])
        } else {
            prev
        }
    }
}

/// Names within distance 3 of `query`, nearest first, ties in input order
/// (a stable sort by distance).
pub open spec fn ranked_names(names: Seq<Seq<char>>, query: Seq<char>) -> Seq<Seq<char>> {
    let n = names.len() as int;
    at_distance(names, query, 0, n) + at_distance(names, query, 1, n) + at_distance(names, query, 2, n)
        + at_distance(names, query, 3, n)
}

proof fn lemma_at_distance_len(names: Seq<Seq<char>>, query: Seq<char>, k: nat, n: int)
    ensures
        at_distance(names, query, k, n).len() <= if n <= 0 {
            0
        } else {
            n
        },
    decreases n,
{
    if n > 0 {
        lemma_at_distance_len(names, query, k, n - 1);
    }
}

proof fn lemma_at_distance_has(names: Seq<Seq<char>>, query: Seq<char>, k: nat, n: int, j: int)
    requires
        0 <= j < n <= names.len(),
        edit_distance(query, names[j]) == k,
    ensures
        at_distance(names, query, k, n).contains(names[j]),
    decreases n,
{
    let cur = at_distance(names, query, k, n);
    if j < n - 1 {
        lemma_at_distance_has(names, query, k, n - 1, j);
        let prev = at_distance(names, query, k, n - 1);
        let w = choose|w: int| 0 <= w < prev.len() && prev[w] == names[j];
        assert(cur[w] == names[j]);
    } else {
        assert(cur[cur.len() - 1] == names[j]);
    }
}

/// The ranking of fuzzy lookup: it holds exactly the names within edit
/// distance 3 of the query (each name at most 3 away is in it, and
/// everything in it is such a name), ordered by distance, nearest first.
pub proof fn lemma_ranked_names(names: Seq<Seq<char>>, query: Seq<char>)
    ensures
        forall|j: int|
            0 <= j < names.len() && edit_distance(query, #[trigger] names[j]) <= 3 ==> ranked_names(names, query).contains(
                names[j],
            ),
        forall|i: int|
            0 <= i < ranked_names(names, query).len() ==> edit_distance(query, #[trigger] ranked_names(names, query)[i])
                <= 3,
        forall|i: int, j: int|
            0 <= i < j < ranked_names(names, query).len() ==> edit_distance(
                query,
                #[trigger] ranked_names(names, query)[i],
            ) <= edit_distance(query, #[trigger] ranked_names(names, query)[j]),
{
    let n = names.len() as int;
    let a0 = at_distance(names, query, 0, n);
    let a1 = at_distance(names, query, 1, n);
    let a2 = at_distance(names, query, 2, n);
    let a3 = at_distance(names, query, 3, n);
    let r = ranked_names(names, query);
    assert(r == a0 + a1 + a2 + a3);
    assert forall|j: int| 0 <= j < names.len() && edit_distance(query, #[trigger] names[j]) <= 3 implies r.contains(
        names[j],
    ) by {
        let d = edit_distance(query, names[j]);
        lemma_at_distance_has(names, query, d, n, j);
        let a = at_distance(names, query, d, n);
        let w = choose|w: int| 0 <= w < a.len() && a[w] == names[j];
        if d == 0 {
            assert(r[w] == names[j]);
        } else if d == 1 {
            assert(r[a0.len() + w] == names[j]);
        } else if d == 2 {
            assert(r[a0.len() + a1.len() + w] == names[j]);
        } else {
            assert(r[a0.len() + a1.len() + a2.len() + w] == names[j]);
        }
    }
    // The distance of each position of the ranking is the segment it lies in.
    assert forall|i: int| 0 <= i < r.len() implies edit_distance(query, #[trigger] r[i]) == if i < a0.len() {
        0int
    } else if i < a0.len() + a1.len() {
        1int
    } else if i < a0.len() + a1.len() + a2.len() {
        2int
    } else {
        3int
    } by {
        if i < a0.len() {
            lemma_at_distance_members(names, query, 0, n, i);
        } else if i < a0.len() + a1.len() {
            lemma_at_distance_members(names, query, 1, n, i - a0.len());
        } else if i < a0.len() + a1.len() + a2.len() {
            lemma_at_distance_members(names, query, 2, n, i - a0.len() - a1.len());
        } else {
            lemma_at_distance_members(names, query, 3, n, i - a0.len() - a1.len() - a2.len());
        }
    }
}

/// Skill names within edit distance 3 of `query`, with their distances,
/// nearest first (ties keep their order), at most `limit` of them.
pub fn fuzzy_skill_lookup(skill_names: &[String], query: &str, limit: usize) -> (r: Vec<(String, usize)>)
    ensures
        ({
            let ranked = ranked_names(names_view(skill_names@), query@);
            &&& r@.len() == if limit < ranked.len() {
                limit as int
            } else {
                ranked.len() as int
            }
            &&& forall|i: int|
                0 <= i < r@.len() ==> (#[trigger] r@[i]).0@ == ranked[i] && r@[i].1 == edit_distance(query@, ranked[i])
        }),
        forall|i: int| 0 <= i < r@.len() ==> (#[trigger] r@[i]).1 == edit_distance(query@, r@[i].0@) && r@[i].1 <= 3,
        forall|i: int, j: int| 0 <= i < j < r@.len() ==> (#[trigger] r@[i]).1 <= (#[trigger] r@[j]).1,
        r@.len() < limit ==> forall|j: int|
            0 <= j < skill_names@.len() && edit_distance(query@, (#[trigger] skill_names@[j])@) <= 3 ==> exists|i: int|
                0 <= i < r@.len() && (#[trigger] r@[i]).0@ == skill_names@[j]@,
{
    proof {
        lemma_ranked_names(names_view(skill_names@), query@);
    }
    let ghost names = names_view(skill_names@);
    let n = skill_names.len();
    let mut dists: Vec<usize> = Vec::new();
    let mut i: usize = 0;
    while i < n
        invariant
            n == skill_names@.len(),
            names == names_view(skill_names@),
            i <= n,
            dists@.len() == i,
            forall|j: int| 0 <= j < i ==> #[trigger] dists@[j] == edit_distance(query@, names[j]),
        decreases n - i,
    {
        dists.push(levenshtein(query, skill_names[i].as_str()));
        i = i + 1;
    }
    let mut r: Vec<(String, usize)> = Vec::new();
    let mut k: usize = 0;
    while k <= 3
        invariant
            n == skill_names@.len(),
            names == names_view(skill_names@),
            dists@.len() == n,
            forall|j: int| 0 <= j < n ==> #[trigger] dists@[j] == edit_distance(query@, names[j]),
            k <= 4,
            r@.len() == (if k >= 1 { at_distance(names, query@, 0, n as int).len() } else { 0 }) + (if k >= 2 {
                at_distance(names, query@, 1, n as int).len()
            } else {
                0
            }) + (if k >= 3 { at_distance(names, query@, 2, n as int).len() } else { 0 }) + (if k >= 4 {
                at_distance(names, query@, 3, n as int).len()
            } else {
                0
            }),
            forall|j: int| 0 <= j < r@.len() ==> (#[trigger] r@[j]).0@ == ranked_names(names, query@)[j] && r@[j].1
                == edit_distance(query@, ranked_names(names, query@)[j]),
        decreases 4 - k,
    {
        let ghost base = r@.len();
        let mut j: usize = 0;
        while j < n
            invariant
                n == skill_names@.len(),
                names == names_view(skill_names@),
                dists@.len() == n,
                forall|q: int| 0 <= q < n ==> #[trigger] dists@[q] == edit_distance(query@, names[q]),
                k <= 3,
                j <= n,
                r@.len() == base + at_distance(names, query@, k as nat, j as int).len(),
                forall|q: int| 0 <= q < base ==> (#[trigger] r@[q]).0@ == ranked_names(names, query@)[q] && r@[q].1
                    == edit_distance(query@, ranked_names(names, query@)[q]),
                forall|q: int|
                    0 <= q < at_distance(names, query@, k as nat, j as int).len() ==> (#[trigger] r@[base + q]).0@
                        == at_distance(names, query@, k as nat, j as int)[q] && r@[base + q].1 == k,
            decreases n - j,
        {
            if dists[j] == k {
                r.push((skill_names[j].clone(), k));
            }
            j = j + 1;
        }
        proof {
            let n_i = n as int;
            let a0 = at_distance(names, query@, 0, n_i);
            let a1 = at_distance(names, query@, 1, n_i);
            let a2 = at_distance(names, query@, 2, n_i);
            let a3 = at_distance(names, query@, 3, n_i);
            let rk = ranked_names(names, query@);
            assert(rk == a0 + a1 + a2 + a3);
            let cur = at_distance(names, query@, k as nat, n_i);
            assert(base == (if k >= 1 { a0.len() } else { 0 }) + (if k >= 2 { a1.len() } else { 0 }) + (if k >= 3 {
                a2.len()
            } else {
                0
            }));
            assert forall|q: int| 0 <= q < cur.len() implies rk[base + q] == cur[q] by {
                if k == 0 {
                    assert(rk[q] == a0[q]);
                } else if k == 1 {
                    assert(rk[a0.len() + q] == a1[q]);
                } else if k == 2 {
                    assert(rk[a0.len() + a1.len() + q] == a2[q]);
                } else {
                    assert(rk[a0.len() + a1.len() + a2.len() + q] == a3[q]);
                }
            }
            assert forall|q: int| 0 <= q < cur.len() implies edit_distance(query@, #[trigger] cur[q]) == k by {
                lemma_at_distance_members(names, query@, k as nat, n_i, q);
            }
            assert forall|q: int| 0 <= q < r@.len() implies (#[trigger] r@[q]).0@ == rk[q] && r@[q].1 == edit_distance(
                query@,
                rk[q],
            ) by {
                if q >= base {
                    let p = q - base;
                    assert(r@[base + p].0@ == cur[p]);
                    assert(edit_distance(query@, cur[p]) == k);
                }
            }
        }
        k = k + 1;
    }
    r.truncate(limit);
    proof {
        let ranked = ranked_names(names, query@);
        if r@.len() < limit {
            assert forall|j: int|
                0 <= j < skill_names@.len() && edit_distance(query@, (#[trigger] skill_names@[j])@) <= 3 implies exists|i: int|
                0 <= i < r@.len() && (#[trigger] r@[i]).0@ == skill_names@[j]@ by {
                assert(names[j] == skill_names@[j]@);
                let w = choose|w: int| 0 <= w < ranked.len() && ranked[w] == names[j];
                assert(r@[w].0@ == ranked[w]);
            }
        }
    }
    r
}

proof fn lemma_at_distance_members(names: Seq<Seq<char>>, query: Seq<char>, k: nat, n: int, q: int)
    requires
        0 <= q < at_distance(names, query, k, n).len(),
    ensures
        edit_distance(query, at_distance(names, query, k, n)[q]) == k,
    decreases n,
{
    if n > 0 {
        let prev = at_distance(names, query, k, n - 1);
        if q < prev.len() {
            lemma_at_distance_members(names, query, k, n - 1, q);
        }
    }
}

} // verus!
