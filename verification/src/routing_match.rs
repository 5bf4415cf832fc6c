//! What a routing query mentions: the capabilities whose triggers, handles or
//! keywords it contains, and the indexed keywords its words match exactly or
//! nearly. Scores are weighed from these by the caller.
use vstd::prelude::*;
use vstd::utf8::encode_utf8;
use crate::engine::names_view;
use crate::levenshtein::{chars_of, edit_distance, levenshtein};
use crate::routing::{index_model, listed, RoutingEngine, SkillCapability};
use crate::strmap::{lemma_pairs_model_at, live_positions, live_positions_of};
use crate::taxonomy::{str_lowercase, to_lowercase};
use crate::text::{byte_len, concat, push_char, seq_contains, str_contains};

verus! {

// ───────────────────────────── capabilities ─────────────────────────────

/// The phrases that `ctx` contains once lowercased, in order.
pub open spec fn mentioned(ctx: Seq<char>, phrases: Seq<Seq<char>>) -> Seq<Seq<char>>
    decreases phrases.len(),
{
    if phrases.len() == 0 {
        Seq::empty()
    } else {
        let prev = mentioned(ctx, phrases.drop_last());
        if seq_contains(ctx, str_lowercase(phrases.last())) {
            prev.push(phrases.last())
        } else {
            prev
        }
    }
}

/// Each text of `s` after `prefix`.
pub open spec fn labelled(prefix: Seq<char>, s: Seq<Seq<char>>) -> Seq<Seq<char>> {
    s.map_values(|x: Seq<char>| prefix + x)
}

/// What of one capability a query mentions.
#[derive(Debug)]
pub struct CapabilityMatch {
    /// The skill.
    pub name: String,
    /// How many of its triggers the query contains.
    pub triggers: usize,
    /// How many of the things it handles the query contains.
    pub handles: usize,
    /// How many of its keywords the query contains.
    pub keywords: usize,
    /// "trigger: ..", then "handles: ..", then "keyword: .." for each one found.
    pub matched: Vec<String>,
}

/// `m` is what the lowercased query `ctx` mentions of `c`.
pub open spec fn is_match_of(ctx: Seq<char>, c: SkillCapability, m: CapabilityMatch) -> bool {
    let t = mentioned(ctx, names_view(c.triggers@));
    let h = mentioned(ctx, names_view(c.handles@));
    let k = mentioned(ctx, names_view(c.keywords@));
    &&& m.name@ == c.name@
    &&& m.triggers == t.len()
    &&& m.handles == h.len()
    &&& m.keywords == k.len()
    &&& names_view(m.matched@) == labelled("trigger: "@, t) + labelled("handles: "@, h) + labelled("keyword: "@, k)
}

/// The query mentions something of `c`.
pub open spec fn mentions_any(ctx: Seq<char>, c: SkillCapability) -> bool {
    mentioned(ctx, names_view(c.triggers@)).len() > 0 || mentioned(ctx, names_view(c.handles@)).len() > 0
        || mentioned(ctx, names_view(c.keywords@)).len() > 0
}

/// Of the positions `ps` of the capability table, those whose capability
/// the query mentions, in order.
pub open spec fn mentioning(caps: Seq<(String, SkillCapability)>, ctx: Seq<char>, ps: Seq<int>) -> Seq<int>
    decreases ps.len(),
{
    if ps.len() == 0 {
        Seq::empty()
    } else {
        let prev = mentioning(caps, ctx, ps.drop_last());
        if mentions_any(ctx, caps[ps.last()].1) {
            prev.push(ps.last())
        } else {
            prev
        }
    }
}

/// Appends `prefix` + each phrase that `q` contains once lowercased; returns
/// how many it appended.
fn mention_list(q: &str, phrases: &Vec<String>, prefix: &str, out: &mut Vec<String>) -> (count: usize)
    ensures
        count == mentioned(q@, names_view(phrases@)).len(),
        names_view(final(out)@) == names_view(old(out)@) + labelled(prefix@, mentioned(q@, names_view(phrases@))),
{
    let ghost start = names_view(out@);
    let mut count: usize = 0;
    let mut i: usize = 0;
    while i < phrases.len()
        invariant
            i <= phrases@.len(),
            count == mentioned(q@, names_view(phrases@).take(i as int)).len(),
            count <= i,
            names_view(out@) == start + labelled(prefix@, mentioned(q@, names_view(phrases@).take(i as int))),
        decreases phrases@.len() - i,
    {
        let lp = to_lowercase(phrases[i].as_str());
        proof {
            assert(names_view(phrases@).take(i + 1).drop_last() =~= names_view(phrases@).take(i as int));
            assert(names_view(phrases@).take(i + 1).last() == phrases@[i as int]@);
        }
        if str_contains(q, lp.as_str()) {
            let line = concat(prefix, phrases[i].as_str());
            let ghost before = names_view(out@);
            out.push(line);
            proof {
                assert(names_view(out@) =~= before.push(line@));
            }
            count = count + 1;
        }
        proof {
            assert(names_view(out@) =~= start + labelled(prefix@, mentioned(q@, names_view(phrases@).take(i + 1))));
        }
        i = i + 1;
    }
    proof {
        assert(names_view(phrases@).take(phrases@.len() as int) =~= names_view(phrases@));
    }
    count
}

impl RoutingEngine {
    /// For each stored capability (a later one replacing an earlier one of
    /// the same name), in table order, what the query mentions of it, if
    /// anything. A trigger, handle or keyword counts when the lowercased
    /// query contains it lowercased.
    pub fn capability_matches(&self, context: &str) -> (r: Vec<CapabilityMatch>)
        ensures
            ({
                let caps = self.capabilities.entries@;
                let ctx = str_lowercase(context@);
                let ps = mentioning(caps, ctx, live_positions(caps, caps.len() as int));
                &&& r@.len() == ps.len()
                &&& forall|i: int| 0 <= i < r@.len() ==> is_match_of(ctx, caps[ps[i]].1, #[trigger] r@[i])
            }),
    {
        let q = to_lowercase(context);
        let entries = &self.capabilities.entries;
        let ghost caps = entries@;
        let ghost ctx = str_lowercase(context@);
        let live = live_positions_of(entries);
        let ghost lp = live_positions(caps, caps.len() as int);
        let mut r: Vec<CapabilityMatch> = Vec::new();
        let mut j: usize = 0;
        while j < live.len()
            invariant
                q@ == ctx,
                caps == entries@,
                lp == live_positions(caps, caps.len() as int),
                live@.len() == lp.len(),
                forall|i: int| 0 <= i < live@.len() ==> #[trigger] live@[i] as int == lp[i],
                forall|i: int| 0 <= i < live@.len() ==> #[trigger] live@[i] < caps.len(),
                j <= live@.len(),
                r@.len() == mentioning(caps, ctx, lp.take(j as int)).len(),
                forall|i: int| 0 <= i < r@.len() ==> is_match_of(
                    ctx,
                    caps[mentioning(caps, ctx, lp.take(j as int))[i]].1,
                    #[trigger] r@[i],
                ),
            decreases live@.len() - j,
        {
            let p = live[j];
            let c = &entries[p].1;
            let mut matched: Vec<String> = Vec::new();
            let t = mention_list(q.as_str(), &c.triggers, "trigger: ", &mut matched);
            let h = mention_list(q.as_str(), &c.handles, "handles: ", &mut matched);
            let k = mention_list(q.as_str(), &c.keywords, "keyword: ", &mut matched);
            let ghost prev = mentioning(caps, ctx, lp.take(j as int));
            proof {
                assert(lp.take(j + 1).drop_last() =~= lp.take(j as int));
                assert(lp.take(j + 1).last() == p as int);
            }
            if t > 0 || h > 0 || k > 0 {
                let m = CapabilityMatch { name: c.name.clone(), triggers: t, handles: h, keywords: k, matched };
                proof {
                    assert(names_view(m.matched@) =~= labelled("trigger: "@, mentioned(ctx, names_view(c.triggers@)))
                        + labelled("handles: "@, mentioned(ctx, names_view(c.handles@))) + labelled(
                        "keyword: "@,
                        mentioned(ctx, names_view(c.keywords@)),
                    ));
                }
                let ghost rb = r@;
                r.push(m);
                proof {
                    assert forall|i: int| 0 <= i < r@.len() implies is_match_of(
                        ctx,
                        caps[mentioning(caps, ctx, lp.take(j + 1))[i]].1,
                        #[trigger] r@[i],
                    ) by {
                        if i < rb.len() {
                            assert(r@[i] == rb[i]);
                        }
                    }
                }
            }
            j = j + 1;
        }
        proof {
            assert(lp.take(live@.len() as int) =~= lp);
        }
        r
    }
}

// ───────────────────────────── keywords ─────────────────────────────

/// Name for `char::is_alphanumeric` (Unicode Alphabetic or Numeric).
pub uninterp spec fn char_alphanumeric(c: char) -> bool;

/// `char::is_alphanumeric`. On ASCII, exactly the letters and digits;
/// beyond ASCII only the name is stated.
#[verifier::external_body]
pub(crate) fn is_alnum(c: char) -> (r: bool)
    ensures
        r == char_alphanumeric(c),
        ('a' <= c <= 'z' || 'A' <= c <= 'Z' || '0' <= c <= '9') ==> r,
        (c as u32) < 128 && !('a' <= c <= 'z' || 'A' <= c <= 'Z' || '0' <= c <= '9') ==> !r,
{
    c.is_alphanumeric()
}

/// `done` with `w` appended when `w` is longer than two bytes.
pub open spec fn keep_long(done: Seq<Seq<char>>, w: Seq<char>) -> Seq<Seq<char>> {
    if encode_utf8(w).len() > 2 {
        done.push(w)
    } else {
        done
    }
}

/// Scanning the first `n` characters of `s`: the finished words longer than
/// two bytes, and the run of alphanumeric characters in progress.
pub open spec fn scan_words(s: Seq<char>, n: int) -> (Seq<Seq<char>>, Seq<char>)
    decreases n,
{
    if n <= 0 {
        (Seq::empty(), Seq::empty())
    } else {
        let (done, cur) = scan_words(s, n - 1);
        if char_alphanumeric(s[n - 1]) {
            (done, cur.push(s[n - 1]))
        } else {
            (keep_long(done, cur), Seq::empty())
        }
    }
}

/// The words of a query: its runs of alphanumeric characters longer than two
/// bytes, in order.
pub open spec fn query_words(s: Seq<char>) -> Seq<Seq<char>> {
    let (done, cur) = scan_words(s, s.len() as int);
    keep_long(done, cur)
}

/// The words of `s`, as `query_words` says.
pub fn split_query(s: &str) -> (r: Vec<String>)
    ensures
        names_view(r@) == query_words(s@),
{
    let cs = chars_of(s);
    let mut done: Vec<String> = Vec::new();
    let mut cur = String::new();
    let mut i: usize = 0;
    while i < cs.len()
        invariant
            cs@ == s@,
            i <= cs@.len(),
            (names_view(done@), cur@) == scan_words(s@, i as int),
        decreases cs@.len() - i,
    {
        let c = cs[i];
        if is_alnum(c) {
            push_char(&mut cur, c);
        } else {
            if byte_len(cur.as_str()) > 2 {
                let ghost before = names_view(done@);
                let w = cur;
                done.push(w);
                proof {
                    assert(names_view(done@) =~= before.push(w@));
                }
            }
            cur = String::new();
        }
        i = i + 1;
    }
    if byte_len(cur.as_str()) > 2 {
        let ghost before = names_view(done@);
        let w = cur;
        done.push(w);
        proof {
            assert(names_view(done@) =~= before.push(w@));
        }
    }
    done
}

/// One keyword hit of a query word: the skill, the word as the query wrote
/// it, and for a near match the indexed keyword, the edit distance (in
/// characters) and the greater UTF-8 length of the two.
#[derive(Debug)]
pub struct SemanticHit {
    pub skill: String,
    pub word: String,
    /// `None` for an exact match of the lowercased word.
    pub indexed: Option<String>,
    pub distance: usize,
    pub longest: usize,
}

pub type HitView = (Seq<char>, Seq<char>, Option<Seq<char>>, nat, nat);

pub open spec fn hit_view(h: SemanticHit) -> HitView {
    (
        h.skill@,
        h.word@,
        match h.indexed {
            Some(x) => Some(x@),
            None => None,
        },
        h.distance as nat,
        h.longest as nat,
    )
}

pub open spec fn hits_view(s: Seq<SemanticHit>) -> Seq<HitView> {
    s.map_values(|h: SemanticHit| hit_view(h))
}

/// The greater of two numbers.
pub open spec fn nat_max(a: nat, b: nat) -> nat {
    if a >= b {
        a
    } else {
        b
    }
}

/// Exact hits of `w`: the skills listed under it lowercased.
pub open spec fn exact_hits(idx: Map<Seq<char>, Seq<Seq<char>>>, w: Seq<char>) -> Seq<HitView> {
    listed(idx, str_lowercase(w)).map_values(|sk: Seq<char>| (sk, w, None::<Seq<char>>, 0nat, 0nat))
}

/// Near hits of `w` over the index entries at positions `ps`, in order: an
/// entry whose keyword is one or two edits from the lowercased word gives a
/// hit for each skill it lists.
pub open spec fn fuzzy_hits(entries: Seq<(String, Vec<String>)>, ps: Seq<int>, w: Seq<char>) -> Seq<HitView>
    decreases ps.len(),
{
    if ps.len() == 0 {
        Seq::empty()
    } else {
        let prev = fuzzy_hits(entries, ps.drop_last(), w);
        let e = entries[ps.last()];
        let lw = str_lowercase(w);
        let d = edit_distance(lw, e.0@);
        if 0 < d <= 2 {
            let longest = nat_max(encode_utf8(lw).len(), encode_utf8(e.0@).len());
            prev + names_view(e.1@).map_values(|sk: Seq<char>| (sk, w, Some(e.0@), d, longest))
        } else {
            prev
        }
    }
}

/// The hits of the words `ws`, word by word: exact hits, then near hits.
pub open spec fn word_hits(entries: Seq<(String, Vec<String>)>, idx: Map<Seq<char>, Seq<Seq<char>>>, ws: Seq<Seq<char>>) -> Seq<
    HitView,
>
    decreases ws.len(),
{
    if ws.len() == 0 {
        Seq::empty()
    } else {
        word_hits(entries, idx, ws.drop_last()) + exact_hits(idx, ws.last()) + fuzzy_hits(
            entries,
            live_positions(entries, entries.len() as int),
            ws.last(),
        )
    }
}

fn push_hits(
    out: &mut Vec<SemanticHit>,
    skills: &Vec<String>,
    word: &String,
    indexed: &Option<String>,
    distance: usize,
    longest: usize,
)
    ensures
        hits_view(final(out)@) == hits_view(old(out)@) + names_view(skills@).map_values(
            |sk: Seq<char>|
                (
                    sk,
                    word@,
                    match indexed {
                        Some(x) => Some(x@),
                        None => None,
                    },
                    distance as nat,
                    longest as nat,
                ),
        ),
{
    let ghost start = hits_view(out@);
    let ghost ix = match indexed {
        Some(x) => Some(x@),
        None => None::<Seq<char>>,
    };
    let mut i: usize = 0;
    while i < skills.len()
        invariant
            i <= skills@.len(),
            ix == match indexed {
                Some(x) => Some(x@),
                None => None::<Seq<char>>,
            },
            hits_view(out@) == start + names_view(skills@).take(i as int).map_values(
                |sk: Seq<char>| (sk, word@, ix, distance as nat, longest as nat),
            ),
        decreases skills@.len() - i,
    {
        let h = SemanticHit {
            skill: skills[i].clone(),
            word: word.clone(),
            indexed: match indexed {
                Some(x) => Some(x.clone()),
                None => None,
            },
            distance,
            longest,
        };
        let ghost before = hits_view(out@);
        out.push(h);
        proof {
            assert(hits_view(out@) =~= before.push(hit_view(h)));
            assert(names_view(skills@).take(i + 1) =~= names_view(skills@).take(i as int).push(skills@[i as int]@));
            assert(hits_view(out@) =~= start + names_view(skills@).take(i + 1).map_values(
                |sk: Seq<char>| (sk, word@, ix, distance as nat, longest as nat),
            ));
        }
        i = i + 1;
    }
    proof {
        assert(names_view(skills@).take(skills@.len() as int) =~= names_view(skills@));
    }
}

impl RoutingEngine {
    /// The keyword hits of a query: for each of its words (runs of
    /// alphanumeric characters longer than two bytes), the skills indexed
    /// under the word lowercased, then, over the index in order, the skills
    /// of each keyword one or two edits away from it.
    pub fn semantic_hits(&self, context: &str) -> (r: Vec<SemanticHit>)
        ensures
            hits_view(r@) == word_hits(
                self.semantic_index.entries@,
                index_model(self.semantic_index),
                query_words(context@),
            ),
    {
        let words = split_query(context);
        let ghost ws = names_view(words@);
        let ghost entries = self.semantic_index.entries@;
        let ghost idx = index_model(self.semantic_index);
        let live = live_positions_of(&self.semantic_index.entries);
        let ghost lp = live_positions(entries, entries.len() as int);
        let mut r: Vec<SemanticHit> = Vec::new();
        let mut wi: usize = 0;
        while wi < words.len()
            invariant
                ws == names_view(words@),
                entries == self.semantic_index.entries@,
                idx == index_model(self.semantic_index),
                lp == live_positions(entries, entries.len() as int),
                live@.len() == lp.len(),
                forall|i: int| 0 <= i < live@.len() ==> #[trigger] live@[i] as int == lp[i],
                forall|i: int| 0 <= i < live@.len() ==> #[trigger] live@[i] < entries.len(),
                wi <= words@.len(),
                hits_view(r@) == word_hits(entries, idx, ws.take(wi as int)),
            decreases words@.len() - wi,
        {
            let word = &words[wi];
            let lw = to_lowercase(word.as_str());
            let ghost base = hits_view(r@);
            proof {
                assert(ws[wi as int] == word@);
                lemma_pairs_model_at(entries, lw@);
            }
            match self.semantic_index.get(lw.as_str()) {
                Some(skills) => {
                    push_hits(&mut r, skills, word, &None, 0, 0);
                },
                None => {},
            }
            proof {
                assert(hits_view(r@) =~= base + exact_hits(idx, word@));
            }
            let ghost mid = hits_view(r@);
            let mut j: usize = 0;
            while j < live.len()
                invariant
                    entries == self.semantic_index.entries@,
                    lp == live_positions(entries, entries.len() as int),
                    live@.len() == lp.len(),
                    forall|i: int| 0 <= i < live@.len() ==> #[trigger] live@[i] as int == lp[i],
                    forall|i: int| 0 <= i < live@.len() ==> #[trigger] live@[i] < entries.len(),
                    lw@ == str_lowercase(word@),
                    j <= live@.len(),
                    hits_view(r@) == mid + fuzzy_hits(entries, lp.take(j as int), word@),
                decreases live@.len() - j,
            {
                let p = live[j];
                let e = &self.semantic_index.entries[p];
                let d = levenshtein(lw.as_str(), e.0.as_str());
                proof {
                    assert(lp.take(j + 1).drop_last() =~= lp.take(j as int));
                    assert(lp.take(j + 1).last() == p as int);
                }
                let ghost before = hits_view(r@);
                if d > 0 && d <= 2 {
                    let a = byte_len(lw.as_str());
                    let b = byte_len(e.0.as_str());
                    let longest = if a >= b {
                        a
                    } else {
                        b
                    };
                    push_hits(&mut r, &e.1, word, &Some(e.0.clone()), d, longest);
                }
                proof {
                    assert(hits_view(r@) =~= mid + fuzzy_hits(entries, lp.take(j + 1), word@));
                }
                j = j + 1;
            }
            proof {
                assert(lp.take(live@.len() as int) =~= lp);
                assert(ws.take(wi + 1).drop_last() =~= ws.take(wi as int));
                assert(ws.take(wi + 1).last() == word@);
                assert(hits_view(r@) =~= word_hits(entries, idx, ws.take(wi + 1)));
            }
            wi = wi + 1;
        }
        proof {
            assert(ws.take(words@.len() as int) =~= ws);
        }
        r
    }
}

} // verus!
