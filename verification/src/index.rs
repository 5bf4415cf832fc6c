//! A name-indexed, immutable collection of micrograms, kept sorted by name.
use vstd::prelude::*;
use std::sync::Arc;
use crate::microgram::Microgram;
use crate::levenshtein::chars_of;
use crate::value::str_eq;
use crate::text::concat;
use crate::microgram::join5;

verus! {

/// Code-point order of two character sequences (the order of `str`, since
/// UTF-8 preserves it).
pub open spec fn text_lt(a: Seq<char>, b: Seq<char>) -> bool
    decreases a.len(),
{
    if a.len() == 0 {
        b.len() > 0
    } else if b.len() == 0 {
        false
    } else if a[0] != b[0] {
        a[0] < b[0]
    } else {
        text_lt(a.drop_first(), b.drop_first())
    }
}

pub proof fn lemma_text_lt_irreflexive(a: Seq<char>)
    ensures
        !text_lt(a, a),
    decreases a.len(),
{
    if a.len() > 0 {
        lemma_text_lt_irreflexive(a.drop_first());
    }
}

pub proof fn lemma_text_lt_total(a: Seq<char>, b: Seq<char>)
    ensures
        a == b || text_lt(a, b) || text_lt(b, a),
    decreases a.len(),
{
    if a.len() > 0 && b.len() > 0 && a[0] == b[0] {
        lemma_text_lt_total(a.drop_first(), b.drop_first());
        if a.drop_first() == b.drop_first() {
            assert(a.len() == b.len());
            assert forall|i: int| 0 <= i < a.len() implies a[i] == b[i] by {
                if i > 0 {
                    assert(a[i] == a.drop_first()[i - 1]);
                    assert(b[i] == b.drop_first()[i - 1]);
                }
            }
            assert(a =~= b);
        }
    }
    if a.len() == 0 && b.len() == 0 {
        assert(a =~= b);
    }
}

pub proof fn lemma_text_lt_transitive(a: Seq<char>, b: Seq<char>, c: Seq<char>)
    requires
        text_lt(a, b),
        text_lt(b, c),
    ensures
        text_lt(a, c),
    decreases a.len(),
{
    if a.len() > 0 && b.len() > 0 && c.len() > 0 && a[0] == b[0] && b[0] == c[0] {
        lemma_text_lt_transitive(a.drop_first(), b.drop_first(), c.drop_first());
    }
}

pub proof fn lemma_text_lt_asymmetric(a: Seq<char>, b: Seq<char>)
    requires
        text_lt(a, b),
    ensures
        !text_lt(b, a),
    decreases a.len(),
{
    if a.len() > 0 && b.len() > 0 && a[0] == b[0] {
        lemma_text_lt_asymmetric(a.drop_first(), b.drop_first());
    }
}

/// True when `a` comes before `b` in code-point order.
pub fn text_less(a: &str, b: &str) -> (r: bool)
    ensures
        r == text_lt(a@, b@),
{
    let x = chars_of(a);
    let y = chars_of(b);
    let mut i: usize = 0;
    proof {
        assert(x@.subrange(0, x@.len() as int) =~= x@);
        assert(y@.subrange(0, y@.len() as int) =~= y@);
    }
    while i < x.len() && i < y.len()
        invariant
            x@ == a@,
            y@ == b@,
            i <= x@.len(),
            i <= y@.len(),
            forall|j: int| 0 <= j < i ==> x@[j] == y@[j],
            text_lt(x@, y@) == text_lt(x@.subrange(i as int, x@.len() as int), y@.subrange(i as int, y@.len() as int)),
        decreases x@.len() - i,
    {
        let ghost xs = x@.subrange(i as int, x@.len() as int);
        let ghost ys = y@.subrange(i as int, y@.len() as int);
        proof {
            assert(xs.drop_first() =~= x@.subrange(i + 1, x@.len() as int));
            assert(ys.drop_first() =~= y@.subrange(i + 1, y@.len() as int));
            assert(xs[0] == x@[i as int]);
            assert(ys[0] == y@[i as int]);
        }
        if x[i] != y[i] {
            proof {
                assert(xs.len() > 0 && ys.len() > 0);
                assert(text_lt(xs, ys) == (xs[0] < ys[0]));
            }
            return x[i] < y[i];
        }
        i = i + 1;
    }
    proof {
        assert(x@.subrange(i as int, x@.len() as int).len() == x@.len() - i);
        assert(y@.subrange(i as int, y@.len() as int).len() == y@.len() - i);
    }
    i < y.len() && i == x.len()
}

/// A load failure: the file and what went wrong.
#[derive(Debug, Clone)]
pub struct LoadError {
    pub path: String,
    pub message: String,
}

impl LoadError {
    /// "path: message".
    pub fn describe(&self) -> (r: String)
        ensures
            r@ == self.path@ + ": "@ + self.message@,
    {
        let mut s = concat(self.path.as_str(), ": ");
        s.append(self.message.as_str());
        s
    }
}

/// `Arc::clone`: another pointer to the same value.
#[verifier::external_body]
pub(crate) fn share<T>(a: &Arc<T>) -> (r: Arc<T>)
    ensures
        r == *a,
{
    Arc::clone(a)
}

/// A name-indexed view of a collection of micrograms.
///
/// Entries are kept in strictly increasing name order, each under the name
/// of the microgram it holds.
#[derive(Debug)]
pub struct MicrogramIndex {
    dir: String,
    by_name: Vec<(String, Arc<Microgram>)>,
    load_errors: Vec<LoadError>,
}

/// Names of a sequence of entries.
pub open spec fn entry_names(s: Seq<(String, Arc<Microgram>)>) -> Seq<Seq<char>> {
    s.map_values(|e: (String, Arc<Microgram>)| e.0@)
}

/// Strictly increasing in code-point order.
pub open spec fn strictly_sorted(s: Seq<Seq<char>>) -> bool {
    forall|i: int, j: int| 0 <= i < j < s.len() ==> text_lt(#[trigger] s[i], #[trigger] s[j])
}

/// Each entry sits under the name of its microgram.
pub open spec fn keyed_by_name(s: Seq<(String, Arc<Microgram>)>) -> bool {
    forall|i: int| 0 <= i < s.len() ==> (#[trigger] s[i]).0@ == (*s[i].1).name@
}

/// The micrograms of a list by name; a later microgram replaces an earlier
/// one with the same name.
pub open spec fn later_wins(s: Seq<Microgram>) -> Map<Seq<char>, Microgram>
    decreases s.len(),
{
    if s.len() == 0 {
        Map::empty()
    } else {
        later_wins(s.drop_last()).insert(s.last().name@, s.last())
    }
}

/// Meaning of a sequence of entries.
pub open spec fn entries_map(s: Seq<(String, Arc<Microgram>)>) -> Map<Seq<char>, Microgram> {
    Map::new(|k: Seq<char>| has_entry(s, k), |k: Seq<char>| *s[entry_pos(s, k)].1)
}

/// Some entry has name `k`.
pub open spec fn has_entry(s: Seq<(String, Arc<Microgram>)>, k: Seq<char>) -> bool {
    exists|i: int| 0 <= i < s.len() && (#[trigger] s[i]).0@ == k
}

/// A position of an entry named `k`.
pub open spec fn entry_pos(s: Seq<(String, Arc<Microgram>)>, k: Seq<char>) -> int {
    choose|i: int| 0 <= i < s.len() && (#[trigger] s[i]).0@ == k
}

impl MicrogramIndex {
    #[verifier::type_invariant]
    spec fn well_formed(self) -> bool {
        &&& strictly_sorted(entry_names(self.by_name@))
        &&& keyed_by_name(self.by_name@)
    }

    /// Directory the index was built for.
    pub closed spec fn dir_view(&self) -> Seq<char> {
        self.dir@
    }

    /// The micrograms by name.
    pub closed spec fn model(&self) -> Map<Seq<char>, Microgram> {
        entries_map(self.by_name@)
    }

    /// The names, in increasing order.
    pub closed spec fn name_list(&self) -> Seq<Seq<char>> {
        entry_names(self.by_name@)
    }

    /// The recorded load failures.
    pub closed spec fn errors(&self) -> Seq<LoadError> {
        self.load_errors@
    }

    /// The names are strictly increasing and are exactly the model's keys.
    proof fn lemma_names(s: Seq<(String, Arc<Microgram>)>)
        requires
            strictly_sorted(entry_names(s)),
            keyed_by_name(s),
        ensures
            forall|k: Seq<char>| entries_map(s).contains_key(k) <==> entry_names(s).contains(k),
    {
        let names = entry_names(s);
        assert forall|k: Seq<char>| entries_map(s).contains_key(k) <==> names.contains(k) by {
            if entries_map(s).contains_key(k) {
                let i = entry_pos(s, k);
                assert(names[i] == k);
            }
            if names.contains(k) {
                let i = choose|i: int| 0 <= i < names.len() && names[i] == k;
                assert(s[i].0@ == k);
            }
        }
    }

    /// Store `mg` under its name, replacing a microgram of the same name.
    fn put(entries: &mut Vec<(String, Arc<Microgram>)>, mg: Microgram)
        requires
            strictly_sorted(entry_names(old(entries)@)),
            keyed_by_name(old(entries)@),
        ensures
            strictly_sorted(entry_names(final(entries)@)),
            keyed_by_name(final(entries)@),
            entries_map(final(entries)@) == entries_map(old(entries)@).insert(mg.name@, mg),
    {
        let ghost s0 = entries@;
        let ghost key = mg.name@;
        let mut i: usize = 0;
        while i < entries.len() && text_less(entries[i].0.as_str(), mg.name.as_str())
            invariant
                entries@ == s0,
                key == mg.name@,
                i <= s0.len(),
                forall|j: int| 0 <= j < i ==> text_lt(#[trigger] s0[j].0@, key),
            decreases s0.len() - i,
        {
            i = i + 1;
        }
        let name = mg.name.clone();
        if i < entries.len() && str_eq(entries[i].0.as_str(), mg.name.as_str()) {
            entries.set(i, (name, Arc::new(mg)));
            proof {
                let s1 = entries@;
                assert(entry_names(s1) =~= entry_names(s0));
                assert forall|j: int| 0 <= j < s1.len() implies (#[trigger] s1[j]).0@ == (*s1[j].1).name@ by {
                    if j != i {
                        assert(s1[j] == s0[j]);
                    }
                }
                assert forall|j: int| 0 <= j < s0.len() && j != i implies (#[trigger] s0[j]).0@ != key by {
                    lemma_text_lt_irreflexive(key);
                    if j < i {
                        assert(text_lt(s0[j].0@, key));
                    } else {
                        assert(text_lt(entry_names(s0)[i as int], entry_names(s0)[j]));
                    }
                }
                assert(entries_map(s1) =~= entries_map(s0).insert(key, mg)) by {
                    assert forall|k: Seq<char>| #[trigger] entries_map(s1).contains_key(k) implies entries_map(s1)[k]
                        == entries_map(s0).insert(key, mg)[k] by {
                        let w = entry_pos(s1, k);
                        if k == key {
                            if w != i {
                                assert(s0[w].0@ == key);
                            }
                        } else {
                            assert(w != i);
                            assert(s0[w] == s1[w]);
                            let w0 = entry_pos(s0, k);
                            if w0 != w {
                                lemma_text_lt_irreflexive(k);
                                if w0 < w {
                                    assert(text_lt(entry_names(s0)[w0], entry_names(s0)[w]));
                                } else {
                                    assert(text_lt(entry_names(s0)[w], entry_names(s0)[w0]));
                                }
                            }
                        }
                    }
                    assert forall|k: Seq<char>| entries_map(s0).insert(key, mg).contains_key(k) implies #[trigger] entries_map(
                        s1,
                    ).contains_key(k) by {
                        if k == key {
                            assert(s1[i as int].0@ == k);
                        } else {
                            let w0 = entry_pos(s0, k);
                            assert(w0 != i);
                            assert(s1[w0] == s0[w0]);
                        }
                    }
                }
            }
        } else {
            proof {
                if i < s0.len() {
                    lemma_text_lt_total(s0[i as int].0@, key);
                }
            }
            entries.insert(i, (name, Arc::new(mg)));
            proof {
                let s1 = entries@;
                let n0 = entry_names(s0);
                let n1 = entry_names(s1);
                assert forall|j: int| 0 <= j < s1.len() implies (#[trigger] s1[j]).0@ == (*s1[j].1).name@ by {
                    if j < i {
                        assert(s1[j] == s0[j]);
                    } else if j > i {
                        assert(s1[j] == s0[j - 1]);
                    }
                }
                assert forall|a: int, b: int| 0 <= a < b < n1.len() implies text_lt(#[trigger] n1[a], #[trigger] n1[b]) by {
                    if b < i {
                        assert(n1[a] == n0[a] && n1[b] == n0[b]);
                    } else if b == i {
                        assert(n1[a] == n0[a]);
                    } else if a > i {
                        assert(n1[a] == n0[a - 1] && n1[b] == n0[b - 1]);
                    } else if a == i {
                        assert(n1[b] == n0[b - 1]);
                        assert(text_lt(key, n0[i as int]));
                        if b - 1 > i {
                            assert(text_lt(n0[i as int], n0[b - 1]));
                            lemma_text_lt_transitive(key, n0[i as int], n0[b - 1]);
                        }
                    } else {
                        assert(n1[a] == n0[a] && n1[b] == n0[b - 1]);
                        assert(text_lt(n0[a], key));
                        assert(text_lt(key, n0[i as int]));
                        lemma_text_lt_transitive(n0[a], key, n0[i as int]);
                        if b - 1 > i {
                            assert(text_lt(n0[i as int], n0[b - 1]));
                            lemma_text_lt_transitive(n0[a], n0[i as int], n0[b - 1]);
                        }
                    }
                }
                assert forall|j: int| 0 <= j < s0.len() implies (#[trigger] s0[j]).0@ != key by {
                    lemma_text_lt_irreflexive(key);
                    if j < i {
                        assert(text_lt(s0[j].0@, key));
                    } else {
                        assert(text_lt(key, n0[i as int]));
                        if j > i {
                            assert(text_lt(n0[i as int], n0[j]));
                            lemma_text_lt_transitive(key, n0[i as int], n0[j]);
                        }
                        lemma_text_lt_asymmetric(key, s0[j].0@);
                    }
                }
                assert(entries_map(s1) =~= entries_map(s0).insert(key, mg)) by {
                    assert forall|k: Seq<char>| #[trigger] entries_map(s1).contains_key(k) implies entries_map(s1)[k]
                        == entries_map(s0).insert(key, mg)[k] by {
                        let w = entry_pos(s1, k);
                        if k == key {
                            if w != i {
                                if w < i {
                                    assert(s0[w].0@ == key);
                                } else {
                                    assert(s0[w - 1].0@ == key);
                                }
                            }
                        } else {
                            assert(w != i);
                            let ow = if w < i {
                                w
                            } else {
                                w - 1
                            };
                            assert(s1[w] == s0[ow]);
                            let w0 = entry_pos(s0, k);
                            if w0 != ow {
                                lemma_text_lt_irreflexive(k);
                                if w0 < ow {
                                    assert(text_lt(n0[w0], n0[ow]));
                                } else {
                                    assert(text_lt(n0[ow], n0[w0]));
                                }
                            }
                        }
                    }
                    assert forall|k: Seq<char>| entries_map(s0).insert(key, mg).contains_key(k) implies #[trigger] entries_map(
                        s1,
                    ).contains_key(k) by {
                        if k == key {
                            assert(s1[i as int].0@ == k);
                        } else {
                            let w0 = entry_pos(s0, k);
                            if w0 < i {
                                assert(s1[w0] == s0[w0]);
                            } else {
                                assert(s1[w0 + 1] == s0[w0]);
                            }
                        }
                    }
                }
            }
        }
    }

    /// Build an index from micrograms already loaded, recording the given
    /// load failures. A later microgram replaces an earlier one of the same name.
    pub fn from_loaded(dir: &str, micrograms: Vec<Microgram>, load_errors: Vec<LoadError>) -> (r: MicrogramIndex)
        ensures
            r.dir_view() == dir@,
            r.model() == later_wins(micrograms@),
            r.errors() == load_errors@,
    {
        let ghost all = micrograms@;
        let mut by_name: Vec<(String, Arc<Microgram>)> = Vec::new();
        let mut rest = micrograms;
        proof {
            assert(entries_map(by_name@) =~= Map::<Seq<char>, Microgram>::empty());
        }
        let ghost mut k: int = 0;
        while rest.len() > 0
            invariant
                rest@ == all.subrange(k, all.len() as int),
                0 <= k <= all.len(),
                strictly_sorted(entry_names(by_name@)),
                keyed_by_name(by_name@),
                entries_map(by_name@) == later_wins(all.subrange(0, k)),
            decreases rest@.len(),
        {
            let mg = rest.remove(0);
            proof {
                assert(mg == all[k]);
                assert(all.subrange(0, k + 1).drop_last() =~= all.subrange(0, k));
                assert(rest@ =~= all.subrange(k + 1, all.len() as int));
            }
            Self::put(&mut by_name, mg);
            proof {
                k = k + 1;
            }
        }
        proof {
            assert(all.subrange(0, all.len() as int) =~= all);
        }
        MicrogramIndex { dir: String::from_str(dir), by_name, load_errors }
    }

    /// Build an index from micrograms already in memory, with no load failures.
    pub fn from_vec(dir: &str, micrograms: Vec<Microgram>) -> (r: MicrogramIndex)
        ensures
            r.dir_view() == dir@,
            r.model() == later_wins(micrograms@),
            r.errors().len() == 0,
    {
        Self::from_loaded(dir, micrograms, Vec::new())
    }

    /// Directory this index was built for.
    pub fn dir(&self) -> (r: &str)
        ensures
            r@ == self.dir_view(),
    {
        self.dir.as_str()
    }

    /// Number of micrograms.
    pub fn len(&self) -> (n: usize)
        ensures
            n == self.model().len(),
            n == self.name_list().len(),
    {
        proof {
            use_type_invariant(self);
            Self::lemma_names(self.by_name@);
            lemma_sorted_distinct_len(self.name_list(), self.model());
        }
        self.by_name.len()
    }

    /// True when the index holds no microgram.
    pub fn is_empty(&self) -> (b: bool)
        ensures
            b == (self.model().len() == 0),
    {
        self.len() == 0
    }

    fn find(&self, name: &str) -> (r: Option<usize>)
        ensures
            match r {
                Some(i) => i < self.by_name@.len() && self.by_name@[i as int].0@ == name@,
                None => !self.model().contains_key(name@),
            },
    {
        let mut i: usize = 0;
        while i < self.by_name.len()
            invariant
                i <= self.by_name@.len(),
                forall|j: int| 0 <= j < i ==> (#[trigger] self.by_name@[j]).0@ != name@,
            decreases self.by_name@.len() - i,
        {
            if str_eq(self.by_name[i].0.as_str(), name) {
                return Some(i);
            }
            i = i + 1;
        }
        None
    }

    /// The microgram named `name`, shared.
    pub fn get(&self, name: &str) -> (r: Option<Arc<Microgram>>)
        ensures
            match r {
                Some(m) => self.model().contains_key(name@) && *m == self.model()[name@],
                None => !self.model().contains_key(name@),
            },
    {
        match self.find(name) {
            Some(i) => {
                proof {
                    use_type_invariant(self);
                    Self::lemma_entry(self.by_name@, i as int);
                }
                Some(share(&self.by_name[i].1))
            },
            None => None,
        }
    }

    proof fn lemma_entry(s: Seq<(String, Arc<Microgram>)>, i: int)
        requires
            strictly_sorted(entry_names(s)),
            0 <= i < s.len(),
        ensures
            entries_map(s).contains_key(s[i].0@),
            entries_map(s)[s[i].0@] == *s[i].1,
    {
        let k = s[i].0@;
        assert(exists|w: int| 0 <= w < s.len() && (#[trigger] s[w]).0@ == k);
        let w = entry_pos(s, k);
        if w != i {
            lemma_text_lt_irreflexive(k);
            assert(entry_names(s)[w] == k);
            assert(entry_names(s)[i] == k);
            if w < i {
                assert(text_lt(entry_names(s)[w], entry_names(s)[i]));
            } else {
                assert(text_lt(entry_names(s)[i], entry_names(s)[w]));
            }
        }
        assert(entries_map(s).contains_key(k));
        assert(entries_map(s)[k] == *s[w].1);
    }

    /// True when a microgram named `name` is present.
    pub fn contains(&self, name: &str) -> (b: bool)
        ensures
            b == self.model().contains_key(name@),
    {
        match self.find(name) {
            Some(i) => {
                proof {
                    use_type_invariant(self);
                    Self::lemma_entry(self.by_name@, i as int);
                }
                true
            },
            None => false,
        }
    }

    /// All names, in increasing order.
    pub fn names(&self) -> (r: Vec<&str>)
        ensures
            r@.len() == self.name_list().len(),
            forall|i: int| 0 <= i < r@.len() ==> (#[trigger] r@[i])@ == self.name_list()[i],
    {
        let mut r: Vec<&str> = Vec::new();
        let mut i: usize = 0;
        while i < self.by_name.len()
            invariant
                i <= self.by_name@.len(),
                r@.len() == i,
                forall|j: int| 0 <= j < i ==> (#[trigger] r@[j])@ == self.by_name@[j].0@,
            decreases self.by_name@.len() - i,
        {
            r.push(self.by_name[i].0.as_str());
            i = i + 1;
        }
        r
    }

    /// Every (name, microgram) entry, in increasing name order.
    pub fn iter(&self) -> (r: &[(String, Arc<Microgram>)])
        ensures
            entry_names(r@) == self.name_list(),
            forall|i: int| 0 <= i < r@.len() ==> *(#[trigger] r@[i]).1 == self.model()[self.name_list()[i]],
    {
        proof {
            use_type_invariant(self);
            assert forall|i: int| 0 <= i < self.by_name@.len() implies *(#[trigger] self.by_name@[i]).1
                == self.model()[self.name_list()[i]] by {
                Self::lemma_entry(self.by_name@, i);
            }
        }
        self.by_name.as_slice()
    }

    /// All micrograms, shared, in increasing name order.
    pub fn all(&self) -> (r: Vec<Arc<Microgram>>)
        ensures
            r@.len() == self.name_list().len(),
            forall|i: int| 0 <= i < r@.len() ==> *(#[trigger] r@[i]) == self.model()[self.name_list()[i]],
    {
        let mut r: Vec<Arc<Microgram>> = Vec::new();
        let mut i: usize = 0;
        while i < self.by_name.len()
            invariant
                i <= self.by_name@.len(),
                r@.len() == i,
                forall|j: int| 0 <= j < i ==> *(#[trigger] r@[j]) == self.model()[self.name_list()[j]],
            decreases self.by_name@.len() - i,
        {
            proof {
                use_type_invariant(self);
                Self::lemma_entry(self.by_name@, i as int);
            }
            r.push(share(&self.by_name[i].1));
            i = i + 1;
        }
        r
    }

    /// The recorded load failures.
    pub fn load_errors(&self) -> (r: &[LoadError])
        ensures
            r@ == self.errors(),
    {
        self.load_errors.as_slice()
    }

    /// Look up each name in turn; the first one that is missing gives
    /// "Microgram '<name>' not found in <dir>".
    pub fn resolve(&self, names: &[&str]) -> (r: Result<Vec<Arc<Microgram>>, String>)
        ensures
            match r {
                Ok(v) => {
                    &&& v@.len() == names@.len()
                    &&& forall|i: int| 0 <= i < names@.len() ==> self.model().contains_key((#[trigger] names@[i])@)
                    &&& forall|i: int| 0 <= i < names@.len() ==> *(#[trigger] v@[i]) == self.model()[names@[i]@]
                },
                Err(e) => exists|i: int|
                    0 <= i < names@.len() && !self.model().contains_key((#[trigger] names@[i])@) && (forall|j: int|
                        0 <= j < i ==> self.model().contains_key((#[trigger] names@[j])@)) && e@ == "Microgram '"@
                        + names@[i]@ + "' not found in "@ + self.dir_view(),
            },
    {
        let mut out: Vec<Arc<Microgram>> = Vec::new();
        let mut i: usize = 0;
        while i < names.len()
            invariant
                i <= names@.len(),
                out@.len() == i,
                forall|j: int| 0 <= j < i ==> self.model().contains_key((#[trigger] names@[j])@),
                forall|j: int| 0 <= j < i ==> *(#[trigger] out@[j]) == self.model()[names@[j]@],
            decreases names@.len() - i,
        {
            match self.get(names[i]) {
                Some(m) => out.push(m),
                None => {
                    let e = join5("Microgram '", names[i], "' not found in ", self.dir.as_str(), "");
                    proof {
                        reveal_strlit("");
                    }
                    return Err(e);
                },
            }
            i = i + 1;
        }
        Ok(out)
    }

    /// The strict loader's check: the index itself when nothing failed to
    /// load, otherwise a message naming every failure, one per line.
    pub fn into_strict(self) -> (r: Result<MicrogramIndex, String>)
        ensures
            match r {
                Ok(x) => x == self && self.errors().len() == 0,
                Err(e) => self.errors().len() > 0 && e@ == strict_message(self.errors()),
            },
    {
        if self.load_errors.len() == 0 {
            return Ok(self);
        }
        let mut lines = String::new();
        let mut i: usize = 0;
        while i < self.load_errors.len()
            invariant
                i <= self.load_errors@.len(),
                lines@ == error_lines(self.load_errors@.subrange(0, i as int)),
            decreases self.load_errors@.len() - i,
        {
            if i > 0 {
                lines.append("\n");
            }
            lines.append("  ");
            let d = self.load_errors[i].describe();
            lines.append(d.as_str());
            proof {
                let s = self.load_errors@.subrange(0, i + 1);
                assert(s.drop_last() =~= self.load_errors@.subrange(0, i as int));
            }
            i = i + 1;
        }
        proof {
            assert(self.load_errors@.subrange(0, self.load_errors@.len() as int) =~= self.load_errors@);
        }
        let count = crate::debug::usize_to_decimal(self.load_errors.len());
        let mut msg = concat(count.as_str(), " microgram file(s) failed to parse:\n");
        msg.append(lines.as_str());
        Err(msg)
    }
}

/// "  path: message" for each failure, joined by newlines.
pub open spec fn error_lines(s: Seq<LoadError>) -> Seq<char>
    decreases s.len(),
{
    if s.len() == 0 {
        Seq::empty()
    } else {
        let prev = error_lines(s.drop_last());
        let line = "  "@ + s.last().path@ + ": "@ + s.last().message@;
        if s.len() == 1 {
            line
        } else {
            prev + "\n"@ + line
        }
    }
}

/// Message of the strict loader for the given failures.
pub open spec fn strict_message(s: Seq<LoadError>) -> Seq<char> {
    crate::debug::nat_decimal(s.len()) + " microgram file(s) failed to parse:\n"@ + error_lines(s)
}

proof fn lemma_sorted_distinct_len(names: Seq<Seq<char>>, m: Map<Seq<char>, Microgram>)
    requires
        strictly_sorted(names),
        forall|k: Seq<char>| m.contains_key(k) <==> names.contains(k),
    ensures
        m.len() == names.len(),
{
    assert(m.dom() =~= names.to_set());
    assert forall|i: int, j: int| 0 <= i < names.len() && 0 <= j < names.len() && i != j implies names[i]
        != names[j] by {
        lemma_text_lt_irreflexive(names[i]);
        if i < j {
            assert(text_lt(names[i], names[j]));
        } else {
            assert(text_lt(names[j], names[i]));
        }
    }
    names.unique_seq_to_set();
}

} // verus!
