//! A small string-keyed map used for decision nodes, interface fields and aliases.
use vstd::prelude::*;
use crate::value::str_eq;

verus! {

/// A map from names to values of type `V`; inserting a present key replaces its value.
#[derive(Debug)]
pub struct StrMap<V> {
    pub entries: Vec<(String, V)>,
}

/// Meaning of a sequence of entries: later entries win over earlier ones.
pub open spec fn pairs_model<V>(s: Seq<(String, V)>) -> Map<Seq<char>, V>
    decreases s.len(),
{
    if s.len() == 0 {
        Map::empty()
    } else {
        pairs_model(s.drop_last()).insert(s[s.len() - 1].0@, s[s.len() - 1].1)
    }
}

/// Index of the last entry with key `k`, or -1.
pub open spec fn pair_last_index<V>(s: Seq<(String, V)>, k: Seq<char>) -> int
    decreases s.len(),
{
    if s.len() == 0 {
        -1
    } else if s[s.len() - 1].0@ == k {
        s.len() - 1
    } else {
        pair_last_index(s.drop_last(), k)
    }
}

/// The entries after inserting `e`: the last entry with its key is replaced,
/// or `e` is appended.
pub open spec fn pairs_after_insert<V>(s: Seq<(String, V)>, e: (String, V)) -> Seq<(String, V)> {
    let j = pair_last_index(s, e.0@);
    if j >= 0 {
        s.update(j, e)
    } else {
        s.push(e)
    }
}

/// The keys of a sequence of entries, in order.
pub open spec fn pair_keys<V>(s: Seq<(String, V)>) -> Seq<Seq<char>> {
    s.map_values(|p: (String, V)| p.0@)
}

pub proof fn lemma_pair_last_index<V>(s: Seq<(String, V)>, k: Seq<char>)
    ensures
        -1 <= pair_last_index(s, k) < s.len(),
        pair_last_index(s, k) >= 0 ==> s[pair_last_index(s, k)].0@ == k,
        forall|i: int| pair_last_index(s, k) < i < s.len() ==> s[i].0@ != k,
        (pair_last_index(s, k) == -1) == (forall|i: int| 0 <= i < s.len() ==> s[i].0@ != k),
    decreases s.len(),
{
    if s.len() > 0 {
        lemma_pair_last_index(s.drop_last(), k);
        if s[s.len() - 1].0@ != k {
            assert forall|i: int| 0 <= i < s.len() - 1 implies s.drop_last()[i] == s[i] by {}
        }
    }
}

pub proof fn lemma_pairs_model_at<V>(s: Seq<(String, V)>, k: Seq<char>)
    ensures
        pairs_model(s).contains_key(k) == (pair_last_index(s, k) >= 0),
        pair_last_index(s, k) >= 0 ==> pairs_model(s)[k] == s[pair_last_index(s, k)].1,
    decreases s.len(),
{
    lemma_pair_last_index(s, k);
    if s.len() > 0 {
        lemma_pairs_model_at(s.drop_last(), k);
        lemma_pair_last_index(s.drop_last(), k);
        let j = pair_last_index(s.drop_last(), k);
        if j >= 0 {
            assert(s.drop_last()[j] == s[j]);
        }
    }
}

pub proof fn lemma_pairs_model_insert<V>(s: Seq<(String, V)>, e: (String, V))
    ensures
        pairs_model(pairs_after_insert(s, e)) == pairs_model(s).insert(e.0@, e.1),
    decreases s.len(),
{
    lemma_pair_last_index(s, e.0@);
    let j = pair_last_index(s, e.0@);
    if j >= 0 {
        if j == s.len() - 1 {
            assert(s.update(j, e).drop_last() =~= s.drop_last());
            assert(pairs_model(s.update(j, e)) =~= pairs_model(s).insert(e.0@, e.1));
        } else {
            let t = s.drop_last();
            lemma_pair_last_index(t, e.0@);
            assert(pair_last_index(t, e.0@) == j);
            lemma_pairs_model_insert(t, e);
            assert(s.update(j, e).drop_last() =~= t.update(j, e));
            assert(pairs_model(s.update(j, e)) =~= pairs_model(s).insert(e.0@, e.1));
        }
    } else {
        assert(s.push(e).drop_last() =~= s);
    }
}

/// Positions among the first `n` entries of those that no later entry
/// replaces, in order.
pub open spec fn live_positions<V>(s: Seq<(String, V)>, n: int) -> Seq<int>
    decreases n,
{
    if n <= 0 {
        Seq::empty()
    } else {
        let prev = live_positions(s, n - 1);
        if pair_last_index(s, s[n - 1].0@) == n - 1 {
            prev.push(n - 1)
        } else {
            prev
        }
    }
}

pub proof fn lemma_live_positions_bound<V>(s: Seq<(String, V)>, n: int)
    requires
        n <= s.len(),
    ensures
        forall|i: int| 0 <= i < live_positions(s, n).len() ==> 0 <= #[trigger] live_positions(s, n)[i] < n,
    decreases n,
{
    if n > 0 {
        lemma_live_positions_bound(s, n - 1);
        let prev = live_positions(s, n - 1);
        let cur = live_positions(s, n);
        assert forall|i: int| 0 <= i < cur.len() implies 0 <= #[trigger] cur[i] < n by {
            if i < prev.len() {
                assert(cur[i] == prev[i]);
            }
        }
    }
}

/// Positions of the entries that no later entry with the same key replaces.
pub fn live_positions_of<V>(entries: &Vec<(String, V)>) -> (r: Vec<usize>)
    ensures
        r@.len() == live_positions(entries@, entries@.len() as int).len(),
        forall|i: int| 0 <= i < r@.len() ==> #[trigger] r@[i] as int == live_positions(entries@, entries@.len() as int)[i],
        forall|i: int| 0 <= i < r@.len() ==> #[trigger] r@[i] < entries@.len(),
{
    let mut r: Vec<usize> = Vec::new();
    let mut i: usize = 0;
    while i < entries.len()
        invariant
            i <= entries@.len(),
            r@.len() == live_positions(entries@, i as int).len(),
            forall|j: int| 0 <= j < r@.len() ==> #[trigger] r@[j] as int == live_positions(entries@, i as int)[j],
            forall|j: int| 0 <= j < r@.len() ==> #[trigger] r@[j] < i,
        decreases entries@.len() - i,
    {
        let live = last_position(entries, entries[i].0.as_str()) == Some(i);
        if live {
            r.push(i);
        }
        i = i + 1;
    }
    r
}

/// Position of the last entry with key `key`.
pub fn last_position<V>(entries: &[(String, V)], key: &str) -> (r: Option<usize>)
    ensures
        r is None ==> pair_last_index(entries@, key@) == -1,
        r is Some ==> r->0 == pair_last_index(entries@, key@),
{
    proof {
        lemma_pair_last_index(entries@, key@);
    }
    let mut i = entries.len();
    while i > 0
        invariant
            i <= entries@.len(),
            forall|j: int| i <= j < entries@.len() ==> entries@[j].0@ != key@,
            -1 <= pair_last_index(entries@, key@) < entries@.len(),
            pair_last_index(entries@, key@) >= 0 ==> entries@[pair_last_index(entries@, key@)].0@ == key@,
            forall|j: int| pair_last_index(entries@, key@) < j < entries@.len() ==> entries@[j].0@ != key@,
            (pair_last_index(entries@, key@) == -1) == (forall|j: int| 0 <= j < entries@.len() ==> entries@[j].0@ != key@),
        decreases i,
    {
        i = i - 1;
        if str_eq(entries[i].0.as_str(), key) {
            return Some(i);
        }
    }
    None
}

/// Keys of the first `n` entries that no later entry replaces, in order.
pub open spec fn live_keys<V>(s: Seq<(String, V)>, n: int) -> Seq<Seq<char>>
    decreases n,
{
    if n <= 0 {
        Seq::empty()
    } else {
        let prev = live_keys(s, n - 1);
        if pair_last_index(s, s[n - 1].0@) == n - 1 {
            prev.push(s[n - 1].0@)
        } else {
            prev
        }
    }
}

/// The entries whose key is not `k`, in order.
pub open spec fn pairs_without<V>(s: Seq<(String, V)>, k: Seq<char>) -> Seq<(String, V)>
    decreases s.len(),
{
    if s.len() == 0 {
        Seq::empty()
    } else {
        let p = pairs_without(s.drop_last(), k);
        if s[s.len() - 1].0@ == k {
            p
        } else {
            p.push(s[s.len() - 1])
        }
    }
}

/// Dropping the entries of a key removes the key from the meaning.
pub proof fn lemma_pairs_without<V>(s: Seq<(String, V)>, k: Seq<char>)
    ensures
        pairs_model(pairs_without(s, k)) == pairs_model(s).remove(k),
    decreases s.len(),
{
    if s.len() == 0 {
        assert(pairs_model(s).remove(k) =~= Map::<Seq<char>, V>::empty());
    } else {
        lemma_pairs_without(s.drop_last(), k);
        let p = pairs_without(s.drop_last(), k);
        if s[s.len() - 1].0@ != k {
            assert(p.push(s[s.len() - 1]).drop_last() =~= p);
        }
        assert(pairs_model(pairs_without(s, k)) =~= pairs_model(s).remove(k));
    }
}

/// A key is among the first `n` live keys exactly when the entry that gives
/// it its value is among the first `n`.
pub proof fn lemma_live_keys_contains<V>(s: Seq<(String, V)>, n: int, k: Seq<char>)
    requires
        0 <= n <= s.len(),
    ensures
        live_keys(s, n).contains(k) <==> (0 <= pair_last_index(s, k) < n),
    decreases n,
{
    lemma_pair_last_index(s, k);
    if n > 0 {
        lemma_live_keys_contains(s, n - 1, k);
        let prev = live_keys(s, n - 1);
        let kk = s[n - 1].0@;
        lemma_pair_last_index(s, kk);
        if pair_last_index(s, kk) == n - 1 {
            assert(prev.push(kk).contains(k) <==> (prev.contains(k) || k == kk)) by {
                if prev.push(kk).contains(k) {
                    let i = choose|i: int| 0 <= i < prev.push(kk).len() && prev.push(kk)[i] == k;
                    if i < prev.len() {
                        assert(prev[i] == k);
                    }
                }
                if prev.contains(k) {
                    let i = choose|i: int| 0 <= i < prev.len() && prev[i] == k;
                    assert(prev.push(kk)[i] == k);
                }
                if k == kk {
                    assert(prev.push(kk)[prev.len() as int] == k);
                }
            }
        }
    }
}

impl<V> StrMap<V> {
    /// The keys that have a value, each once, in the order of their entries.
    pub fn keys(&self) -> (r: Vec<String>)
        ensures
            crate::engine::names_view(r@) == live_keys(self.entries@, self.entries@.len() as int),
    {
        let mut r: Vec<String> = Vec::new();
        let mut i: usize = 0;
        while i < self.entries.len()
            invariant
                i <= self.entries@.len(),
                crate::engine::names_view(r@) == live_keys(self.entries@, i as int),
            decreases self.entries@.len() - i,
        {
            let ghost before = r@;
            let live = match self.position(self.entries[i].0.as_str()) {
                Some(p) => p == i,
                None => false,
            };
            if live {
                r.push(self.entries[i].0.clone());
                proof {
                    assert(crate::engine::names_view(r@) =~= crate::engine::names_view(before).push(self.entries@[i as int].0@));
                }
            }
            i = i + 1;
        }
        r
    }

    /// The meaning of this map.
    pub open spec fn model(&self) -> Map<Seq<char>, V> {
        pairs_model(self.entries@)
    }

    /// An empty map.
    pub fn new() -> (m: StrMap<V>)
        ensures
            m.entries@.len() == 0,
            m.model() == Map::<Seq<char>, V>::empty(),
    {
        StrMap { entries: Vec::new() }
    }

    /// Number of entries.
    pub fn len(&self) -> (n: usize)
        ensures
            n == self.entries@.len(),
    {
        self.entries.len()
    }

    /// Position of the entry that gives `key` its value.
    pub fn position(&self, key: &str) -> (r: Option<usize>)
        ensures
            r is None ==> pair_last_index(self.entries@, key@) == -1,
            r is Some ==> r->0 == pair_last_index(self.entries@, key@),
            r is Some ==> r->0 < self.entries@.len(),
    {
        proof {
            lemma_pair_last_index(self.entries@, key@);
        }
        let mut i = self.entries.len();
        while i > 0
            invariant
                i <= self.entries@.len(),
                forall|j: int| i <= j < self.entries@.len() ==> self.entries@[j].0@ != key@,
                -1 <= pair_last_index(self.entries@, key@) < self.entries@.len(),
                pair_last_index(self.entries@, key@) >= 0 ==> self.entries@[pair_last_index(self.entries@, key@)].0@ == key@,
                forall|j: int| pair_last_index(self.entries@, key@) < j < self.entries@.len() ==> self.entries@[j].0@ != key@,
                (pair_last_index(self.entries@, key@) == -1) == (forall|j: int| 0 <= j < self.entries@.len() ==> self.entries@[j].0@ != key@),
            decreases i,
        {
            i = i - 1;
            if str_eq(self.entries[i].0.as_str(), key) {
                return Some(i);
            }
        }
        None
    }

    /// The value stored under `key`.
    pub fn get(&self, key: &str) -> (r: Option<&V>)
        ensures
            r is None == !self.model().contains_key(key@),
            r is Some ==> self.model()[key@] == *r->0,
            r is Some ==> *r->0 == self.entries@[pair_last_index(self.entries@, key@)].1,
    {
        proof {
            lemma_pairs_model_at(self.entries@, key@);
        }
        match self.position(key) {
            Some(i) => Some(&self.entries[i].1),
            None => None,
        }
    }

    /// True when `key` has a value.
    pub fn contains_key(&self, key: &str) -> (b: bool)
        ensures
            b == self.model().contains_key(key@),
    {
        proof {
            lemma_pairs_model_at(self.entries@, key@);
        }
        self.position(key).is_some()
    }

    /// Store `value` under `key`, replacing the value it had.
    pub fn insert(&mut self, key: String, value: V)
        ensures
            final(self).entries@ == pairs_after_insert(old(self).entries@, (key, value)),
            final(self).model() == old(self).model().insert(key@, value),
    {
        proof {
            lemma_pairs_model_insert(self.entries@, (key, value));
        }
        match self.position(key.as_str()) {
            Some(i) => {
                self.entries.set(i, (key, value));
            },
            None => {
                self.entries.push((key, value));
            },
        }
    }

    /// Remove `key` and its value; returns whether it had one.
    pub fn remove(&mut self, key: &str) -> (found: bool)
        ensures
            found == old(self).model().contains_key(key@),
            final(self).model() == old(self).model().remove(key@),
    {
        let found = self.contains_key(key);
        let ghost orig = self.entries@;
        proof {
            lemma_pairs_without(orig, key@);
        }
        let mut rev: Vec<(String, V)> = Vec::new();
        while self.entries.len() > 0
            invariant
                self.entries@ + rev@.reverse() == orig,
            decreases self.entries@.len(),
        {
            let ghost before = self.entries@;
            let ghost rb = rev@;
            let e = self.entries.pop().unwrap();
            rev.push(e);
            proof {
                assert(rev@.reverse() =~= seq![e] + rb.reverse());
                assert(self.entries@ + rev@.reverse() =~= before + rb.reverse());
            }
        }
        proof {
            assert(rev@.reverse() =~= orig);
        }
        while rev.len() > 0
            invariant
                rev@.len() <= orig.len(),
                rev@.reverse() == orig.skip(orig.len() - rev@.len()),
                self.entries@ == pairs_without(orig.take(orig.len() - rev@.len()), key@),
            decreases rev@.len(),
        {
            let ghost rb = rev@;
            let ghost n = orig.len() - rev@.len();
            let e = rev.pop().unwrap();
            proof {
                assert(rb.reverse()[0] == e);
                assert(orig.skip(n)[0] == orig[n]);
                assert(orig.take(n + 1).drop_last() =~= orig.take(n));
                assert(rev@.reverse() =~= rb.reverse().drop_first());
                assert(orig.skip(n).drop_first() =~= orig.skip(n + 1));
                assert(rev@.reverse() =~= orig.skip(n + 1));
            }
            if !str_eq(e.0.as_str(), key) {
                self.entries.push(e);
            }
        }
        proof {
            assert(orig.take(orig.len() as int) =~= orig);
        }
        found
    }
}

} // verus!
