//! A shared key-value store of JSON texts, and the answer it gives to each
//! request of the state protocol.
//!
//! Values travel as their JSON text: the store keeps, returns and measures the
//! text, and the socket side turns text into JSON values and back.
use vstd::prelude::*;
use vstd::utf8::encode_utf8;
use vstd::set::fold::{is_fun_commutative, lemma_fold_insert, lemma_fold_empty};
use vstd::seq_lib::seq_to_set_is_finite;
use dashmap::DashMap;
use crate::engine::names_view;
use crate::patrol::opt_string_view;
use crate::strmap::pair_keys;
use crate::text::byte_len;

verus! {

#[verifier::external_type_specification]
#[verifier::external_body]
#[verifier::reject_recursive_types(K)]
#[verifier::reject_recursive_types(V)]
#[verifier::reject_recursive_types(S)]
pub struct ExDashMap<K, V, S>(DashMap<K, V, S>);

/// What a concurrent map from keys to JSON texts holds.
pub uninterp spec fn dash_contents(m: DashMap<String, String>) -> Map<Seq<char>, Seq<char>>;

/// `DashMap::new`: a map that holds nothing.
#[verifier::external_body]
fn dash_new() -> (r: DashMap<String, String>)
    ensures
        dash_contents(r).len() == 0,
        dash_contents(r).dom().finite(),
{
    DashMap::new()
}

/// `DashMap::insert`: afterwards `key` maps to `value`, and every other key
/// maps to what it mapped to before.
#[verifier::external_body]
fn dash_insert(m: &mut DashMap<String, String>, key: String, value: String)
    ensures
        dash_contents(*final(m)) == dash_contents(*old(m)).insert(key@, value@),
{
    m.insert(key, value);
}

/// `DashMap::get`, with the text found under `key` copied out.
#[verifier::external_body]
fn dash_get(m: &DashMap<String, String>, key: &str) -> (r: Option<String>)
    ensures
        opt_string_view(r) == text_at(dash_contents(*m), key@),
{
    m.get(key).map(|e| e.value().clone())
}

/// `DashMap::remove`: afterwards `key` is absent; the removed entry, if there
/// was one, is handed back.
#[verifier::external_body]
fn dash_remove(m: &mut DashMap<String, String>, key: &str) -> (r: Option<(String, String)>)
    ensures
        dash_contents(*final(m)) == dash_contents(*old(m)).remove(key@),
        match r {
            Some(e) => dash_contents(*old(m)).contains_key(key@) && e.0@ == key@ && e.1@ == dash_contents(
                *old(m),
            )[key@],
            None => !dash_contents(*old(m)).contains_key(key@),
        },
{
    m.remove(key)
}

/// `DashMap::len`: the number of keys.
#[verifier::external_body]
fn dash_len(m: &DashMap<String, String>) -> (n: usize)
    ensures
        n == dash_contents(*m).len(),
{
    m.len()
}

/// `DashMap::iter`, each entry copied out. Every key comes once, with its text;
/// the order follows the map's shards and hash seed, and is left unsaid.
#[verifier::external_body]
fn dash_entries(m: &DashMap<String, String>) -> (r: Vec<(String, String)>)
    ensures
        pair_keys(r@).no_duplicates(),
        pair_keys(r@).to_set() == dash_contents(*m).dom(),
        forall|i: int| 0 <= i < r@.len() ==> dash_contents(*m)[#[trigger] r@[i].0@] == r@[i].1@,
{
    m.iter().map(|e| (e.key().clone(), e.value().clone())).collect()
}

/// The text stored under `k`, if any.
pub open spec fn text_at(m: Map<Seq<char>, Seq<char>>, k: Seq<char>) -> Option<Seq<char>> {
    if m.contains_key(k) {
        Some(m[k])
    } else {
        None
    }
}

/// Adds the UTF-8 sizes of an entry's key and text to a running total.
pub open spec fn add_entry_bytes(m: Map<Seq<char>, Seq<char>>) -> spec_fn(nat, Seq<char>) -> nat {
    |acc: nat, k: Seq<char>| acc + encode_utf8(k).len() + encode_utf8(m[k]).len()
}

/// The UTF-8 size of every key and every text in `m`, added up.
pub open spec fn store_bytes(m: Map<Seq<char>, Seq<char>>) -> nat {
    m.dom().fold(0nat, add_entry_bytes(m))
}

/// `n`, or `usize::MAX` where `n` does not fit.
pub open spec fn capped(n: nat) -> nat {
    if n > usize::MAX {
        usize::MAX as nat
    } else {
        n
    }
}

proof fn lemma_entry_bytes_commute(m: Map<Seq<char>, Seq<char>>)
    ensures
        is_fun_commutative(add_entry_bytes(m)),
{
}

/// A store of JSON texts under string keys, safe to share between tasks.
pub struct StateStore {
    data: DashMap<String, String>,
}

impl View for StateStore {
    type V = Map<Seq<char>, Seq<char>>;

    closed spec fn view(&self) -> Map<Seq<char>, Seq<char>> {
        dash_contents(self.data)
    }
}

impl Default for StateStore {
    fn default() -> (s: Self)
        ensures
            s@ == Map::<Seq<char>, Seq<char>>::empty(),
    {
        Self::new()
    }
}

impl StateStore {
    /// An empty store.
    pub fn new() -> (s: Self)
        ensures
            s@ == Map::<Seq<char>, Seq<char>>::empty(),
    {
        StateStore { data: dash_new() }
    }

    /// Stores `value` under `key`, replacing what was there.
    pub fn put(&mut self, key: String, value: String)
        ensures
            final(self)@ == old(self)@.insert(key@, value@),
    {
        dash_insert(&mut self.data, key, value);
    }

    /// The text stored under `key`.
    pub fn get(&self, key: &str) -> (r: Option<String>)
        ensures
            opt_string_view(r) == text_at(self@, key@),
    {
        dash_get(&self.data, key)
    }

    /// Removes `key`; true when it was there.
    pub fn delete(&mut self, key: &str) -> (found: bool)
        ensures
            found == old(self)@.contains_key(key@),
            final(self)@ == old(self)@.remove(key@),
    {
        let r = dash_remove(&mut self.data, key);
        r.is_some()
    }

    /// Every key, each once, in no promised order.
    pub fn list_keys(&self) -> (r: Vec<String>)
        ensures
            names_view(r@).no_duplicates(),
            names_view(r@).to_set() == self@.dom(),
    {
        let entries = dash_entries(&self.data);
        let mut keys: Vec<String> = Vec::new();
        let mut i: usize = 0;
        while i < entries.len()
            invariant
                i <= entries@.len(),
                keys@.len() == i,
                forall|j: int| 0 <= j < i ==> #[trigger] keys@[j]@ == entries@[j].0@,
            decreases entries@.len() - i,
        {
            keys.push(entries[i].0.clone());
            i = i + 1;
        }
        proof {
            assert(names_view(keys@) =~= pair_keys(entries@));
        }
        keys
    }

    /// The number of keys, and the UTF-8 size of all keys and texts together
    /// (`usize::MAX` where that does not fit).
    pub fn stats(&self) -> (r: (usize, usize))
        ensures
            r.0 == self@.len(),
            r.1 == capped(store_bytes(self@)),
    {
        let count = dash_len(&self.data);
        let entries = dash_entries(&self.data);
        let ghost m = self@;
        let ghost keys = pair_keys(entries@);
        let ghost f = add_entry_bytes(m);
        let mut total: usize = 0;
        let ghost mut exact: nat = 0;
        let mut i: usize = 0;
        proof {
            lemma_entry_bytes_commute(m);
            lemma_fold_empty(0nat, f);
            assert(keys.subrange(0, 0).to_set() =~= Set::<Seq<char>>::empty());
        }
        while i < entries.len()
            invariant
                m == self@,
                keys == pair_keys(entries@),
                f == add_entry_bytes(m),
                is_fun_commutative(f),
                keys.no_duplicates(),
                forall|j: int| 0 <= j < entries@.len() ==> m[#[trigger] entries@[j].0@] == entries@[j].1@,
                i <= entries@.len(),
                exact == keys.subrange(0, i as int).to_set().fold(0nat, f),
                total == capped(exact),
            decreases entries@.len() - i,
        {
            let kb = byte_len(entries[i].0.as_str());
            let vb = byte_len(entries[i].1.as_str());
            proof {
                let seen = keys.subrange(0, i as int).to_set();
                let k = keys[i as int];
                assert(k == entries@[i as int].0@);
                seq_to_set_is_finite(keys.subrange(0, i as int));
                assert(!seen.contains(k)) by {
                    if seen.contains(k) {
                        let j = choose|j: int| 0 <= j < i && keys.subrange(0, i as int)[j] == k;
                        assert(keys[j] == keys[i as int]);
                    }
                }
                lemma_fold_insert(seen, 0nat, f, k);
                let s0 = keys.subrange(0, i as int);
                let s1 = keys.subrange(0, i + 1);
                assert forall|x: Seq<char>| s1.to_set().contains(x) <==> seen.insert(k).contains(x) by {
                    if s1.contains(x) {
                        let j = choose|j: int| 0 <= j < s1.len() && s1[j] == x;
                        if j < i {
                            assert(s0[j] == x);
                        }
                    }
                    if s0.contains(x) {
                        let j = choose|j: int| 0 <= j < s0.len() && s0[j] == x;
                        assert(s1[j] == x);
                    }
                    if x == k {
                        assert(s1[i as int] == k);
                    }
                }
                assert(s1.to_set() =~= seen.insert(k));
                exact = exact + encode_utf8(k).len() + encode_utf8(m[k]).len();
            }
            total = total.saturating_add(kb).saturating_add(vb);
            i = i + 1;
        }
        proof {
            assert(keys.subrange(0, entries@.len() as int) =~= keys);
        }
        (count, total)
    }

    /// Answers one request of the state protocol. `None` answers `Shutdown`:
    /// the server stops without a reply.
    pub fn handle(&mut self, request: StateRequest) -> (r: Option<StateResponse>)
        ensures
            match request {
                StateRequest::Put { key, value } => final(self)@ == old(self)@.insert(key@, value@)
                    && r == Some(StateResponse::Done { value: None }),
                StateRequest::Get { key } => final(self)@ == old(self)@ && (r matches Some(
                    StateResponse::Done { value },
                ) && opt_string_view(value) == text_at(old(self)@, key@)),
                StateRequest::Delete { key } => final(self)@ == old(self)@.remove(key@) && (r matches Some(
                    StateResponse::Done { value: Some(t) },
                ) && t@ == bool_text(old(self)@.contains_key(key@))),
                StateRequest::ListKeys => final(self)@ == old(self)@ && (r matches Some(
                    StateResponse::Keys { keys },
                ) && names_view(keys@).no_duplicates() && names_view(keys@).to_set() == old(
                    self,
                )@.dom()),
                StateRequest::Stats => final(self)@ == old(self)@ && r == Some(
                    StateResponse::Stats {
                        count: old(self)@.len() as usize,
                        memory_estimate: capped(store_bytes(old(self)@)) as usize,
                    },
                ),
                StateRequest::Shutdown => final(self)@ == old(self)@ && r.is_none(),
            },
    {
        match request {
            StateRequest::Put { key, value } => {
                self.put(key, value);
                Some(StateResponse::Done { value: None })
            },
            StateRequest::Get { key } => Some(StateResponse::Done { value: self.get(key.as_str()) }),
            StateRequest::Delete { key } => {
                let found = self.delete(key.as_str());
                Some(StateResponse::Done { value: Some(bool_json(found)) })
            },
            StateRequest::ListKeys => Some(StateResponse::Keys { keys: self.list_keys() }),
            StateRequest::Stats => {
                let (count, memory_estimate) = self.stats();
                Some(StateResponse::Stats { count, memory_estimate })
            },
            StateRequest::Shutdown => None,
        }
    }
}

/// The JSON text of a boolean.
pub open spec fn bool_text(b: bool) -> Seq<char> {
    if b {
        "true"@
    } else {
        "false"@
    }
}

/// The JSON text of `b`.
pub fn bool_json(b: bool) -> (r: String)
    ensures
        r@ == bool_text(b),
{
    if b {
        String::from_str("true")
    } else {
        String::from_str("false")
    }
}

/// A request of the state protocol. Values travel as JSON text.
pub enum StateRequest {
    Put { key: String, value: String },
    Get { key: String },
    Delete { key: String },
    ListKeys,
    Stats,
    Shutdown,
}

/// The answer to a request. `Done` carries the JSON text of a value, if the
/// request yields one.
pub enum StateResponse {
    Done { value: Option<String> },
    Keys { keys: Vec<String> },
    Stats { count: usize, memory_estimate: usize },
    Error { message: String },
}

/// Reading a key right after writing it gives back the written text, and
/// leaves every other key reading as before.
pub proof fn lemma_read_after_write(
    m: Map<Seq<char>, Seq<char>>,
    key: Seq<char>,
    value: Seq<char>,
    other: Seq<char>,
)
    ensures
        text_at(m.insert(key, value), key) == Some(value),
        other != key ==> text_at(m.insert(key, value), other) == text_at(m, other),
{
}

/// After a key is deleted it reads as absent, every other key reads as before,
/// and a second delete of it finds nothing.
pub proof fn lemma_read_after_delete(m: Map<Seq<char>, Seq<char>>, key: Seq<char>, other: Seq<char>)
    ensures
        text_at(m.remove(key), key).is_none(),
        !m.remove(key).contains_key(key),
        other != key ==> text_at(m.remove(key), other) == text_at(m, other),
{
}

/// The store's size estimate counts each entry once: writing a new key adds
/// exactly the sizes of the key and its text.
pub proof fn lemma_write_new_key_bytes(m: Map<Seq<char>, Seq<char>>, key: Seq<char>, value: Seq<char>)
    requires
        m.dom().finite(),
        !m.contains_key(key),
    ensures
        store_bytes(m.insert(key, value)) == store_bytes(m) + encode_utf8(key).len() + encode_utf8(
            value,
        ).len(),
{
    let m2 = m.insert(key, value);
    let f = add_entry_bytes(m);
    let f2 = add_entry_bytes(m2);
    lemma_entry_bytes_commute(m2);
    assert(m2.dom() =~= m.dom().insert(key));
    lemma_fold_insert(m.dom(), 0nat, f2, key);
    // on the old keys the two summands agree
    assert(m.dom().fold(0nat, f2) == m.dom().fold(0nat, f)) by {
        lemma_fold_agree(m.dom(), m, m2);
    }
}

proof fn lemma_fold_agree(s: Set<Seq<char>>, m: Map<Seq<char>, Seq<char>>, m2: Map<Seq<char>, Seq<char>>)
    requires
        s.finite(),
        forall|k: Seq<char>| s.contains(k) ==> m[k] == m2[k],
    ensures
        s.fold(0nat, add_entry_bytes(m2)) == s.fold(0nat, add_entry_bytes(m)),
    decreases s.len(),
{
    lemma_entry_bytes_commute(m);
    lemma_entry_bytes_commute(m2);
    if s.len() == 0 {
        assert(s =~= Set::<Seq<char>>::empty());
        lemma_fold_empty(0nat, add_entry_bytes(m));
        lemma_fold_empty(0nat, add_entry_bytes(m2));
    } else {
        let k = s.choose();
        let rest = s.remove(k);
        lemma_fold_agree(rest, m, m2);
        assert(rest.insert(k) =~= s);
        lemma_fold_insert(rest, 0nat, add_entry_bytes(m), k);
        lemma_fold_insert(rest, 0nat, add_entry_bytes(m2), k);
    }
}

} // verus!
