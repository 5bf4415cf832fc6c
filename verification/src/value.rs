//! Dynamic values that flow through decision trees, and the string-keyed
//! maps that hold them.
use vstd::prelude::*;

verus! {

/// Mathematical meaning of a [`Value`]: what two values must share to be equal.
///
/// A float is represented by its ordering key (see [`float_key`]), so the two
/// zeros of IEEE-754 have one meaning, as they compare equal as floats.
pub enum ValueModel {
    Null,
    Bool(bool),
    Int(int),
    Float(int),
    Str(Seq<char>),
    Array(Seq<ValueModel>),
    Object(Map<Seq<char>, ValueModel>),
}

/// A dynamically typed value.
///
/// `Float` carries the IEEE-754 binary64 bit pattern of the number
/// (`f64::to_bits`); the library compares floats through that encoding.
#[derive(Debug)]
pub enum Value {
    Null,
    Bool(bool),
    Int(i64),
    Float(u64),
    String(String),
    Array(Vec<Value>),
    Object(FieldMap),
}

/// A map from field names to values. Inserting a present key replaces its value.
#[derive(Debug)]
pub struct FieldMap {
    pub entries: Vec<(String, Value)>,
}

/// Ordering key of a binary64 bit pattern: the sign-magnitude encoding read as
/// a signed integer. For numbers that are not NaN, `a < b` as floats exactly
/// when `float_key(a) < float_key(b)`, and the two zeros share key 0.
pub open spec fn float_key(bits: u64) -> int {
    let mag = (bits & 0x7fff_ffff_ffff_ffffu64) as int;
    if bits >= 0x8000_0000_0000_0000u64 {
        -mag
    } else {
        mag
    }
}

/// A bit pattern that encodes NaN.
pub open spec fn float_is_nan(bits: u64) -> bool {
    (bits & 0x7fff_ffff_ffff_ffffu64) > 0x7ff0_0000_0000_0000u64
}

/// Meaning of a sequence of field entries: later entries win over earlier ones.
pub open spec fn entries_model(s: Seq<(String, Value)>) -> Map<Seq<char>, ValueModel>
    decreases s,
{
    if s.len() == 0 {
        Map::empty()
    } else {
        let last = s[s.len() - 1];
        proof {
            assert(decreases_to!(s => s[s.len() - 1]));
            assert(decreases_to!(s => s.drop_last()));
        }
        entries_model(s.drop_last()).insert(last.0@, last.1.model())
    }
}

/// Meaning of a sequence of values, element by element.
pub open spec fn values_model(s: Seq<Value>) -> Seq<ValueModel>
    decreases s,
{
    if s.len() == 0 {
        Seq::empty()
    } else {
        proof {
            assert(decreases_to!(s => s[s.len() - 1]));
            assert(decreases_to!(s => s.drop_last()));
        }
        values_model(s.drop_last()).push(s[s.len() - 1].model())
    }
}

impl Value {
    /// The meaning of this value.
    pub open spec fn model(self) -> ValueModel
        decreases self,
    {
        match self {
            Value::Null => ValueModel::Null,
            Value::Bool(b) => ValueModel::Bool(b),
            Value::Int(i) => ValueModel::Int(i as int),
            Value::Float(bits) => ValueModel::Float(float_key(bits)),
            Value::String(s) => ValueModel::Str(s@),
            Value::Array(v) => {
                proof {
                    assert(decreases_to!(self => v));
                }
                ValueModel::Array(values_model(v@))
            },
            Value::Object(m) => {
                proof {
                    assert(decreases_to!(self => m.entries));
                }
                ValueModel::Object(entries_model(m.entries@))
            },
        }
    }
}


/// Index of the last entry whose key is `k`, or -1 when no entry has it.
pub open spec fn last_index(s: Seq<(String, Value)>, k: Seq<char>) -> int
    decreases s.len(),
{
    if s.len() == 0 {
        -1
    } else if s[s.len() - 1].0@ == k {
        s.len() - 1
    } else {
        last_index(s.drop_last(), k)
    }
}

/// True when no two entries share a key.
pub open spec fn keys_unique(s: Seq<(String, Value)>) -> bool {
    forall|i: int, j: int| 0 <= i < j < s.len() ==> s[i].0@ != s[j].0@
}

/// The entries after `insert(k, v)`: the last entry with key `k` is replaced,
/// or the pair is appended when no entry has that key.
pub open spec fn entries_after_insert(s: Seq<(String, Value)>, e: (String, Value)) -> Seq<(String, Value)> {
    let j = last_index(s, e.0@);
    if j >= 0 {
        s.update(j, e)
    } else {
        s.push(e)
    }
}

pub proof fn lemma_last_index(s: Seq<(String, Value)>, k: Seq<char>)
    ensures
        -1 <= last_index(s, k) < s.len(),
        last_index(s, k) >= 0 ==> s[last_index(s, k)].0@ == k,
        forall|i: int| last_index(s, k) < i < s.len() ==> s[i].0@ != k,
        (last_index(s, k) == -1) == (forall|i: int| 0 <= i < s.len() ==> s[i].0@ != k),
    decreases s.len(),
{
    if s.len() > 0 {
        lemma_last_index(s.drop_last(), k);
        if s[s.len() - 1].0@ != k {
            assert forall|i: int| 0 <= i < s.len() - 1 implies s.drop_last()[i] == s[i] by {}
        }
    }
}

/// What the meaning of a sequence of entries holds at a key.
pub proof fn lemma_entries_model_at(s: Seq<(String, Value)>, k: Seq<char>)
    ensures
        entries_model(s).contains_key(k) == (last_index(s, k) >= 0),
        last_index(s, k) >= 0 ==> entries_model(s)[k] == s[last_index(s, k)].1.model(),
    decreases s.len(),
{
    lemma_last_index(s, k);
    if s.len() > 0 {
        lemma_entries_model_at(s.drop_last(), k);
        lemma_last_index(s.drop_last(), k);
        let j = last_index(s.drop_last(), k);
        if j >= 0 {
            assert(s.drop_last()[j] == s[j]);
        }
    }
}

/// Every key of the meaning comes from some entry.
pub proof fn lemma_entries_model_dom(s: Seq<(String, Value)>)
    ensures
        forall|k: Seq<char>| #[trigger] entries_model(s).contains_key(k) <==> exists|i: int| 0 <= i < s.len() && s[i].0@ == k,
{
    assert forall|k: Seq<char>| #[trigger] entries_model(s).contains_key(k) <==> exists|i: int| 0 <= i < s.len() && s[i].0@ == k by {
        lemma_entries_model_at(s, k);
        lemma_last_index(s, k);
    }
}

/// Replacing the last entry of a key changes the meaning as an insertion does.
pub proof fn lemma_entries_model_insert(s: Seq<(String, Value)>, e: (String, Value))
    ensures
        entries_model(entries_after_insert(s, e)) == entries_model(s).insert(e.0@, e.1.model()),
        keys_unique(s) ==> keys_unique(entries_after_insert(s, e)),
        entries_after_insert(s, e).len() >= s.len(),
    decreases s.len(),
{
    lemma_last_index(s, e.0@);
    let j = last_index(s, e.0@);
    if j >= 0 {
        if j == s.len() - 1 {
            assert(s.update(j, e).drop_last() =~= s.drop_last());
            assert(entries_model(s.update(j, e)) =~= entries_model(s).insert(e.0@, e.1.model()));
        } else {
            let t = s.drop_last();
            lemma_last_index(t, e.0@);
            assert(last_index(t, e.0@) == j);
            lemma_entries_model_insert(t, e);
            assert(s.update(j, e).drop_last() =~= t.update(j, e));
            assert(entries_model(s.update(j, e)) =~= entries_model(s).insert(e.0@, e.1.model()));
        }
        if keys_unique(s) {
            assert forall|a: int, b: int| 0 <= a < b < s.len() implies s.update(j, e)[a].0@ != s.update(j, e)[b].0@ by {
                if a == j {
                    assert(s[j].0@ == e.0@);
                } else if b == j {
                    assert(s[j].0@ == e.0@);
                }
            }
        }
    } else {
        assert(s.push(e).drop_last() =~= s);
    }
}

impl FieldMap {
    /// The meaning of this map.
    pub open spec fn model(&self) -> Map<Seq<char>, ValueModel> {
        entries_model(self.entries@)
    }

    /// An empty map.
    pub fn new() -> (m: FieldMap)
        ensures
            m.entries@.len() == 0,
            m.model() == Map::<Seq<char>, ValueModel>::empty(),
    {
        FieldMap { entries: Vec::new() }
    }

    /// Number of entries (the number of keys, when keys are unique).
    pub fn len(&self) -> (n: usize)
        ensures
            n == self.entries@.len(),
    {
        self.entries.len()
    }

    /// True when the map holds no entry.
    pub fn is_empty(&self) -> (b: bool)
        ensures
            b == (self.entries@.len() == 0),
            b ==> self.model() == Map::<Seq<char>, ValueModel>::empty(),
    {
        proof {
            if self.entries@.len() == 0 {
                assert(self.model() =~= Map::<Seq<char>, ValueModel>::empty());
            }
        }
        self.entries.len() == 0
    }

    /// Position of the entry that gives `key` its value.
    pub fn position(&self, key: &str) -> (r: Option<usize>)
        ensures
            r is None ==> last_index(self.entries@, key@) == -1,
            r is Some ==> r->0 == last_index(self.entries@, key@),
            r is Some ==> r->0 < self.entries@.len(),
    {
        proof {
            lemma_last_index(self.entries@, key@);
        }
        let mut i = self.entries.len();
        while i > 0
            invariant
                i <= self.entries@.len(),
                forall|j: int| i <= j < self.entries@.len() ==> self.entries@[j].0@ != key@,
                -1 <= last_index(self.entries@, key@) < self.entries@.len(),
                last_index(self.entries@, key@) >= 0 ==> self.entries@[last_index(self.entries@, key@)].0@ == key@,
                forall|j: int| last_index(self.entries@, key@) < j < self.entries@.len() ==> self.entries@[j].0@ != key@,
                (last_index(self.entries@, key@) == -1) == (forall|j: int| 0 <= j < self.entries@.len() ==> self.entries@[j].0@ != key@),
            decreases i,
        {
            i = i - 1;
            if str_eq(self.entries[i].0.as_str(), key) {
                return Some(i);
            }
        }
        None
    }

    /// The value stored under `key`.
    pub fn get(&self, key: &str) -> (r: Option<&Value>)
        ensures
            r is None == !self.model().contains_key(key@),
            r is Some ==> self.model()[key@] == r->0.model(),
            r is Some ==> *r->0 == self.entries@[last_index(self.entries@, key@)].1,
    {
        proof {
            lemma_entries_model_at(self.entries@, key@);
        }
        match self.position(key) {
            Some(i) => Some(&self.entries[i].1),
            None => None,
        }
    }

    /// True when `key` has a value.
    pub fn contains_key(&self, key: &str) -> (b: bool)
        ensures
            b == self.model().contains_key(key@),
    {
        proof {
            lemma_entries_model_at(self.entries@, key@);
        }
        self.position(key).is_some()
    }

    /// Store `value` under `key`, replacing the value it had.
    pub fn insert(&mut self, key: String, value: Value)
        ensures
            final(self).entries@ == entries_after_insert(old(self).entries@, (key, value)),
            final(self).model() == old(self).model().insert(key@, value.model()),
            keys_unique(old(self).entries@) ==> keys_unique(final(self).entries@),
    {
        proof {
            lemma_entries_model_insert(self.entries@, (key, value));
        }
        match self.position(key.as_str()) {
            Some(i) => {
                self.entries.set(i, (key, value));
            },
            None => {
                self.entries.push((key, value));
            },
        }
    }
}

pub proof fn lemma_values_model(s: Seq<Value>)
    ensures
        values_model(s).len() == s.len(),
        forall|i: int| 0 <= i < s.len() ==> #[trigger] values_model(s)[i] == s[i].model(),
    decreases s.len(),
{
    if s.len() > 0 {
        lemma_values_model(s.drop_last());
        assert forall|i: int| 0 <= i < s.len() implies #[trigger] values_model(s)[i] == s[i].model() by {
            if i < s.len() - 1 {
                assert(s.drop_last()[i] == s[i]);
            }
        }
    }
}

/// Entry sequences with the same keys and equal values mean the same map.
pub proof fn lemma_entries_model_congruent(s: Seq<(String, Value)>, t: Seq<(String, Value)>)
    requires
        s.len() == t.len(),
        forall|i: int| 0 <= i < s.len() ==> #[trigger] s[i].0@ == t[i].0@ && s[i].1.model() == t[i].1.model(),
    ensures
        entries_model(s) == entries_model(t),
    decreases s.len(),
{
    if s.len() > 0 {
        assert forall|i: int| 0 <= i < s.len() - 1 implies #[trigger] s.drop_last()[i].0@ == t.drop_last()[i].0@
            && s.drop_last()[i].1.model() == t.drop_last()[i].1.model() by {
            assert(s[i].0@ == t[i].0@);
        }
        lemma_entries_model_congruent(s.drop_last(), t.drop_last());
        assert(s[s.len() - 1].0@ == t[s.len() - 1].0@);
    }
}

impl Clone for Value {
    #[verifier::loop_isolation(false)]
    fn clone(&self) -> (r: Value)
        ensures
            r.model() == self.model(),
        decreases self,
    {
        match self {
            Value::Null => Value::Null,
            Value::Bool(b) => Value::Bool(*b),
            Value::Int(i) => Value::Int(*i),
            Value::Float(f) => Value::Float(*f),
            Value::String(s) => Value::String(s.clone()),
            Value::Array(v) => {
                let mut r: Vec<Value> = Vec::new();
                let mut i: usize = 0;
                while i < v.len()
                    invariant
                        i <= v@.len(),
                        r@.len() == i,
                        forall|j: int| 0 <= j < i ==> #[trigger] r@[j].model() == v@[j].model(),
                    decreases v@.len() - i,
                {
                    proof {
                        assert(decreases_to!(self => v));
                        assert(decreases_to!(v => v@));
                        assert(decreases_to!(v@ => v@[i as int]));
                        assert(decreases_to!(self => v@[i as int]));
                    }
                    let c = v[i].clone();
                    r.push(c);
                    i = i + 1;
                }
                proof {
                    lemma_values_model(r@);
                    lemma_values_model(v@);
                    assert(values_model(r@) =~= values_model(v@));
                }
                Value::Array(r)
            },
            Value::Object(m) => {
                proof {
                    assert(decreases_to!(self => m));
                }
                Value::Object(m.clone())
            },
        }
    }
}

impl Clone for FieldMap {
    fn clone(&self) -> (r: FieldMap)
        ensures
            r.model() == self.model(),
            r.entries@.len() == self.entries@.len(),
            forall|i: int| 0 <= i < self.entries@.len() ==> #[trigger] r.entries@[i].0@ == self.entries@[i].0@
                && r.entries@[i].1.model() == self.entries@[i].1.model(),
        decreases self,
    {
        let mut r: Vec<(String, Value)> = Vec::new();
        let mut i: usize = 0;
        while i < self.entries.len()
            invariant
                i <= self.entries@.len(),
                r@.len() == i,
                forall|j: int| 0 <= j < i ==> #[trigger] r@[j].0@ == self.entries@[j].0@ && r@[j].1.model() == self.entries@[j].1.model(),
            decreases self.entries@.len() - i,
        {
            proof {
                assert(decreases_to!(self => self.entries@[i as int].1));
            }
            let k = self.entries[i].0.clone();
            let v = self.entries[i].1.clone();
            r.push((k, v));
            i = i + 1;
        }
        proof {
            lemma_entries_model_congruent(r@, self.entries@);
        }
        FieldMap { entries: r }
    }
}

impl Value {
    /// True when the two values have the same meaning.
    #[verifier::loop_isolation(false)]
    pub fn equals(&self, other: &Value) -> (r: bool)
        ensures
            r == (self.model() == other.model()),
        decreases self,
    {
        match (self, other) {
            (Value::Null, Value::Null) => true,
            (Value::Bool(a), Value::Bool(b)) => *a == *b,
            (Value::Int(a), Value::Int(b)) => *a == *b,
            (Value::Float(a), Value::Float(b)) => float_key_of(*a) == float_key_of(*b),
            (Value::String(a), Value::String(b)) => *a == *b,
            (Value::Array(a), Value::Array(b)) => {
                proof {
                    lemma_values_model(a@);
                    lemma_values_model(b@);
                }
                if a.len() != b.len() {
                    proof {
                        assert(values_model(a@).len() != values_model(b@).len());
                    }
                    return false;
                }
                let mut i: usize = 0;
                while i < a.len()
                    invariant
                        i <= a@.len(),
                        a@.len() == b@.len(),
                        forall|j: int| 0 <= j < i ==> #[trigger] a@[j].model() == b@[j].model(),
                    decreases a@.len() - i,
                {
                    proof {
                        assert(decreases_to!(self => a));
                        assert(decreases_to!(a => a@));
                        assert(decreases_to!(a@ => a@[i as int]));
                        assert(decreases_to!(self => a@[i as int]));
                    }
                    if !a[i].equals(&b[i]) {
                        proof {
                            lemma_values_model(a@);
                            lemma_values_model(b@);
                            assert(values_model(a@)[i as int] != values_model(b@)[i as int]);
                        }
                        return false;
                    }
                    i = i + 1;
                }
                proof {
                    lemma_values_model(a@);
                    lemma_values_model(b@);
                    assert(values_model(a@) =~= values_model(b@));
                }
                true
            },
            (Value::Object(a), Value::Object(b)) => {
                proof {
                    assert(decreases_to!(self => a));
                }
                a.same_as(b)
            },
            _ => false,
        }
    }
}

impl FieldMap {
    /// True when the two maps have the same keys with equal values.
    pub fn same_as(&self, other: &FieldMap) -> (r: bool)
        ensures
            r == (self.model() == other.model()),
        decreases self,
    {
        proof {
            lemma_entries_model_dom(self.entries@);
            lemma_entries_model_dom(other.entries@);
        }
        let mut i: usize = 0;
        while i < self.entries.len()
            invariant
                i <= self.entries@.len(),
                forall|j: int| 0 <= j < i && last_index(self.entries@, self.entries@[j].0@) == j ==> {
                    let k = #[trigger] self.entries@[j].0@;
                    other.model().contains_key(k) && other.model()[k] == self.model()[k]
                },
            decreases self.entries@.len() - i,
        {
            let pos = self.position(self.entries[i].0.as_str());
            proof {
                lemma_entries_model_at(self.entries@, self.entries@[i as int].0@);
                lemma_last_index(self.entries@, self.entries@[i as int].0@);
            }
            if pos == Some(i) {
                match other.get(self.entries[i].0.as_str()) {
                    None => {
                        return false;
                    },
                    Some(w) => {
                        proof {
                            assert(decreases_to!(self => self.entries@[i as int].1));
                        }
                        if !self.entries[i].1.equals(w) {
                            return false;
                        }
                    },
                }
            }
            i = i + 1;
        }
        let mut j: usize = 0;
        while j < other.entries.len()
            invariant
                j <= other.entries@.len(),
                forall|q: int| 0 <= q < self.entries@.len() && last_index(self.entries@, self.entries@[q].0@) == q ==> {
                    let k = #[trigger] self.entries@[q].0@;
                    other.model().contains_key(k) && other.model()[k] == self.model()[k]
                },
                forall|q: int| 0 <= q < j ==> self.model().contains_key(#[trigger] other.entries@[q].0@),
            decreases other.entries@.len() - j,
        {
            if !self.contains_key(other.entries[j].0.as_str()) {
                proof {
                    let k = other.entries@[j as int].0@;
                    lemma_entries_model_at(other.entries@, k);
                    lemma_last_index(other.entries@, k);
                }
                return false;
            }
            j = j + 1;
        }
        proof {
            assert forall|k: Seq<char>| #[trigger] self.model().dom().contains(k) implies other.model().dom().contains(k)
                && other.model()[k] == self.model()[k] by {
                lemma_entries_model_at(self.entries@, k);
                lemma_last_index(self.entries@, k);
                let q = last_index(self.entries@, k);
                assert(self.entries@[q].0@ == k);
            }
            assert forall|k: Seq<char>| #[trigger] other.model().dom().contains(k) implies self.model().dom().contains(k) by {
                lemma_entries_model_at(other.entries@, k);
                lemma_last_index(other.entries@, k);
                let q = last_index(other.entries@, k);
                assert(other.entries@[q].0@ == k);
            }
            assert(self.model() =~= other.model());
        }
        true
    }
}

/// The ordering key of a float bit pattern, computed.
pub fn float_key_of(bits: u64) -> (k: i64)
    ensures
        k as int == float_key(bits),
{
    let mag = bits & 0x7fff_ffff_ffff_ffffu64;
    assert(mag <= 0x7fff_ffff_ffff_ffffu64) by (bit_vector)
        requires
            mag == bits & 0x7fff_ffff_ffff_ffffu64,
    ;
    if bits >= 0x8000_0000_0000_0000u64 {
        -(mag as i64)
    } else {
        mag as i64
    }
}

impl PartialEq for Value {
    fn eq(&self, other: &Value) -> (r: bool) {
        self.equals(other)
    }
}

impl vstd::std_specs::cmp::PartialEqSpecImpl for Value {
    open spec fn obeys_eq_spec() -> bool {
        true
    }

    open spec fn eq_spec(&self, other: &Value) -> bool {
        self.model() == other.model()
    }
}

impl PartialEq for FieldMap {
    fn eq(&self, other: &FieldMap) -> (r: bool) {
        self.same_as(other)
    }
}

impl vstd::std_specs::cmp::PartialEqSpecImpl for FieldMap {
    open spec fn obeys_eq_spec() -> bool {
        true
    }

    open spec fn eq_spec(&self, other: &FieldMap) -> bool {
        self.model() == other.model()
    }
}

/// Equality of two string slices, character by character.
pub(crate) fn str_eq(a: &str, b: &str) -> (r: bool)
    ensures
        r == (a@ == b@),
{
    let x = crate::levenshtein::chars_of(a);
    let y = crate::levenshtein::chars_of(b);
    if x.len() != y.len() {
        return false;
    }
    let mut i: usize = 0;
    while i < x.len()
        invariant
            x@ == a@,
            y@ == b@,
            x@.len() == y@.len(),
            i <= x@.len(),
            forall|j: int| 0 <= j < i ==> a@[j] == b@[j],
        decreases x@.len() - i,
    {
        if x[i] != y[i] {
            return false;
        }
        i = i + 1;
    }
    proof {
        assert(a@ =~= b@);
    }
    true
}

} // verus!
