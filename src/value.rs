use vstd::prelude::*;

verus! {

/// A JSON number, held the way a JSON reader classifies it.
///
/// `PosInt` holds non-negative integers, `NegInt` negative ones, and `Float`
/// any other finite number as the bit pattern of an IEEE-754 double.
#[derive(Clone, Copy, Debug, PartialEq, Eq, Structural)]
pub enum Number {
    PosInt(u64),
    NegInt(i64),
    Float(u64),
}

/// The mathematical model of a document tree.
///
/// Objects are sequences of (key, value) entries in insertion order.
pub enum Json {
    Null,
    Bool(bool),
    Number(Number),
    Str(Seq<char>),
    Array(Seq<Json>),
    Object(Seq<(Seq<char>, Json)>),
}

/// A document tree.
#[derive(Debug, PartialEq)]
pub enum Value {
    Null,
    Bool(bool),
    Number(Number),
    String(String),
    Array(Vec<Value>),
    Object(ObjectMap),
}

/// An insertion-ordered map from string keys to values.
#[derive(Debug, PartialEq)]
pub struct ObjectMap {
    entries: Vec<(String, Value)>,
}

/// The models of a sequence of values, element by element.
pub open spec fn models(s: Seq<Value>) -> Seq<Json>
    decreases s,
{
    if s.len() == 0 {
        Seq::empty()
    } else {
        models(s.drop_last()).push(s.last().model())
    }
}

/// The models of a sequence of object entries, entry by entry.
pub open spec fn entry_models(s: Seq<(String, Value)>) -> Seq<(Seq<char>, Json)>
    decreases s,
{
    if s.len() == 0 {
        Seq::empty()
    } else {
        entry_models(s.drop_last()).push((s.last().0@, s.last().1.model()))
    }
}

impl Value {
    /// The model of this tree.
    pub open spec fn model(self) -> Json
        decreases self,
    {
        match self {
            Value::Null => Json::Null,
            Value::Bool(b) => Json::Bool(b),
            Value::Number(n) => Json::Number(n),
            Value::String(s) => Json::Str(s@),
            Value::Array(a) => Json::Array(models(a@)),
            Value::Object(m) => Json::Object(m.model()),
        }
    }
}

impl ObjectMap {
    /// The entries of this map, in insertion order.
    pub closed spec fn model(self) -> Seq<(Seq<char>, Json)>
        decreases self,
    {
        entry_models(self.entries@)
    }
}

impl View for ObjectMap {
    type V = Seq<(Seq<char>, Json)>;

    open spec fn view(&self) -> Seq<(Seq<char>, Json)> {
        self.model()
    }
}

impl View for Value {
    type V = Json;

    open spec fn view(&self) -> Json {
        self.model()
    }
}

/// Position of the first entry of `m` whose key is `k`, or -1 when there is none.
pub open spec fn key_index(m: Seq<(Seq<char>, Json)>, k: Seq<char>) -> int
    decreases m.len(),
{
    if m.len() == 0 {
        -1
    } else {
        let i = key_index(m.drop_last(), k);
        if i >= 0 {
            i
        } else if m.last().0 == k {
            m.len() - 1
        } else {
            -1
        }
    }
}

/// The value stored under `k` in `m`, if any.
pub open spec fn lookup(m: Seq<(Seq<char>, Json)>, k: Seq<char>) -> Option<Json> {
    let i = key_index(m, k);
    if i >= 0 {
        Some(m[i].1)
    } else {
        None
    }
}

/// `m` with `v` stored under `k`: an existing entry keeps its place and takes
/// the new value, otherwise the entry is appended.
pub open spec fn map_insert(m: Seq<(Seq<char>, Json)>, k: Seq<char>, v: Json) -> Seq<(Seq<char>, Json)> {
    let i = key_index(m, k);
    if i >= 0 {
        m.update(i, (k, v))
    } else {
        m.push((k, v))
    }
}

/// No two entries of `m` share a key.
pub open spec fn keys_unique(m: Seq<(Seq<char>, Json)>) -> bool {
    forall|i: int, j: int| 0 <= i < j < m.len() ==> m[i].0 != m[j].0
}

impl Json {
    /// A valid document: every object has distinct keys and every number is valid.
    pub open spec fn wf(self) -> bool
        decreases self,
    {
        match self {
            Json::Number(n) => n.wf(),
            Json::Array(a) => forall|i: int| 0 <= i < a.len() ==> (#[trigger] a[i]).wf(),
            Json::Object(m) => keys_unique(m) && forall|i: int|
                0 <= i < m.len() ==> (#[trigger] m[i]).1.wf(),
            _ => true,
        }
    }
}

/// `key_index` finds the first entry with the key, and only such an entry.
pub proof fn lemma_key_index(m: Seq<(Seq<char>, Json)>, k: Seq<char>)
    ensures
        -1 <= key_index(m, k) < m.len(),
        key_index(m, k) == -1 <==> forall|j: int| 0 <= j < m.len() ==> m[j].0 != k,
        key_index(m, k) >= 0 ==> m[key_index(m, k)].0 == k && forall|j: int|
            0 <= j < key_index(m, k) ==> m[j].0 != k,
    decreases m.len(),
{
    if m.len() > 0 {
        lemma_key_index(m.drop_last(), k);
        assert forall|j: int| 0 <= j < m.len() - 1 implies m[j] == m.drop_last()[j] by {}
    }
}

/// The models of a sequence of values match it element by element.
pub proof fn lemma_models(s: Seq<Value>)
    ensures
        models(s).len() == s.len(),
        forall|i: int| 0 <= i < s.len() ==> #[trigger] models(s)[i] == s[i]@,
    decreases s.len(),
{
    if s.len() > 0 {
        lemma_models(s.drop_last());
        assert forall|i: int| 0 <= i < s.len() implies #[trigger] models(s)[i] == s[i]@ by {
            if i < s.len() - 1 {
                assert(s.drop_last()[i] == s[i]);
            }
        }
    }
}

/// The models of a sequence of entries match it entry by entry.
pub proof fn lemma_entry_models(s: Seq<(String, Value)>)
    ensures
        entry_models(s).len() == s.len(),
        forall|i: int|
            0 <= i < s.len() ==> #[trigger] entry_models(s)[i] == (s[i].0@, s[i].1@),
    decreases s.len(),
{
    if s.len() > 0 {
        lemma_entry_models(s.drop_last());
        assert forall|i: int| 0 <= i < s.len() implies #[trigger] entry_models(s)[i] == (
        s[i].0@,
        s[i].1@,
        ) by {
            if i < s.len() - 1 {
                assert(s.drop_last()[i] == s[i]);
            }
        }
    }
}

/// Inserting into entries with distinct keys keeps the keys distinct.
pub proof fn lemma_map_insert_unique(m: Seq<(Seq<char>, Json)>, k: Seq<char>, v: Json)
    requires
        keys_unique(m),
    ensures
        keys_unique(map_insert(m, k, v)),
{
    lemma_key_index(m, k);
    let r = map_insert(m, k, v);
    assert forall|i: int, j: int| 0 <= i < j < r.len() implies r[i].0 != r[j].0 by {
        if key_index(m, k) < 0 && j == m.len() {
            assert(r[i] == m[i]);
        }
    }
}

/// Storing under one key changes the lookup of that key only.
pub proof fn lemma_lookup_after_insert(
    m: Seq<(Seq<char>, Json)>,
    k2: Seq<char>,
    x: Json,
    k: Seq<char>,
)
    ensures
        lookup(map_insert(m, k2, x), k) == if k2 == k {
            Some(x)
        } else {
            lookup(m, k)
        },
{
    let r = map_insert(m, k2, x);
    lemma_key_index(m, k2);
    lemma_key_index(m, k);
    lemma_key_index(r, k);
    let i = key_index(m, k);
    let j = key_index(r, k);
    if k2 == k {
        assert(r[key_index(m, k2)].0 == k || r[m.len() as int].0 == k);
        if key_index(m, k2) >= 0 {
            assert(r[key_index(m, k2)].0 == k);
            assert(j == key_index(m, k2)) by {
                if j < key_index(m, k2) {
                    assert(r[j] == m[j]);
                }
            }
        } else {
            assert(r[m.len() as int].0 == k);
            assert(j == m.len()) by {
                if j < m.len() {
                    assert(r[j] == m[j]);
                }
            }
        }
    } else {
        assert forall|t: int| 0 <= t < r.len() implies (#[trigger] r[t]).0 == k <==> (t < m.len()
            && m[t].0 == k) by {
            if t < m.len() && t != key_index(m, k2) {
                assert(r[t] == m[t]);
            }
        }
        if i >= 0 {
            assert(j == i) by {
                assert(r[i].0 == k);
                if j >= 0 && j < i {
                    assert(m[j].0 == k);
                }
            }
            assert(r[i] == m[i]) by {
                if i == key_index(m, k2) {
                    assert(m[i].0 == k2);
                }
            }
        } else {
            assert(j == -1) by {
                if j >= 0 {
                    assert(m[j].0 == k);
                }
            }
        }
    }
}

/// Inserting a valid value into a valid object keeps it valid.
pub proof fn lemma_map_insert_wf(m: Seq<(Seq<char>, Json)>, k: Seq<char>, v: Json)
    requires
        Json::Object(m).wf(),
        v.wf(),
    ensures
        Json::Object(map_insert(m, k, v)).wf(),
{
    lemma_map_insert_unique(m, k, v);
    lemma_key_index(m, k);
    let r = map_insert(m, k, v);
    assert forall|i: int| 0 <= i < r.len() implies (#[trigger] r[i]).1.wf() by {
        if r[i] != m[i] {
            assert(r[i].1 == v);
        }
    }
}

impl ObjectMap {
    /// An empty map.
    pub fn new() -> (r: ObjectMap)
        ensures
            r@ == Seq::<(Seq<char>, Json)>::empty(),
            keys_unique(r@),
            Json::Object(r@).wf(),
    {
        ObjectMap { entries: Vec::new() }
    }

    /// The number of entries.
    pub fn len(&self) -> (r: usize)
        ensures
            r == self@.len(),
    {
        proof {
            lemma_entry_models(self.entries@);
        }
        self.entries.len()
    }

    /// Whether the map has no entry.
    pub fn is_empty(&self) -> (r: bool)
        ensures
            r == (self@.len() == 0),
    {
        self.len() == 0
    }

    /// The key of the entry at position `i`.
    pub fn key_at(&self, i: usize) -> (r: &String)
        requires
            i < self@.len(),
        ensures
            r@ == self@[i as int].0,
    {
        proof {
            lemma_entry_models(self.entries@);
        }
        &self.entries[i].0
    }

    /// The value of the entry at position `i`.
    pub fn value_at(&self, i: usize) -> (r: &Value)
        requires
            i < self@.len(),
        ensures
            r@ == self@[i as int].1,
    {
        proof {
            lemma_entry_models(self.entries@);
        }
        &self.entries[i].1
    }

    /// Position of the first entry whose key is `k`.
    fn find(&self, k: &String) -> (r: Option<usize>)
        ensures
            match r {
                Some(i) => i == key_index(self@, k@) && i < self@.len(),
                None => key_index(self@, k@) == -1,
            },
    {
        proof {
            lemma_entry_models(self.entries@);
            lemma_key_index(self@, k@);
        }
        let mut i: usize = 0;
        while i < self.entries.len()
            invariant
                i <= self.entries@.len(),
                self@ == entry_models(self.entries@),
                self@.len() == self.entries@.len(),
                forall|j: int| 0 <= j < self.entries@.len() ==> #[trigger] self@[j] == (self.entries@[j].0@, self.entries@[j].1@),
                forall|j: int| 0 <= j < i ==> self@[j].0 != k@,
                -1 <= key_index(self@, k@) < self@.len(),
                key_index(self@, k@) == -1 <==> forall|j: int| 0 <= j < self@.len() ==> self@[j].0 != k@,
                key_index(self@, k@) >= 0 ==> self@[key_index(self@, k@)].0 == k@ && forall|j: int|
                    0 <= j < key_index(self@, k@) ==> self@[j].0 != k@,
            decreases self.entries@.len() - i,
        {
            if self.entries[i].0 == *k {
                assert(self@[i as int].0 == k@);
                return Some(i);
            }
            i = i + 1;
        }
        None
    }

    /// The value stored under `k`, if any.
    pub fn get(&self, k: &str) -> (r: Option<&Value>)
        ensures
            match r {
                Some(v) => lookup(self@, k@) == Some(v@),
                None => lookup(self@, k@) is None,
            },
    {
        let key = String::from_str(k);
        match self.find(&key) {
            Some(i) => Some(self.value_at(i)),
            None => None,
        }
    }

    /// Whether some entry has the key `k`.
    pub fn contains_key(&self, k: &str) -> (r: bool)
        ensures
            r == (lookup(self@, k@) is Some),
    {
        let key = String::from_str(k);
        self.find(&key).is_some()
    }

    /// Stores `v` under `k`, returning the value it replaces. An existing
    /// entry keeps its position.
    pub fn insert(&mut self, k: String, v: Value) -> (r: Option<Value>)
        ensures
            final(self)@ == map_insert(old(self)@, k@, v@),
            keys_unique(old(self)@) ==> keys_unique(final(self)@),
            Json::Object(old(self)@).wf() && v@.wf() ==> Json::Object(final(self)@).wf(),
            match r {
                Some(o) => lookup(old(self)@, k@) == Some(o@),
                None => lookup(old(self)@, k@) is None,
            },
    {
        proof {
            lemma_entry_models(self.entries@);
            if keys_unique(self@) {
                lemma_map_insert_unique(self@, k@, v@);
            }
            if Json::Object(self@).wf() && v@.wf() {
                lemma_map_insert_wf(self@, k@, v@);
            }
        }
        match self.find(&k) {
            Some(i) => {
                let ghost kv = k@;
                let ghost vv = v@;
                let mut v = v;
                core::mem::swap(&mut self.entries[i].1, &mut v);
                proof {
                    lemma_key_index(old(self)@, kv);
                    lemma_entry_models(self.entries@);
                    assert(self.entries@[i as int].0 == old(self).entries@[i as int].0);
                    assert(self@ =~= map_insert(old(self)@, kv, vv));
                }
                Some(v)
            },
            None => {
                let ghost kv = k@;
                let ghost vv = v@;
                self.entries.push((k, v));
                proof {
                    lemma_entry_models(self.entries@);
                    assert(self@ =~= map_insert(old(self)@, kv, vv));
                }
                None
            },
        }
    }
}

impl Number {
    /// A valid number: a `NegInt` reading holds a negative value, so that
    /// every non-negative integer is a `PosInt`.
    pub open spec fn wf(self) -> bool {
        self matches Number::NegInt(i) ==> i < 0
    }

    /// The number as a `u64`, when it is a non-negative integer.
    pub open spec fn spec_as_u64(self) -> Option<u64> {
        match self {
            Number::PosInt(u) => Some(u),
            _ => None,
        }
    }

    /// The number as an `i64`, when it is an integer in that range.
    pub open spec fn spec_as_i64(self) -> Option<i64> {
        match self {
            Number::PosInt(u) => if u <= i64::MAX as u64 {
                Some(u as i64)
            } else {
                None
            },
            Number::NegInt(i) => Some(i),
            Number::Float(_) => None,
        }
    }

    /// A number from an unsigned integer.
    pub fn from_u64(u: u64) -> (r: Number)
        ensures
            r == Number::PosInt(u),
            r.wf(),
    {
        Number::PosInt(u)
    }

    /// A number from a signed integer.
    pub fn from_i64(i: i64) -> (r: Number)
        ensures
            i >= 0 ==> r == Number::PosInt(i as u64),
            i < 0 ==> r == Number::NegInt(i),
            r.wf(),
    {
        if i >= 0 {
            Number::PosInt(i as u64)
        } else {
            Number::NegInt(i)
        }
    }

    /// The number as a `u64`, when it is a non-negative integer.
    pub fn as_u64(&self) -> (r: Option<u64>)
        ensures
            r == self.spec_as_u64(),
    {
        match self {
            Number::PosInt(u) => Some(*u),
            _ => None,
        }
    }

    /// The number as an `i64`, when it is an integer in that range.
    pub fn as_i64(&self) -> (r: Option<i64>)
        ensures
            r == self.spec_as_i64(),
    {
        match self {
            Number::PosInt(u) => if *u <= i64::MAX as u64 {
                Some(*u as i64)
            } else {
                None
            },
            Number::NegInt(i) => Some(*i),
            Number::Float(_) => None,
        }
    }
}

impl Value {
    /// Whether the value is `Null`.
    pub fn is_null(&self) -> (r: bool)
        ensures
            r == (self@ is Null),
    {
        match self {
            Value::Null => true,
            _ => false,
        }
    }

    /// The text of a string value.
    pub fn as_str(&self) -> (r: Option<&String>)
        ensures
            match self@ {
                Json::Str(s) => r is Some && r->0@ == s,
                _ => r is None,
            },
    {
        match self {
            Value::String(s) => Some(s),
            _ => None,
        }
    }

    /// The content of a boolean value.
    pub fn as_bool(&self) -> (r: Option<bool>)
        ensures
            match self@ {
                Json::Bool(b) => r == Some(b),
                _ => r is None,
            },
    {
        match self {
            Value::Bool(b) => Some(*b),
            _ => None,
        }
    }

    /// A number value as a `u64`, when it is a non-negative integer.
    pub fn as_u64(&self) -> (r: Option<u64>)
        ensures
            match self@ {
                Json::Number(n) => r == n.spec_as_u64(),
                _ => r is None,
            },
    {
        match self {
            Value::Number(n) => n.as_u64(),
            _ => None,
        }
    }

    /// A number value as an `i64`, when it is an integer in that range.
    pub fn as_i64(&self) -> (r: Option<i64>)
        ensures
            match self@ {
                Json::Number(n) => r == n.spec_as_i64(),
                _ => r is None,
            },
    {
        match self {
            Value::Number(n) => n.as_i64(),
            _ => None,
        }
    }

    /// The value stored under `k`, when this is an object holding that key.
    pub fn get(&self, k: &str) -> (r: Option<&Value>)
        ensures
            match self@ {
                Json::Object(m) => match r {
                    Some(v) => lookup(m, k@) == Some(v@),
                    None => lookup(m, k@) is None,
                },
                _ => r is None,
            },
    {
        match self {
            Value::Object(m) => m.get(k),
            _ => None,
        }
    }
}

impl Clone for ObjectMap {
    fn clone(&self) -> (r: Self)
        ensures
            r@ == self@,
        decreases self,
    {
        proof {
            lemma_entry_models(self.entries@);
        }
        let mut entries: Vec<(String, Value)> = Vec::new();
        let mut i: usize = 0;
        while i < self.entries.len()
            invariant
                i <= self.entries@.len(),
                entry_models(entries@) == entry_models(self.entries@.subrange(0, i as int)),
            decreases self.entries@.len() - i,
        {
            let ghost prev = entries@;
            assert(decreases_to!(self => self.entries@[i as int].1));
            let e = (self.entries[i].0.clone(), self.entries[i].1.clone());
            entries.push(e);
            proof {
                assert(entries@.drop_last() == prev);
                assert(self.entries@.subrange(0, i + 1).drop_last() =~= self.entries@.subrange(0, i as int));
            }
            i = i + 1;
        }
        proof {
            assert(self.entries@.subrange(0, i as int) =~= self.entries@);
        }
        ObjectMap { entries }
    }
}

impl Clone for Value {
    fn clone(&self) -> (r: Self)
        ensures
            r@ == self@,
        decreases self,
    {
        match self {
            Value::Null => Value::Null,
            Value::Bool(b) => Value::Bool(*b),
            Value::Number(n) => Value::Number(*n),
            Value::String(s) => Value::String(s.clone()),
            Value::Array(a) => {
                let mut out: Vec<Value> = Vec::new();
                let mut i: usize = 0;
                while i < a.len()
                    invariant
                        i <= a@.len(),
                        *self == Value::Array(*a),
                        models(out@) == models(a@.subrange(0, i as int)),
                    decreases a@.len() - i,
                {
                    let ghost prev = out@;
                    assert(decreases_to!(*self => self->Array_0));
                    assert(decreases_to!(*a => a@[i as int]));
                    out.push(a[i].clone());
                    proof {
                        assert(out@.drop_last() == prev);
                        assert(a@.subrange(0, i + 1).drop_last() =~= a@.subrange(0, i as int));
                    }
                    i = i + 1;
                }
                proof {
                    assert(a@.subrange(0, i as int) =~= a@);
                }
                Value::Array(out)
            },
            Value::Object(m) => Value::Object(m.clone()),
        }
    }
}

} // verus!
