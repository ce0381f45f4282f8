use vstd::prelude::*;

use crate::error::Error;
use crate::filter::Filter;
use crate::value::{
    key_index, keys_unique, lemma_key_index, lemma_lookup_after_insert, lookup, lemma_models, map_insert, models, Json, ObjectMap, Value,
};

verus! {

/// The texts of a sequence of strings.
pub open spec fn key_views(keys: Seq<String>) -> Seq<Seq<char>> {
    keys.map_values(|k: String| k@)
}

/// `v` with every object entry whose key is in `keys` removed at every depth,
/// and every array element or entry value that becomes `Null` dropped.
pub open spec fn sift(v: Json, keys: Seq<Seq<char>>) -> Json
    decreases v,
{
    match v {
        Json::Array(a) => Json::Array(sift_array(a, keys)),
        Json::Object(m) => Json::Object(sift_object(m, keys)),
        _ => v,
    }
}

/// The sifted elements of `a` that are not `Null`, in order.
pub open spec fn sift_array(a: Seq<Json>, keys: Seq<Seq<char>>) -> Seq<Json>
    decreases a,
{
    if a.len() == 0 {
        Seq::empty()
    } else {
        let prev = sift_array(a.drop_last(), keys);
        let x = sift(a.last(), keys);
        if x is Null {
            prev
        } else {
            prev.push(x)
        }
    }
}

/// The entries of `m` whose key is not in `keys`, with sifted values that
/// are not `Null`, inserted in order into an empty object.
pub open spec fn sift_object(m: Seq<(Seq<char>, Json)>, keys: Seq<Seq<char>>) -> Seq<
    (Seq<char>, Json),
>
    decreases m,
{
    if m.len() == 0 {
        Seq::empty()
    } else {
        let prev = sift_object(m.drop_last(), keys);
        let x = sift(m.last().1, keys);
        if keys.contains(m.last().0) || x is Null {
            prev
        } else {
            map_insert(prev, m.last().0, x)
        }
    }
}

/// Whether `v` is already in sifted form for `keys`: no object anywhere has a
/// key in `keys` or two entries with one key, and no array element or entry
/// value anywhere is `Null`.
pub open spec fn sifted(v: Json, keys: Seq<Seq<char>>) -> bool
    decreases v,
{
    match v {
        Json::Array(a) => forall|i: int|
            0 <= i < a.len() ==> !(a[i] is Null) && sifted(#[trigger] a[i], keys),
        Json::Object(m) => keys_unique(m) && forall|i: int|
            0 <= i < m.len() ==> !keys.contains(m[i].0) && !(m[i].1 is Null) && sifted(
                (#[trigger] m[i]).1,
                keys,
            ),
        _ => true,
    }
}

/// Each element of a sifted array is the non-null sifted form of an element
/// of the input.
proof fn lemma_sift_array_elements(a: Seq<Json>, keys: Seq<Seq<char>>)
    ensures
        forall|i: int|
            0 <= i < sift_array(a, keys).len() ==> !(#[trigger] sift_array(a, keys)[i] is Null)
                && exists|j: int| 0 <= j < a.len() && sift_array(a, keys)[i] == sift(a[j], keys),
    decreases a.len(),
{
    if a.len() > 0 {
        lemma_sift_array_elements(a.drop_last(), keys);
        let prev = sift_array(a.drop_last(), keys);
        assert forall|i: int| 0 <= i < sift_array(a, keys).len() implies !(#[trigger] sift_array(
            a,
            keys,
        )[i] is Null) && exists|j: int| 0 <= j < a.len() && sift_array(a, keys)[i] == sift(a[j], keys) by {
            if i < prev.len() {
                let j = choose|j: int| 0 <= j < a.drop_last().len() && prev[i] == sift(a.drop_last()[j], keys);
                assert(a.drop_last()[j] == a[j]);
            } else {
                assert(sift_array(a, keys)[i] == sift(a[a.len() - 1], keys));
            }
        }
    }
}

/// The entries of a sifted object have distinct keys outside `keys`, and each
/// value is the non-null sifted form of a value of the input.
proof fn lemma_sift_object_entries(m: Seq<(Seq<char>, Json)>, keys: Seq<Seq<char>>)
    ensures
        keys_unique(sift_object(m, keys)),
        forall|i: int|
            0 <= i < sift_object(m, keys).len() ==> !keys.contains(
                (#[trigger] sift_object(m, keys)[i]).0,
            ) && !(sift_object(m, keys)[i].1 is Null) && exists|j: int|
                0 <= j < m.len() && sift_object(m, keys)[i].1 == sift(m[j].1, keys),
    decreases m.len(),
{
    if m.len() > 0 {
        lemma_sift_object_entries(m.drop_last(), keys);
        let prev = sift_object(m.drop_last(), keys);
        let k = m.last().0;
        let x = sift(m.last().1, keys);
        lemma_key_index(prev, k);
        let r = sift_object(m, keys);
        assert forall|i: int| 0 <= i < r.len() implies !keys.contains((#[trigger] r[i]).0) && !(
        r[i].1 is Null) && exists|j: int| 0 <= j < m.len() && r[i].1 == sift(m[j].1, keys) by {
            if !keys.contains(k) && !(x is Null) && (i == key_index(prev, k) || i == prev.len()) {
                assert(r[i] == (k, x));
                assert(m.last() == m[m.len() - 1]);
            } else {
                assert(r[i] == prev[i]);
                let j = choose|j: int|
                    0 <= j < m.drop_last().len() && prev[i].1 == sift(m.drop_last()[j].1, keys);
                assert(m.drop_last()[j] == m[j]);
            }
        }
    }
}

/// Sifting removes the keys everywhere: the result holds none of `keys` at
/// any depth, no `Null` element or entry value, and no repeated key.
pub proof fn lemma_sift_removes_everywhere(v: Json, keys: Seq<Seq<char>>)
    ensures
        sifted(sift(v, keys), keys),
    decreases v,
{
    match v {
        Json::Array(a) => {
            lemma_sift_array_elements(a, keys);
            let r = sift_array(a, keys);
            assert forall|i: int| 0 <= i < r.len() implies !(r[i] is Null) && sifted(
                #[trigger] r[i],
                keys,
            ) by {
                let j = choose|j: int| 0 <= j < a.len() && r[i] == sift(a[j], keys);
                assert(decreases_to!(v => a[j]));
                lemma_sift_removes_everywhere(a[j], keys);
            }
        },
        Json::Object(m) => {
            lemma_sift_object_entries(m, keys);
            let r = sift_object(m, keys);
            assert forall|i: int| 0 <= i < r.len() implies !keys.contains(r[i].0) && !(
            r[i].1 is Null) && sifted((#[trigger] r[i]).1, keys) by {
                let j = choose|j: int| 0 <= j < m.len() && r[i].1 == sift(m[j].1, keys);
                assert(decreases_to!(v => m[j].1));
                lemma_sift_removes_everywhere(m[j].1, keys);
            }
        },
        _ => {},
    }
}

/// A sifted array of sifted elements is unchanged by sifting.
proof fn lemma_sift_array_unchanged(a: Seq<Json>, keys: Seq<Seq<char>>)
    requires
        forall|i: int| 0 <= i < a.len() ==> !(a[i] is Null) && sifted(#[trigger] a[i], keys),
    ensures
        sift_array(a, keys) == a,
    decreases a,
{
    if a.len() > 0 {
        assert forall|i: int| 0 <= i < a.drop_last().len() implies !(a.drop_last()[i] is Null)
            && sifted(#[trigger] a.drop_last()[i], keys) by {
            assert(a.drop_last()[i] == a[i]);
        }
        lemma_sift_array_unchanged(a.drop_last(), keys);
        assert(a.last() == a[a.len() - 1]);
        lemma_sift_unchanged(a.last(), keys);
        assert(a.drop_last().push(a.last()) =~= a);
    }
}

/// Sifted object entries are unchanged by sifting.
proof fn lemma_sift_object_unchanged(m: Seq<(Seq<char>, Json)>, keys: Seq<Seq<char>>)
    requires
        keys_unique(m),
        forall|i: int|
            0 <= i < m.len() ==> !keys.contains(m[i].0) && !(m[i].1 is Null) && sifted(
                (#[trigger] m[i]).1,
                keys,
            ),
    ensures
        sift_object(m, keys) == m,
    decreases m,
{
    if m.len() > 0 {
        let d = m.drop_last();
        assert forall|i: int| 0 <= i < d.len() implies !keys.contains(d[i].0) && !(d[i].1 is Null)
            && sifted((#[trigger] d[i]).1, keys) by {
            assert(d[i] == m[i]);
        }
        assert(keys_unique(d)) by {
            assert forall|i: int, j: int| 0 <= i < j < d.len() implies d[i].0 != d[j].0 by {
                assert(d[i] == m[i] && d[j] == m[j]);
            }
        }
        lemma_sift_object_unchanged(d, keys);
        let last = m[m.len() - 1];
        assert(m.last() == last);
        lemma_sift_unchanged(last.1, keys);
        lemma_key_index(d, last.0);
        assert forall|j: int| 0 <= j < d.len() implies d[j].0 != last.0 by {
            assert(d[j] == m[j]);
        }
        assert(d.push(last) =~= m);
    }
}

/// A document already in sifted form is unchanged by sifting: subtrees with
/// no ignored key and no `Null` element or entry value come out identical.
pub proof fn lemma_sift_unchanged(v: Json, keys: Seq<Seq<char>>)
    requires
        sifted(v, keys),
    ensures
        sift(v, keys) == v,
    decreases v,
{
    match v {
        Json::Array(a) => {
            lemma_sift_array_unchanged(a, keys);
        },
        Json::Object(m) => {
            lemma_sift_object_unchanged(m, keys);
        },
        _ => {},
    }
}

/// Sifting keeps a document valid.
pub proof fn lemma_sift_keeps_wf(v: Json, keys: Seq<Seq<char>>)
    requires
        v.wf(),
    ensures
        sift(v, keys).wf(),
    decreases v,
{
    match v {
        Json::Array(a) => {
            lemma_sift_array_elements(a, keys);
            let r = sift_array(a, keys);
            assert forall|i: int| 0 <= i < r.len() implies (#[trigger] r[i]).wf() by {
                let j = choose|j: int| 0 <= j < a.len() && r[i] == sift(a[j], keys);
                assert(decreases_to!(v => a[j]));
                lemma_sift_keeps_wf(a[j], keys);
            }
        },
        Json::Object(m) => {
            lemma_sift_object_entries(m, keys);
            let r = sift_object(m, keys);
            assert forall|i: int| 0 <= i < r.len() implies (#[trigger] r[i]).1.wf() by {
                let j = choose|j: int| 0 <= j < m.len() && r[i].1 == sift(m[j].1, keys);
                assert(decreases_to!(v => m[j].1));
                lemma_sift_keeps_wf(m[j].1, keys);
            }
        },
        _ => {},
    }
}

/// Whether no object anywhere in `v` has a key in `keys`, and no `Null`
/// occurs as an array element or entry value anywhere inside `v`.
pub open spec fn untouched(v: Json, keys: Seq<Seq<char>>) -> bool
    decreases v,
{
    match v {
        Json::Array(a) => forall|i: int|
            0 <= i < a.len() ==> !(a[i] is Null) && untouched(#[trigger] a[i], keys),
        Json::Object(m) => forall|i: int|
            0 <= i < m.len() ==> !keys.contains(m[i].0) && !(m[i].1 is Null) && untouched(
                (#[trigger] m[i]).1,
                keys,
            ),
        _ => true,
    }
}

/// A valid untouched document is already in sifted form.
proof fn lemma_untouched_sifted(v: Json, keys: Seq<Seq<char>>)
    requires
        v.wf(),
        untouched(v, keys),
    ensures
        sifted(v, keys),
    decreases v,
{
    match v {
        Json::Array(a) => {
            assert forall|i: int| 0 <= i < a.len() implies !(a[i] is Null) && sifted(
                #[trigger] a[i],
                keys,
            ) by {
                assert(decreases_to!(v => a[i]));
                lemma_untouched_sifted(a[i], keys);
            }
        },
        Json::Object(m) => {
            assert forall|i: int| 0 <= i < m.len() implies !keys.contains(m[i].0) && !(
            m[i].1 is Null) && sifted((#[trigger] m[i]).1, keys) by {
                assert(decreases_to!(v => m[i].1));
                lemma_untouched_sifted(m[i].1, keys);
            }
        },
        _ => {},
    }
}

/// Sifting leaves untouched branches identical: a valid document in which no
/// object has an ignored key and no `Null` occurs inside comes out equal to itself.
pub proof fn lemma_sift_untouched(v: Json, keys: Seq<Seq<char>>)
    requires
        v.wf(),
        untouched(v, keys),
    ensures
        sift(v, keys) == v,
{
    lemma_untouched_sifted(v, keys);
    lemma_sift_unchanged(v, keys);
}

/// Sifting an object keeps every entry whose key is not ignored and whose
/// sifted value is not `Null`, under the same key, with the sifted value.
pub proof fn lemma_sift_keeps_sibling(
    m: Seq<(Seq<char>, Json)>,
    keys: Seq<Seq<char>>,
    k: Seq<char>,
    c: Json,
)
    requires
        keys_unique(m),
        !keys.contains(k),
        lookup(m, k) == Some(c),
        !(sift(c, keys) is Null),
    ensures
        lookup(sift_object(m, keys), k) == Some(sift(c, keys)),
    decreases m.len(),
{
    lemma_key_index(m, k);
    let d = m.drop_last();
    let (k2, c2) = m.last();
    lemma_key_index(d, k);
    assert(keys_unique(d)) by {
        assert forall|i: int, j: int| 0 <= i < j < d.len() implies d[i].0 != d[j].0 by {
            assert(d[i] == m[i] && d[j] == m[j]);
        }
    }
    let prev = sift_object(d, keys);
    let x = sift(c2, keys);
    if k2 == k {
        assert(m.last() == m[m.len() - 1]);
        assert(key_index(d, k) == -1) by {
            assert forall|j: int| 0 <= j < d.len() implies d[j].0 != k by {
                assert(d[j] == m[j]);
            }
        }
        assert(c2 == c);
        lemma_lookup_after_insert(prev, k2, x, k);
    } else {
        assert(key_index(d, k) >= 0);
        assert(lookup(d, k) == Some(c)) by {
            assert(d[key_index(d, k)] == m[key_index(d, k)]);
        }
        lemma_sift_keeps_sibling(d, keys, k, c);
        lemma_lookup_after_insert(prev, k2, x, k);
    }
}

/// Sifting twice with the same keys gives the same result as sifting once.
pub proof fn lemma_sift_idempotent(v: Json, keys: Seq<Seq<char>>)
    ensures
        sift(sift(v, keys), keys) == sift(v, keys),
{
    lemma_sift_removes_everywhere(v, keys);
    lemma_sift_unchanged(sift(v, keys), keys);
}

/// Removes a set of keys, with their subtrees, from every depth of a document.
#[derive(Debug, PartialEq)]
pub struct Ignore {
    keys: Vec<String>,
}

/// Whether `k` is one of `keys`.
fn is_ignored(keys: &Vec<String>, k: &String) -> (r: bool)
    ensures
        r == key_views(keys@).contains(k@),
{
    let mut i: usize = 0;
    while i < keys.len()
        invariant
            i <= keys@.len(),
            forall|j: int| 0 <= j < i ==> keys@[j]@ != k@,
        decreases keys@.len() - i,
    {
        if keys[i] == *k {
            assert(key_views(keys@)[i as int] == k@);
            return true;
        }
        i = i + 1;
    }
    assert forall|j: int| 0 <= j < key_views(keys@).len() implies key_views(keys@)[j] != k@ by {
        assert(keys@[j]@ != k@);
    }
    false
}

impl Ignore {
    /// The keys that this filter removes.
    pub closed spec fn ignored(&self) -> Seq<Seq<char>> {
        key_views(self.keys@)
    }

    /// A filter that removes each of `keys`.
    pub fn new(keys: Vec<&str>) -> (r: Self)
        ensures
            r.ignored() == keys@.map_values(|k: &str| k@),
    {
        let mut owned: Vec<String> = Vec::new();
        let mut i: usize = 0;
        while i < keys.len()
            invariant
                i <= keys@.len(),
                owned@.len() == i,
                forall|j: int| 0 <= j < i ==> (#[trigger] owned@[j])@ == keys@[j]@,
            decreases keys@.len() - i,
        {
            owned.push(String::from_str(keys[i]));
            i = i + 1;
        }
        assert(key_views(owned@) =~= keys@.map_values(|k: &str| k@));
        Self { keys: owned }
    }

    /// A copy of `json` without the entries whose key is one of `ignore_keys`,
    /// at any depth, and without the `Null` elements and entry values.
    pub fn sift(json: &Value, ignore_keys: &Vec<String>) -> (r: Value)
        ensures
            r@ == sift(json@, key_views(ignore_keys@)),
            json@.wf() ==> r@.wf(),
        decreases json@,
    {
        proof {
            if json@.wf() {
                lemma_sift_keeps_wf(json@, key_views(ignore_keys@));
            }
        }
        let ghost keys = key_views(ignore_keys@);
        match json {
            Value::Null => Value::Null,
            Value::Bool(b) => Value::Bool(*b),
            Value::Number(n) => Value::Number(*n),
            Value::String(s) => Value::String(s.clone()),
            Value::Array(arr) => {
                let ghost a = models(arr@);
                proof {
                    lemma_models(arr@);
                }
                let mut out: Vec<Value> = Vec::new();
                let mut i: usize = 0;
                while i < arr.len()
                    invariant
                        i <= arr@.len(),
                        json@ == Json::Array(a),
                        a == models(arr@),
                        a.len() == arr@.len(),
                        forall|j: int| 0 <= j < arr@.len() ==> #[trigger] a[j] == arr@[j]@,
                        keys == key_views(ignore_keys@),
                        models(out@) == sift_array(a.subrange(0, i as int), keys),
                    decreases arr@.len() - i,
                {
                    assert(decreases_to!(json@ => json@->Array_0));
                    assert(decreases_to!(a => a[i as int]));
                    let x = Ignore::sift(&arr[i], ignore_keys);
                    let ghost prev = out@;
                    let ghost s = a.subrange(0, i + 1);
                    assert(s.drop_last() =~= a.subrange(0, i as int));
                    if !x.is_null() {
                        out.push(x);
                        assert(out@.drop_last() == prev);
                    }
                    i = i + 1;
                }
                proof {
                    assert(a.subrange(0, i as int) =~= a);
                }
                Value::Array(out)
            },
            Value::Object(map) => {
                let mut out = ObjectMap::new();
                let mut i: usize = 0;
                let n = map.len();
                while i < n
                    invariant
                        n == map@.len(),
                        i <= n,
                        json@ == Json::Object(map@),
                        keys == key_views(ignore_keys@),
                        out@ == sift_object(map@.subrange(0, i as int), keys),
                    decreases n - i,
                {
                    let k = map.key_at(i);
                    let ghost s = map@.subrange(0, i + 1);
                    assert(s.drop_last() =~= map@.subrange(0, i as int));
                    if !is_ignored(ignore_keys, k) {
                        assert(decreases_to!(json@ => json@->Object_0));
                        assert(decreases_to!(map@ => map@[i as int].1));
                        let x = Ignore::sift(map.value_at(i), ignore_keys);
                        if !x.is_null() {
                            out.insert(k.clone(), x);
                        }
                    }
                    i = i + 1;
                }
                proof {
                    assert(map@.subrange(0, n as int) =~= map@);
                }
                Value::Object(out)
            },
        }
    }
}

impl Clone for Ignore {
    fn clone(&self) -> (r: Self)
        ensures
            r.ignored() == self.ignored(),
    {
        let mut keys: Vec<String> = Vec::new();
        let mut i: usize = 0;
        while i < self.keys.len()
            invariant
                i <= self.keys@.len(),
                keys@.len() == i,
                forall|j: int| 0 <= j < i ==> (#[trigger] keys@[j])@ == self.keys@[j]@,
            decreases self.keys@.len() - i,
        {
            keys.push(self.keys[i].clone());
            i = i + 1;
        }
        assert(key_views(keys@) =~= key_views(self.keys@));
        Ignore { keys }
    }
}

impl Filter for Ignore {
    type Output = Value;

    open spec fn filtered(&self, json: Json, r: Result<Value, Error>) -> bool {
        r matches Ok(v) && v@ == sift(json, self.ignored())
    }

    /// Sifts the document with this filter's keys; never fails.
    fn filter(&self, json: Value) -> (r: Result<Value, Error>) {
        Ok(Ignore::sift(&json, &self.keys))
    }
}

} // verus!
