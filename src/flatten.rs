use vstd::prelude::*;

use crate::error::Error;
use crate::filter::Filter;
use crate::value::{
    keys_unique, lemma_key_index, lemma_lookup_after_insert, lemma_map_insert_unique, lemma_map_insert_wf, lookup, lemma_models, map_insert, models, Json, ObjectMap, Value,
};

pub use self::Flattener as Flatten;

verus! {

/// The character of a decimal digit `d` (0 to 9).
pub open spec fn digit(d: int) -> char {
    (d + 48) as char
}

/// The decimal digits of `n`, most significant first.
pub open spec fn decimal(n: nat) -> Seq<char>
    decreases n,
{
    if n < 10 {
        seq![digit(n as int)]
    } else {
        decimal(n / 10).push(digit((n % 10) as int))
    }
}

/// The path of an object entry with key `k` under the path `p`.
pub open spec fn join_key(d: char, p: Seq<char>, k: Seq<char>) -> Seq<char> {
    if p.len() == 0 {
        k
    } else {
        p + seq![d] + k
    }
}

/// The path of the array element at index `i` under the path `p`.
pub open spec fn index_key(d: char, p: Seq<char>, i: nat) -> Seq<char> {
    p + seq![d] + decimal(i)
}

/// Whether a value is an object or an array.
pub open spec fn is_container(v: Json) -> bool {
    v is Object || v is Array
}

/// The leaves under the path `p` of a value `v`, in traversal order.
pub open spec fn flatten_entry(d: char, p: Seq<char>, v: Json) -> Seq<(Seq<char>, Json)>
    decreases v,
{
    match v {
        Json::Object(m) => flatten_object(d, p, m),
        Json::Array(a) => flatten_array(d, p, a),
        _ => seq![(p, v)],
    }
}

/// The leaves of the object entries `m` under the path `p`, in traversal order.
pub open spec fn flatten_object(d: char, p: Seq<char>, m: Seq<(Seq<char>, Json)>) -> Seq<
    (Seq<char>, Json),
>
    decreases m,
{
    if m.len() == 0 {
        Seq::empty()
    } else {
        flatten_object(d, p, m.drop_last()) + flatten_entry(
            d,
            join_key(d, p, m.last().0),
            m.last().1,
        )
    }
}

/// The leaves of the array elements `a` under the path `p`, in traversal order.
pub open spec fn flatten_array(d: char, p: Seq<char>, a: Seq<Json>) -> Seq<(Seq<char>, Json)>
    decreases a,
{
    if a.len() == 0 {
        Seq::empty()
    } else {
        flatten_array(d, p, a.drop_last()) + flatten_entry(
            d,
            index_key(d, p, (a.len() - 1) as nat),
            a.last(),
        )
    }
}

/// The entries `m` after inserting each of `s` in turn.
pub open spec fn insert_all(m: Seq<(Seq<char>, Json)>, s: Seq<(Seq<char>, Json)>) -> Seq<
    (Seq<char>, Json),
>
    decreases s.len(),
{
    if s.len() == 0 {
        m
    } else {
        let prev = insert_all(m, s.drop_last());
        map_insert(prev, s.last().0, s.last().1)
    }
}

/// The entries of the flattened object for a document, or `None` when its
/// root is neither an object nor an array.
pub open spec fn flattened(d: char, json: Json) -> Option<Seq<(Seq<char>, Json)>> {
    match json {
        Json::Object(m) => Some(insert_all(Seq::empty(), flatten_object(d, Seq::empty(), m))),
        Json::Array(a) => Some(insert_all(Seq::empty(), flatten_array(d, Seq::empty(), a))),
        _ => None,
    }
}

/// The value of the last entry of `s` whose key is `p`, if any.
pub open spec fn last_value(s: Seq<(Seq<char>, Json)>, p: Seq<char>) -> Option<Json>
    decreases s.len(),
{
    if s.len() == 0 {
        None
    } else if s.last().0 == p {
        Some(s.last().1)
    } else {
        last_value(s.drop_last(), p)
    }
}

/// After inserting `s`, a key holds the value of its last entry in `s`, or
/// what it held before when `s` does not mention it.
pub proof fn lemma_insert_all_lookup(
    m: Seq<(Seq<char>, Json)>,
    s: Seq<(Seq<char>, Json)>,
    p: Seq<char>,
)
    ensures
        lookup(insert_all(m, s), p) == match last_value(s, p) {
            Some(v) => Some(v),
            None => lookup(m, p),
        },
    decreases s.len(),
{
    if s.len() > 0 {
        lemma_insert_all_lookup(m, s.drop_last(), p);
        lemma_lookup_after_insert(insert_all(m, s.drop_last()), s.last().0, s.last().1, p);
    }
}

/// Every leaf path of a document is a key of its flattened object, holding
/// the last leaf reached by that path; array elements contribute their
/// decimal index as a path segment (see `flatten_array`).
pub proof fn lemma_flattened_lookup(d: char, json: Json, p: Seq<char>)
    ensures
        json is Object ==> flattened(d, json) == Some(
            insert_all(Seq::empty(), flatten_object(d, Seq::empty(), json->Object_0)),
        ) && lookup(flattened(d, json)->0, p) == last_value(
            flatten_object(d, Seq::empty(), json->Object_0),
            p,
        ),
        json is Array ==> flattened(d, json) == Some(
            insert_all(Seq::empty(), flatten_array(d, Seq::empty(), json->Array_0)),
        ) && lookup(flattened(d, json)->0, p) == last_value(
            flatten_array(d, Seq::empty(), json->Array_0),
            p,
        ),
{
    let empty = Seq::<(Seq<char>, Json)>::empty();
    lemma_key_index(empty, p);
    match json {
        Json::Object(m) => lemma_insert_all_lookup(empty, flatten_object(d, Seq::empty(), m), p),
        Json::Array(a) => lemma_insert_all_lookup(empty, flatten_array(d, Seq::empty(), a), p),
        _ => {},
    }
}

/// Inserting a concatenation inserts one part after the other.
pub proof fn lemma_insert_all_concat(
    m: Seq<(Seq<char>, Json)>,
    a: Seq<(Seq<char>, Json)>,
    b: Seq<(Seq<char>, Json)>,
)
    ensures
        insert_all(m, a + b) == insert_all(insert_all(m, a), b),
    decreases b.len(),
{
    if b.len() == 0 {
        assert(a + b =~= a);
    } else {
        assert((a + b).drop_last() =~= a + b.drop_last());
        lemma_insert_all_concat(m, a, b.drop_last());
    }
}

/// Relies on `String::push`: the character is appended at the end.
#[verifier::external_body]
fn push_char(s: &mut String, c: char)
    ensures
        final(s)@ == old(s)@.push(c),
{
    s.push(c);
}

/// Appends the decimal digits of `n` to `s`.
fn push_decimal(s: &mut String, n: usize)
    ensures
        final(s)@ == old(s)@ + decimal(n as nat),
    decreases n,
{
    if n >= 10 {
        push_decimal(s, n / 10);
    }
    let c: char = ((n % 10) as u8 + 48u8) as char;
    assert(c == digit((n % 10) as int));
    push_char(s, c);
    proof {
        if n >= 10 {
            assert(old(s)@ + decimal(n as nat) =~= old(s)@ + decimal((n / 10) as nat) + seq![c]);
        } else {
            assert(old(s)@ + decimal(n as nat) =~= old(s)@.push(c));
        }
    }
}

/// A chain of single-entry objects with the keys `ks`, outermost first,
/// around `leaf`.
pub open spec fn nest(ks: Seq<Seq<char>>, leaf: Json) -> Json
    decreases ks.len(),
{
    if ks.len() == 0 {
        leaf
    } else {
        Json::Object(seq![(ks[0], nest(ks.drop_first(), leaf))])
    }
}

/// The keys `ks` joined by `d`.
pub open spec fn joined(d: char, ks: Seq<Seq<char>>) -> Seq<char>
    decreases ks.len(),
{
    if ks.len() == 0 {
        Seq::empty()
    } else if ks.len() == 1 {
        ks[0]
    } else {
        ks[0] + seq![d] + joined(d, ks.drop_first())
    }
}

/// Inserting entries with distinct keys into an empty object keeps them as they are.
pub proof fn lemma_insert_all_distinct(s: Seq<(Seq<char>, Json)>)
    requires
        keys_unique(s),
    ensures
        insert_all(Seq::empty(), s) == s,
    decreases s.len(),
{
    if s.len() > 0 {
        let d = s.drop_last();
        assert(keys_unique(d)) by {
            assert forall|i: int, j: int| 0 <= i < j < d.len() implies d[i].0 != d[j].0 by {
                assert(d[i] == s[i] && d[j] == s[j]);
            }
        }
        lemma_insert_all_distinct(d);
        lemma_key_index(d, s.last().0);
        assert forall|j: int| 0 <= j < d.len() implies d[j].0 != s.last().0 by {
            assert(d[j] == s[j]);
        }
        assert(d.push(s.last()) =~= s);
    }
}

/// Inserting into entries with distinct keys gives entries with distinct keys.
proof fn lemma_insert_all_unique(m: Seq<(Seq<char>, Json)>, s: Seq<(Seq<char>, Json)>)
    requires
        keys_unique(m),
    ensures
        keys_unique(insert_all(m, s)),
    decreases s.len(),
{
    if s.len() > 0 {
        lemma_insert_all_unique(m, s.drop_last());
        lemma_map_insert_unique(insert_all(m, s.drop_last()), s.last().0, s.last().1);
    }
}

/// The flattened object of a document never holds two entries with one key.
pub proof fn lemma_flattened_keys_distinct(d: char, json: Json)
    ensures
        flattened(d, json) matches Some(m) ==> keys_unique(m),
{
    let empty = Seq::<(Seq<char>, Json)>::empty();
    match json {
        Json::Object(m) => lemma_insert_all_unique(empty, flatten_object(d, Seq::empty(), m)),
        Json::Array(a) => lemma_insert_all_unique(empty, flatten_array(d, Seq::empty(), a)),
        _ => {},
    }
}

/// The leaves of a valid value are valid.
proof fn lemma_flatten_entry_wf(d: char, p: Seq<char>, v: Json)
    requires
        v.wf(),
    ensures
        forall|i: int|
            0 <= i < flatten_entry(d, p, v).len() ==> (#[trigger] flatten_entry(d, p, v)[i]).1.wf(),
    decreases v,
{
    match v {
        Json::Object(m) => {
            lemma_flatten_object_wf(d, p, m);
            assert(flatten_entry(d, p, v) == flatten_object(d, p, m));
        },
        Json::Array(a) => {
            lemma_flatten_array_wf(d, p, a);
            assert(flatten_entry(d, p, v) == flatten_array(d, p, a));
        },
        _ => {},
    }
}

/// The leaves of valid object entries are valid.
proof fn lemma_flatten_object_wf(d: char, p: Seq<char>, m: Seq<(Seq<char>, Json)>)
    requires
        forall|i: int| 0 <= i < m.len() ==> (#[trigger] m[i]).1.wf(),
    ensures
        forall|i: int|
            0 <= i < flatten_object(d, p, m).len() ==> (#[trigger] flatten_object(d, p, m)[i]).1.wf(),
    decreases m,
{
    if m.len() > 0 {
        let dl = m.drop_last();
        assert forall|i: int| 0 <= i < dl.len() implies (#[trigger] dl[i]).1.wf() by {
            assert(dl[i] == m[i]);
        }
        lemma_flatten_object_wf(d, p, dl);
        assert(m.last() == m[m.len() - 1]);
        let x = flatten_object(d, p, dl);
        let y = flatten_entry(d, join_key(d, p, m.last().0), m.last().1);
        lemma_flatten_entry_wf(d, join_key(d, p, m.last().0), m.last().1);
        assert(flatten_object(d, p, m) == x + y);
        assert forall|i: int| 0 <= i < (x + y).len() implies (#[trigger] (x + y)[i]).1.wf() by {
            if i < x.len() {
                assert((x + y)[i] == x[i]);
            } else {
                assert((x + y)[i] == y[i - x.len()]);
            }
        }
    }
}

/// The leaves of valid array elements are valid.
proof fn lemma_flatten_array_wf(d: char, p: Seq<char>, a: Seq<Json>)
    requires
        forall|i: int| 0 <= i < a.len() ==> (#[trigger] a[i]).wf(),
    ensures
        forall|i: int|
            0 <= i < flatten_array(d, p, a).len() ==> (#[trigger] flatten_array(d, p, a)[i]).1.wf(),
    decreases a,
{
    if a.len() > 0 {
        let dl = a.drop_last();
        assert forall|i: int| 0 <= i < dl.len() implies (#[trigger] dl[i]).wf() by {
            assert(dl[i] == a[i]);
        }
        lemma_flatten_array_wf(d, p, dl);
        assert(a.last() == a[a.len() - 1]);
        let x = flatten_array(d, p, dl);
        let y = flatten_entry(d, index_key(d, p, (a.len() - 1) as nat), a.last());
        lemma_flatten_entry_wf(d, index_key(d, p, (a.len() - 1) as nat), a.last());
        assert(flatten_array(d, p, a) == x + y);
        assert forall|i: int| 0 <= i < (x + y).len() implies (#[trigger] (x + y)[i]).1.wf() by {
            if i < x.len() {
                assert((x + y)[i] == x[i]);
            } else {
                assert((x + y)[i] == y[i - x.len()]);
            }
        }
    }
}

/// Inserting valid values into a valid object keeps it valid.
proof fn lemma_insert_all_wf(m: Seq<(Seq<char>, Json)>, s: Seq<(Seq<char>, Json)>)
    requires
        Json::Object(m).wf(),
        forall|i: int| 0 <= i < s.len() ==> (#[trigger] s[i]).1.wf(),
    ensures
        Json::Object(insert_all(m, s)).wf(),
    decreases s.len(),
{
    if s.len() > 0 {
        let dl = s.drop_last();
        assert forall|i: int| 0 <= i < dl.len() implies (#[trigger] dl[i]).1.wf() by {
            assert(dl[i] == s[i]);
        }
        lemma_insert_all_wf(m, dl);
        assert(s.last() == s[s.len() - 1]);
        lemma_map_insert_wf(insert_all(m, dl), s.last().0, s.last().1);
    }
}

/// The flattened object of a valid document is valid.
pub proof fn lemma_flattened_wf(d: char, json: Json)
    requires
        json.wf(),
    ensures
        flattened(d, json) matches Some(m) ==> Json::Object(m).wf(),
{
    let empty = Seq::<(Seq<char>, Json)>::empty();
    match json {
        Json::Object(m) => {
            lemma_flatten_object_wf(d, Seq::empty(), m);
            lemma_insert_all_wf(empty, flatten_object(d, Seq::empty(), m));
        },
        Json::Array(a) => {
            lemma_flatten_array_wf(d, Seq::empty(), a);
            lemma_insert_all_wf(empty, flatten_array(d, Seq::empty(), a));
        },
        _ => {},
    }
}

/// Below a non-empty path, a chain of objects flattens to one entry whose key
/// is the path followed by the chain's keys.
proof fn lemma_flatten_nest(d: char, p: Seq<char>, ks: Seq<Seq<char>>, leaf: Json)
    requires
        p.len() > 0,
        !is_container(leaf),
    ensures
        flatten_entry(d, p, nest(ks, leaf)) == seq![
            (if ks.len() == 0 { p } else { p + seq![d] + joined(d, ks) }, leaf),
        ],
    decreases ks.len(),
{
    if ks.len() > 0 {
        let rest = ks.drop_first();
        let q = p + seq![d] + ks[0];
        let m = seq![(ks[0], nest(rest, leaf))];
        lemma_flatten_nest(d, q, rest, leaf);
        assert(m.drop_last() =~= Seq::<(Seq<char>, Json)>::empty());
        assert(flatten_object(d, p, Seq::empty()) == Seq::<(Seq<char>, Json)>::empty());
        assert(m.last() == (ks[0], nest(rest, leaf)));
        assert(join_key(d, p, ks[0]) == q);
        assert(nest(ks, leaf) == Json::Object(m));
        assert(flatten_object(d, p, m) =~= flatten_entry(d, q, nest(rest, leaf)));
        if rest.len() > 0 {
            assert(q + seq![d] + joined(d, rest) =~= p + seq![d] + joined(d, ks));
        }
    }
}

/// A chain of objects around a single leaf flattens to one entry: the keys
/// joined by the delimiter, holding the leaf.
pub proof fn lemma_flatten_chain(d: char, ks: Seq<Seq<char>>, leaf: Json)
    requires
        ks.len() >= 1,
        ks.len() == 1 || ks[0].len() > 0,
        !is_container(leaf),
    ensures
        flattened(d, nest(ks, leaf)) == Some(seq![(joined(d, ks), leaf)]),
{
    let rest = ks.drop_first();
    let m = seq![(ks[0], nest(rest, leaf))];
    assert(m.drop_last() =~= Seq::<(Seq<char>, Json)>::empty());
    let leaves = flatten_object(d, Seq::empty(), m);
    assert(flatten_object(d, Seq::empty(), Seq::empty()) == Seq::<(Seq<char>, Json)>::empty());
    assert(m.last() == (ks[0], nest(rest, leaf)));
    assert(join_key(d, Seq::empty(), ks[0]) == ks[0]);
    assert(nest(ks, leaf) == Json::Object(m));
    assert(leaves =~= flatten_entry(d, ks[0], nest(rest, leaf)));
    if rest.len() > 0 {
        lemma_flatten_nest(d, ks[0], rest, leaf);
    } else {
        assert(nest(rest, leaf) == leaf);
    }
    assert(leaves == seq![(joined(d, ks), leaf)]);
    assert(keys_unique(leaves));
    lemma_insert_all_distinct(leaves);
}

/// Numbers with the same decimal digits are equal.
pub proof fn lemma_decimal_injective(i: nat, j: nat)
    requires
        decimal(i) == decimal(j),
    ensures
        i == j,
    decreases i,
{
    if i >= 10 && j >= 10 {
        let a = decimal(i / 10);
        let b = decimal(j / 10);
        assert(decimal(i).drop_last() =~= a);
        assert(decimal(j).drop_last() =~= b);
        assert(digit((i % 10) as int) == decimal(i).last());
        lemma_decimal_injective(i / 10, j / 10);
    } else if i >= 10 {
        assert(decimal(i).len() == decimal(i / 10).len() + 1);
        assert(decimal(i / 10).len() >= 1) by {
            reveal_with_fuel(decimal, 2);
        }
    } else if j >= 10 {
        assert(decimal(j).len() == decimal(j / 10).len() + 1);
        assert(decimal(j / 10).len() >= 1) by {
            reveal_with_fuel(decimal, 2);
        }
    } else {
        assert(decimal(i)[0] == digit(i as int));
        assert(decimal(j)[0] == digit(j as int));
    }
}

/// The leaves of an array of leaves are its elements, under their index paths.
proof fn lemma_flatten_leaf_array(d: char, p: Seq<char>, a: Seq<Json>)
    requires
        forall|i: int| 0 <= i < a.len() ==> !is_container(#[trigger] a[i]),
    ensures
        flatten_array(d, p, a) == Seq::new(a.len(), |i: int| (index_key(d, p, i as nat), a[i])),
    decreases a.len(),
{
    if a.len() > 0 {
        let b = a.drop_last();
        assert forall|i: int| 0 <= i < b.len() implies !is_container(#[trigger] b[i]) by {
            assert(b[i] == a[i]);
        }
        lemma_flatten_leaf_array(d, p, b);
        assert(a.last() == a[a.len() - 1]);
        let last = a.last();
        assert(!is_container(last));
        assert(flatten_entry(d, index_key(d, p, (a.len() - 1) as nat), last) == seq![(index_key(d, p, (a.len() - 1) as nat), last)]);
        let want = Seq::new(a.len(), |i: int| (index_key(d, p, i as nat), a[i]));
        assert forall|i: int| 0 <= i < a.len() implies #[trigger] flatten_array(d, p, a)[i] == want[i] by {
            if i < b.len() {
                assert(b[i] == a[i]);
            }
        }
        assert(flatten_array(d, p, a) =~= want);
    }
}

/// Flattening an object that holds one array of leaves under `k` gives one
/// entry per element, keyed by `k`, the delimiter and the element's index.
pub proof fn lemma_flatten_array_indices(d: char, k: Seq<char>, a: Seq<Json>)
    requires
        forall|i: int| 0 <= i < a.len() ==> !is_container(#[trigger] a[i]),
    ensures
        flattened(d, Json::Object(seq![(k, Json::Array(a))])) == Some(
            Seq::new(a.len(), |i: int| (k + seq![d] + decimal(i as nat), a[i])),
        ),
{
    let m = seq![(k, Json::Array(a))];
    assert(m.drop_last() =~= Seq::<(Seq<char>, Json)>::empty());
    let leaves = flatten_object(d, Seq::empty(), m);
    assert(flatten_object(d, Seq::empty(), Seq::empty()) == Seq::<(Seq<char>, Json)>::empty());
    assert(m.last() == (k, Json::Array(a)));
    assert(join_key(d, Seq::empty(), k) == k);
    assert(flatten_entry(d, k, Json::Array(a)) == flatten_array(d, k, a));
    assert(leaves == Seq::<(Seq<char>, Json)>::empty() + flatten_entry(d, k, Json::Array(a)));
    assert(leaves =~= flatten_array(d, k, a));
    lemma_flatten_leaf_array(d, k, a);
    let want = Seq::new(a.len(), |i: int| (k + seq![d] + decimal(i as nat), a[i]));
    assert(leaves =~= want);
    assert forall|i: int, j: int| 0 <= i < j < want.len() implies want[i].0 != want[j].0 by {
        if want[i].0 == want[j].0 {
            let n = k.len() as int + 1;
            assert(want[i].0.subrange(n, want[i].0.len() as int) =~= decimal(i as nat));
            assert(want[j].0.subrange(n, want[j].0.len() as int) =~= decimal(j as nat));
            lemma_decimal_injective(i as nat, j as nat);
        }
    }
    lemma_insert_all_distinct(want);
}

/// Collapses a nested document into one object whose keys are the paths to
/// its leaves, joined by a delimiter.
pub struct Flattener {
    delimiter: char,
}

impl Flattener {
    /// The character placed between path segments.
    pub closed spec fn delim(&self) -> char {
        self.delimiter
    }

    /// A flattener that joins path segments with `delimiter`.
    pub fn new(delimiter: char) -> (r: Self)
        ensures
            r.delim() == delimiter,
    {
        Self { delimiter }
    }

    fn flatten_map(&self, map: &ObjectMap, prefix: &String, result: &mut ObjectMap)
        ensures
            final(result)@ == insert_all(old(result)@, flatten_object(self.delim(), prefix@, map@)),
        decreases map@,
    {
        let ghost d = self.delim();
        let mut i: usize = 0;
        let n = map.len();
        while i < n
            invariant
                n == map@.len(),
                i <= n,
                d == self.delim(),
                result@ == insert_all(
                    old(result)@,
                    flatten_object(d, prefix@, map@.subrange(0, i as int)),
                ),
            decreases n - i,
        {
            let k = map.key_at(i);
            let v = map.value_at(i);
            let new_pref = if prefix.as_str().is_empty() {
                k.clone()
            } else {
                let mut p = prefix.clone();
                push_char(&mut p, self.delimiter);
                p.append(k.as_str());
                p
            };
            assert(new_pref@ == join_key(d, prefix@, map@[i as int].0));
            let ghost before = result@;
            match v {
                Value::Object(inner) => {
                    assert(decreases_to!(map@ => map@[i as int].1->Object_0));
                    self.flatten_map(inner, &new_pref, result);
                },
                Value::Array(arr) => {
                    assert(decreases_to!(map@ => map@[i as int].1->Array_0));
                    self.flatten_array(arr, &new_pref, result);
                },
                _ => {
                    let ghost path = new_pref@;
                    result.insert(new_pref, v.clone());
                    assert(seq![(path, v@)].drop_last() =~= Seq::<(Seq<char>, Json)>::empty());
                    assert(insert_all(before, Seq::<(Seq<char>, Json)>::empty()) == before);
                    assert(insert_all(before, seq![(path, v@)]) == map_insert(before, path, v@));
                },
            }
            assert(result@ == insert_all(before, flatten_entry(d, join_key(d, prefix@, map@[i as int].0), map@[i as int].1)));
            proof {
                let s = map@.subrange(0, i + 1);
                assert(s.drop_last() =~= map@.subrange(0, i as int));
                assert(s.last() == map@[i as int]);
                assert(flatten_object(d, prefix@, s) == flatten_object(d, prefix@, map@.subrange(0, i as int)) + flatten_entry(d, join_key(d, prefix@, map@[i as int].0), map@[i as int].1));
                lemma_insert_all_concat(
                    old(result)@,
                    flatten_object(d, prefix@, map@.subrange(0, i as int)),
                    flatten_entry(d, join_key(d, prefix@, map@[i as int].0), map@[i as int].1),
                );
            }
            i = i + 1;
        }
        proof {
            assert(map@.subrange(0, n as int) =~= map@);
        }
    }

    fn flatten_array(&self, array: &Vec<Value>, prefix: &String, result: &mut ObjectMap)
        ensures
            final(result)@ == insert_all(old(result)@, flatten_array(self.delim(), prefix@, models(array@))),
        decreases models(array@),
    {
        let ghost d = self.delim();
        let ghost a = models(array@);
        proof {
            lemma_models(array@);
        }
        let mut i: usize = 0;
        while i < array.len()
            invariant
                i <= array@.len(),
                a == models(array@),
                a.len() == array@.len(),
                forall|j: int| 0 <= j < array@.len() ==> #[trigger] a[j] == array@[j]@,
                d == self.delim(),
                result@ == insert_all(old(result)@, flatten_array(d, prefix@, a.subrange(0, i as int))),
            decreases array@.len() - i,
        {
            let v = &array[i];
            let mut new_prefix = prefix.clone();
            push_char(&mut new_prefix, self.delimiter);
            push_decimal(&mut new_prefix, i);
            assert(new_prefix@ == index_key(d, prefix@, i as nat));
            let ghost before = result@;
            match v {
                Value::Object(inner) => {
                    assert(decreases_to!(a => a[i as int]->Object_0));
                    self.flatten_map(inner, &new_prefix, result);
                },
                Value::Array(inner) => {
                    assert(decreases_to!(a => a[i as int]->Array_0));
                    self.flatten_array(inner, &new_prefix, result);
                },
                _ => {
                    let ghost path = new_prefix@;
                    result.insert(new_prefix, v.clone());
                    assert(seq![(path, v@)].drop_last() =~= Seq::<(Seq<char>, Json)>::empty());
                    assert(insert_all(before, Seq::<(Seq<char>, Json)>::empty()) == before);
                    assert(insert_all(before, seq![(path, v@)]) == map_insert(before, path, v@));
                },
            }
            assert(result@ == insert_all(before, flatten_entry(d, index_key(d, prefix@, i as nat), a[i as int])));
            proof {
                let s = a.subrange(0, i + 1);
                assert(s.drop_last() =~= a.subrange(0, i as int));
                assert(s.last() == a[i as int]);
                assert(flatten_array(d, prefix@, s) == flatten_array(d, prefix@, a.subrange(0, i as int)) + flatten_entry(d, index_key(d, prefix@, i as nat), a[i as int]));
                lemma_insert_all_concat(
                    old(result)@,
                    flatten_array(d, prefix@, a.subrange(0, i as int)),
                    flatten_entry(d, index_key(d, prefix@, i as nat), a[i as int]),
                );
            }
            i = i + 1;
        }
        proof {
            assert(a.subrange(0, i as int) =~= a);
        }
    }
}

impl Default for Flattener {
    /// A flattener that joins path segments with `.`.
    fn default() -> (r: Self)
        ensures
            r.delim() == '.',
    {
        Self { delimiter: '.' }
    }
}

impl Filter for Flattener {
    type Output = Value;

    open spec fn filtered(&self, json: Json, r: Result<Value, Error>) -> bool {
        match r {
            Ok(v) => flattened(self.delim(), json) matches Some(m) && v@ == Json::Object(m),
            Err(e) => flattened(self.delim(), json) is None && e == Error::UnsupportedInputShape,
        }
    }

    /// Flattens an object or an array; any other root is refused.
    fn filter(&self, json: Value) -> (r: Result<Value, Error>)
        ensures
            json@.wf() ==> (r matches Ok(v) ==> v@.wf()),
    {
        proof {
            if json@.wf() {
                lemma_flattened_wf(self.delim(), json@);
            }
        }
        let mut result = ObjectMap::new();
        let empty = String::new();
        match json {
            Value::Object(map) => {
                self.flatten_map(&map, &empty, &mut result);
            },
            Value::Array(arr) => {
                self.flatten_array(&arr, &empty, &mut result);
            },
            _ => {
                return Err(Error::UnsupportedInputShape);
            },
        }
        Ok(Value::Object(result))
    }
}

} // verus!
