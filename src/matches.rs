use vstd::prelude::*;

use core::marker::PhantomData;

use crate::error::Error;
use crate::filter::Filter;
use crate::value::{lemma_models, lookup, models, Json, Value};

verus! {

/// A type that a single document value can be converted to.
pub trait Matchable: Sized + View {
    /// The model of the conversion of `json`, or `None` when `json` has the
    /// wrong shape for this type.
    spec fn decode(json: Json) -> Option<<Self as View>::V>;

    /// Converts `json`, or returns `None` when it has the wrong shape.
    fn from_json(json: Value) -> (r: Option<Self>)
        ensures
            match r {
                Some(x) => Self::decode(json@) == Some(x@),
                None => Self::decode(json@) is None,
            },
    ;
}

/// The values found directly under the key `key` anywhere in `v`, skipping
/// `Null` ones, in document order. The search does not descend below a match.
pub open spec fn matched(key: Seq<char>, v: Json) -> Seq<Json>
    decreases v,
{
    match v {
        Json::Array(a) => matched_array(key, a),
        Json::Object(m) => matched_object(key, m),
        _ => Seq::empty(),
    }
}

/// The matches inside the elements of `a`, in order.
pub open spec fn matched_array(key: Seq<char>, a: Seq<Json>) -> Seq<Json>
    decreases a,
{
    if a.len() == 0 {
        Seq::empty()
    } else {
        matched_array(key, a.drop_last()) + matched(key, a.last())
    }
}

/// The matches among and inside the entries of `m`, in order.
pub open spec fn matched_object(key: Seq<char>, m: Seq<(Seq<char>, Json)>) -> Seq<Json>
    decreases m,
{
    if m.len() == 0 {
        Seq::empty()
    } else {
        let prev = matched_object(key, m.drop_last());
        let (k, c) = m.last();
        if k == key {
            if c is Null {
                prev
            } else {
                prev.push(c)
            }
        } else {
            prev + matched(key, c)
        }
    }
}

/// The conversions of every value of `s`, or `None` when one of them fails.
pub open spec fn decode_all<T: Matchable>(s: Seq<Json>) -> Option<Seq<<T as View>::V>>
    decreases s.len(),
{
    if s.len() == 0 {
        Some(Seq::empty())
    } else {
        match (decode_all::<T>(s.drop_last()), T::decode(s.last())) {
            (Some(p), Some(x)) => Some(p.push(x)),
            _ => None,
        }
    }
}

/// The models of a sequence of converted values.
pub open spec fn views<T: View>(s: Seq<T>) -> Seq<<T as View>::V> {
    s.map_values(|x: T| x@)
}

/// Converting a concatenation converts each part.
pub proof fn lemma_decode_all_concat<T: Matchable>(a: Seq<Json>, b: Seq<Json>)
    ensures
        decode_all::<T>(a + b) == match (decode_all::<T>(a), decode_all::<T>(b)) {
            (Some(p), Some(q)) => Some(p + q),
            _ => None,
        },
    decreases b.len(),
{
    if b.len() == 0 {
        assert(a + b =~= a);
        if let Some(p) = decode_all::<T>(a) {
            assert(p + Seq::<<T as View>::V>::empty() =~= p);
        }
    } else {
        assert((a + b).drop_last() =~= a + b.drop_last());
        lemma_decode_all_concat::<T>(a, b.drop_last());
        if let (Some(p), Some(q)) = (decode_all::<T>(a), decode_all::<T>(b.drop_last())) {
            if let Some(x) = T::decode(b.last()) {
                assert((p + q).push(x) =~= p + q.push(x));
            }
        }
    }
}

/// The conversion of a sequence fails exactly when one of its values does not convert.
pub proof fn lemma_decode_all_fails<T: Matchable>(s: Seq<Json>)
    ensures
        decode_all::<T>(s) is None <==> exists|i: int| 0 <= i < s.len() && T::decode(#[trigger] s[i]) is None,
        decode_all::<T>(s) matches Some(p) ==> p.len() == s.len(),
    decreases s.len(),
{
    if s.len() > 0 {
        lemma_decode_all_fails::<T>(s.drop_last());
        if decode_all::<T>(s.drop_last()) is None {
            let i = choose|i: int| 0 <= i < s.drop_last().len() && T::decode(#[trigger] s.drop_last()[i]) is None;
            assert(s[i] == s.drop_last()[i]);
        }
        if decode_all::<T>(s) is None && T::decode(s.last()) is None {
            assert(T::decode(s[s.len() - 1]) is None);
        }
        if decode_all::<T>(s) is Some {
            assert forall|i: int| 0 <= i < s.len() implies T::decode(#[trigger] s[i]) is Some by {
                if i < s.len() - 1 {
                    assert(s[i] == s.drop_last()[i]);
                }
            }
        }
    }
}

/// The matches in a prefix of an array come first among those of the whole array.
proof fn lemma_matched_array_prefix(key: Seq<char>, a: Seq<Json>, j: int)
    requires
        0 <= j <= a.len(),
    ensures
        exists|t: Seq<Json>| matched_array(key, a) == matched_array(key, a.subrange(0, j)) + t,
    decreases a.len(),
{
    if j == a.len() {
        assert(a.subrange(0, j) =~= a);
        assert(matched_array(key, a) == matched_array(key, a.subrange(0, j)) + Seq::<Json>::empty());
    } else {
        lemma_matched_array_prefix(key, a.drop_last(), j);
        let t = choose|t: Seq<Json>|
            matched_array(key, a.drop_last()) == matched_array(key, a.drop_last().subrange(0, j)) + t;
        assert(a.drop_last().subrange(0, j) =~= a.subrange(0, j));
        assert(matched_array(key, a) =~= matched_array(key, a.subrange(0, j)) + (t + matched(key, a.last())));
    }
}

/// The matches in a prefix of an object come first among those of the whole object.
proof fn lemma_matched_object_prefix(key: Seq<char>, m: Seq<(Seq<char>, Json)>, j: int)
    requires
        0 <= j <= m.len(),
    ensures
        exists|t: Seq<Json>| matched_object(key, m) == matched_object(key, m.subrange(0, j)) + t,
    decreases m.len(),
{
    if j == m.len() {
        assert(m.subrange(0, j) =~= m);
        assert(matched_object(key, m) == matched_object(key, m.subrange(0, j)) + Seq::<Json>::empty());
    } else {
        lemma_matched_object_prefix(key, m.drop_last(), j);
        let t = choose|t: Seq<Json>|
            matched_object(key, m.drop_last()) == matched_object(key, m.drop_last().subrange(0, j)) + t;
        assert(m.drop_last().subrange(0, j) =~= m.subrange(0, j));
        let (k, c) = m.last();
        let prev = matched_object(key, m.drop_last());
        if k == key {
            if c is Null {
                assert(matched_object(key, m) =~= matched_object(key, m.subrange(0, j)) + t);
            } else {
                assert(matched_object(key, m) =~= matched_object(key, m.subrange(0, j)) + t.push(c));
            }
        } else {
            assert(matched_object(key, m) =~= matched_object(key, m.subrange(0, j)) + (t + matched(key, c)));
        }
    }
}

/// A conversion that fails on a prefix fails on the whole sequence.
proof fn lemma_decode_all_prefix_fails<T: Matchable>(p: Seq<Json>, s: Seq<Json>)
    requires
        decode_all::<T>(p) is None,
        exists|t: Seq<Json>| s == p + t,
    ensures
        decode_all::<T>(s) is None,
{
    let t = choose|t: Seq<Json>| s == p + t;
    lemma_decode_all_concat::<T>(p, t);
}

/// Whether `key` is the key of some object entry anywhere in `v`.
pub open spec fn key_occurs(key: Seq<char>, v: Json) -> bool
    decreases v,
{
    match v {
        Json::Array(a) => exists|i: int| 0 <= i < a.len() && key_occurs(key, #[trigger] a[i]),
        Json::Object(m) => exists|i: int|
            0 <= i < m.len() && ((#[trigger] m[i]).0 == key || key_occurs(key, m[i].1)),
        _ => false,
    }
}

/// Elements in which the key does not occur hold no match.
proof fn lemma_absent_array(key: Seq<char>, a: Seq<Json>)
    requires
        forall|i: int| 0 <= i < a.len() ==> !key_occurs(key, #[trigger] a[i]),
    ensures
        matched_array(key, a) == Seq::<Json>::empty(),
    decreases a,
{
    if a.len() > 0 {
        assert forall|i: int| 0 <= i < a.drop_last().len() implies !key_occurs(
            key,
            #[trigger] a.drop_last()[i],
        ) by {
            assert(a.drop_last()[i] == a[i]);
        }
        lemma_absent_array(key, a.drop_last());
        assert(a.last() == a[a.len() - 1]);
        lemma_absent_key(key, a.last());
        assert(matched_array(key, a) =~= Seq::<Json>::empty());
    }
}

/// Entries in which the key does not occur hold no match.
proof fn lemma_absent_object(key: Seq<char>, m: Seq<(Seq<char>, Json)>)
    requires
        forall|i: int| 0 <= i < m.len() ==> (#[trigger] m[i]).0 != key && !key_occurs(key, m[i].1),
    ensures
        matched_object(key, m) == Seq::<Json>::empty(),
    decreases m,
{
    if m.len() > 0 {
        assert forall|i: int| 0 <= i < m.drop_last().len() implies (
        #[trigger] m.drop_last()[i]).0 != key && !key_occurs(key, m.drop_last()[i].1) by {
            assert(m.drop_last()[i] == m[i]);
        }
        lemma_absent_object(key, m.drop_last());
        assert(m.last() == m[m.len() - 1]);
        lemma_absent_key(key, m.last().1);
        assert(matched_object(key, m) =~= Seq::<Json>::empty());
    }
}

/// A document in which the key does not occur holds no match.
pub proof fn lemma_absent_key(key: Seq<char>, v: Json)
    requires
        !key_occurs(key, v),
    ensures
        matched(key, v) == Seq::<Json>::empty(),
    decreases v,
{
    match v {
        Json::Array(a) => lemma_absent_array(key, a),
        Json::Object(m) => lemma_absent_object(key, m),
        _ => {},
    }
}

/// Searching a document in which the key does not occur succeeds with no
/// value, whatever the target type.
pub proof fn lemma_match_absent_key<T: Matchable>(key: Seq<char>, v: Json)
    requires
        !key_occurs(key, v),
    ensures
        decode_all::<T>(matched(key, v)) == Some(Seq::<<T as View>::V>::empty()),
{
    lemma_absent_key(key, v);
}

/// Collects every value found under a key, anywhere in a document, converted
/// to `M`.
#[derive(Debug, PartialEq)]
pub struct Match<M> {
    key: String,
    marker: PhantomData<M>,
}

impl<M: Matchable> Match<M> {
    /// The key that this filter searches for.
    pub closed spec fn target(&self) -> Seq<char> {
        self.key@
    }

    /// A filter that collects the values found under `key`.
    pub fn new(key: &str) -> (r: Self)
        ensures
            r.target() == key@,
    {
        Self { key: String::from_str(key), marker: PhantomData }
    }

    /// Appends the conversions of the matches in `v` to `out`; returns false,
    /// with `out` in some state, when one of them does not convert.
    fn collect(&self, v: &Value, out: &mut Vec<M>) -> (ok: bool)
        ensures
            ok == (decode_all::<M>(matched(self.target(), v@)) is Some),
            ok ==> views(final(out)@) == views(old(out)@) + decode_all::<M>(
                matched(self.target(), v@),
            )->0,
        decreases v@,
    {
        let ghost key = self.target();
        match v {
            Value::Array(arr) => {
                let ghost a = models(arr@);
                proof {
                    lemma_models(arr@);
                }
                let mut i: usize = 0;
                while i < arr.len()
                    invariant
                        i <= arr@.len(),
                        v@ == Json::Array(a),
                        a == models(arr@),
                        a.len() == arr@.len(),
                        forall|j: int| 0 <= j < arr@.len() ==> #[trigger] a[j] == arr@[j]@,
                        key == self.target(),
                        decode_all::<M>(matched_array(key, a.subrange(0, i as int))) is Some,
                        views(out@) == views(old(out)@) + decode_all::<M>(
                            matched_array(key, a.subrange(0, i as int)),
                        )->0,
                    decreases arr@.len() - i,
                {
                    let ghost s = a.subrange(0, i + 1);
                    assert(s.drop_last() =~= a.subrange(0, i as int));
                    assert(decreases_to!(v@ => v@->Array_0));
                    assert(decreases_to!(a => a[i as int]));
                    proof {
                        lemma_decode_all_concat::<M>(
                            matched_array(key, a.subrange(0, i as int)),
                            matched(key, a[i as int]),
                        );
                    }
                    if !self.collect(&arr[i], out) {
                        proof {
                            assert(matched_array(key, s) == matched_array(key, a.subrange(0, i as int)) + matched(key, a[i as int]));
                            lemma_matched_array_prefix(key, a, i + 1);
                            lemma_decode_all_prefix_fails::<M>(matched_array(key, s), matched(key, v@));
                        }
                        return false;
                    }
                    proof {
                        assert(views(out@) =~= views(old(out)@) + decode_all::<M>(
                            matched_array(key, s),
                        )->0);
                    }
                    i = i + 1;
                }
                proof {
                    assert(a.subrange(0, i as int) =~= a);
                }
                true
            },
            Value::Object(map) => {
                let mut i: usize = 0;
                let n = map.len();
                while i < n
                    invariant
                        n == map@.len(),
                        i <= n,
                        v@ == Json::Object(map@),
                        key == self.target(),
                        decode_all::<M>(matched_object(key, map@.subrange(0, i as int))) is Some,
                        views(out@) == views(old(out)@) + decode_all::<M>(
                            matched_object(key, map@.subrange(0, i as int)),
                        )->0,
                    decreases n - i,
                {
                    let ghost s = map@.subrange(0, i + 1);
                    let ghost prev = matched_object(key, map@.subrange(0, i as int));
                    let ghost before = out@;
                    assert(s.drop_last() =~= map@.subrange(0, i as int));
                    let k = map.key_at(i);
                    let c = map.value_at(i);
                    if *k == self.key {
                        if !c.is_null() {
                            proof {
                                lemma_decode_all_concat::<M>(prev, seq![c@]);
                                assert(prev.push(c@) =~= prev + seq![c@]);
                                assert(seq![c@].drop_last() =~= Seq::<Json>::empty());
                            }
                            match M::from_json(c.clone()) {
                                Some(x) => {
                                    out.push(x);
                                    proof {
                                        assert(matched_object(key, s) == prev.push(c@));
                                        assert(decode_all::<M>(Seq::<Json>::empty()) == Some(Seq::<<M as View>::V>::empty()));
                                        assert(decode_all::<M>(seq![c@]) == Some(seq![x@]));
                                        assert(views(out@) =~= views(before) + seq![x@]);
                                        assert(views(out@) =~= views(old(out)@) + decode_all::<M>(
                                            matched_object(key, s),
                                        )->0);
                                    }
                                },
                                None => {
                                    proof {
                                        lemma_matched_object_prefix(key, map@, i + 1);
                                        lemma_decode_all_prefix_fails::<M>(matched_object(key, s), matched(key, v@));
                                    }
                                    return false;
                                },
                            }
                        }
                    } else {
                        assert(decreases_to!(v@ => v@->Object_0));
                        assert(decreases_to!(map@ => map@[i as int].1));
                        proof {
                            lemma_decode_all_concat::<M>(prev, matched(key, c@));
                        }
                        if !self.collect(c, out) {
                            proof {
                                lemma_matched_object_prefix(key, map@, i + 1);
                                lemma_decode_all_prefix_fails::<M>(matched_object(key, s), matched(key, v@));
                            }
                            return false;
                        }
                        proof {
                            assert(views(out@) =~= views(old(out)@) + decode_all::<M>(
                                matched_object(key, s),
                            )->0);
                        }
                    }
                    i = i + 1;
                }
                proof {
                    assert(map@.subrange(0, n as int) =~= map@);
                }
                true
            },
            _ => {
                assert(views(out@) =~= views(old(out)@) + Seq::<<M as View>::V>::empty());
                true
            },
        }
    }
}

impl<M: Matchable> Clone for Match<M> {
    fn clone(&self) -> (r: Self)
        ensures
            r.target() == self.target(),
    {
        Match { key: self.key.clone(), marker: PhantomData }
    }
}

impl<M: Matchable> Filter for Match<M> {
    type Output = Vec<M>;

    open spec fn filtered(&self, json: Json, r: Result<Vec<M>, Error>) -> bool {
        match r {
            Ok(xs) => decode_all::<M>(matched(self.target(), json)) == Some(views(xs@)),
            Err(e) => decode_all::<M>(matched(self.target(), json)) is None && e
                == Error::ConversionMismatch,
        }
    }

    /// Collects the conversions of every match; fails when one does not convert.
    fn filter(&self, json: Value) -> (r: Result<Vec<M>, Error>)
        ensures
            r is Err <==> exists|i: int|
                0 <= i < matched(self.target(), json@).len() && M::decode(
                    #[trigger] matched(self.target(), json@)[i],
                ) is None,
    {
        proof {
            lemma_decode_all_fails::<M>(matched(self.target(), json@));
        }
        let mut out: Vec<M> = Vec::new();
        if self.collect(&json, &mut out) {
            assert(views(out@) =~= Seq::<<M as View>::V>::empty() + views(out@));
            Ok(out)
        } else {
            Err(Error::ConversionMismatch)
        }
    }
}

impl Matchable for Value {
    /// Every value converts to itself.
    open spec fn decode(json: Json) -> Option<Json> {
        Some(json)
    }

    fn from_json(json: Value) -> (r: Option<Value>) {
        Some(json)
    }
}

impl Matchable for String {
    open spec fn decode(json: Json) -> Option<Seq<char>> {
        match json {
            Json::Str(s) => Some(s),
            _ => None,
        }
    }

    fn from_json(json: Value) -> (r: Option<String>) {
        match json {
            Value::String(s) => Some(s),
            _ => None,
        }
    }
}

impl Matchable for bool {
    open spec fn decode(json: Json) -> Option<bool> {
        match json {
            Json::Bool(b) => Some(b),
            _ => None,
        }
    }

    fn from_json(json: Value) -> (r: Option<bool>) {
        json.as_bool()
    }
}

/// The number in `json` as an `i64`, when it is an integer in that range.
pub open spec fn json_i64(json: Json) -> Option<i64> {
    match json {
        Json::Number(n) => n.spec_as_i64(),
        _ => None,
    }
}

/// The number in `json` as a `u64`, when it is a non-negative integer.
pub open spec fn json_u64(json: Json) -> Option<u64> {
    match json {
        Json::Number(n) => n.spec_as_u64(),
        _ => None,
    }
}

impl Matchable for i64 {
    open spec fn decode(json: Json) -> Option<i64> {
        json_i64(json)
    }

    fn from_json(json: Value) -> (r: Option<i64>) {
        json.as_i64()
    }
}

impl Matchable for i32 {
    /// Keeps the low 32 bits of the `i64` reading.
    open spec fn decode(json: Json) -> Option<i32> {
        match json_i64(json) {
            Some(i) => Some(i as i32),
            None => None,
        }
    }

    fn from_json(json: Value) -> (r: Option<i32>) {
        match json.as_i64() {
            Some(i) => Some(#[verifier::truncate] (i as i32)),
            None => None,
        }
    }
}

impl Matchable for i16 {
    /// Keeps the low 16 bits of the `i64` reading.
    open spec fn decode(json: Json) -> Option<i16> {
        match json_i64(json) {
            Some(i) => Some(i as i16),
            None => None,
        }
    }

    fn from_json(json: Value) -> (r: Option<i16>) {
        match json.as_i64() {
            Some(i) => Some(#[verifier::truncate] (i as i16)),
            None => None,
        }
    }
}

impl Matchable for u64 {
    open spec fn decode(json: Json) -> Option<u64> {
        json_u64(json)
    }

    fn from_json(json: Value) -> (r: Option<u64>) {
        json.as_u64()
    }
}

impl Matchable for u32 {
    /// Keeps the low 32 bits of the `u64` reading.
    open spec fn decode(json: Json) -> Option<u32> {
        match json_u64(json) {
            Some(u) => Some(u as u32),
            None => None,
        }
    }

    fn from_json(json: Value) -> (r: Option<u32>) {
        match json.as_u64() {
            Some(u) => Some(#[verifier::truncate] (u as u32)),
            None => None,
        }
    }
}

impl Matchable for u16 {
    /// Keeps the low 16 bits of the `u64` reading.
    open spec fn decode(json: Json) -> Option<u16> {
        match json_u64(json) {
            Some(u) => Some(u as u16),
            None => None,
        }
    }

    fn from_json(json: Value) -> (r: Option<u16>) {
        match json.as_u64() {
            Some(u) => Some(#[verifier::truncate] (u as u16)),
            None => None,
        }
    }
}

impl Matchable for (String, String) {
    /// An object whose entries `key` and `value` are both strings.
    open spec fn decode(json: Json) -> Option<(Seq<char>, Seq<char>)> {
        match json {
            Json::Object(m) => match (lookup(m, "key"@), lookup(m, "value"@)) {
                (Some(Json::Str(k)), Some(Json::Str(v))) => Some((k, v)),
                _ => None,
            },
            _ => None,
        }
    }

    fn from_json(json: Value) -> (r: Option<(String, String)>) {
        match (json.get("key"), json.get("value")) {
            (Some(k), Some(v)) => match (k.as_str(), v.as_str()) {
                (Some(k), Some(v)) => Some((k.clone(), v.clone())),
                _ => None,
            },
            _ => None,
        }
    }
}

} // verus!
