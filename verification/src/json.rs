//! JSON values, as `serde_json` reads, holds and writes them.

use serde_json::Value;
use vstd::prelude::*;

use crate::decimal::decimal;
use crate::text::is_space;

verus! {

/// A JSON value.
pub enum Json {
    Null,
    Bool(bool),
    /// An integer from zero up to `u64::MAX`.
    Natural(u64),
    /// An integer below zero, from `i64::MIN` up.
    Negative(i64),
    /// Any other number, by the text that it is written with.
    Other(Seq<char>),
    Text(Seq<char>),
    Array(Seq<Json>),
    Object(Map<Seq<char>, Json>),
}

/// `serde_json::Value`: what it holds is [`contents`].
#[verifier::external_type_specification]
#[verifier::external_body]
pub struct ExValue(serde_json::Value);

/// `serde_json::Map`: what it holds is [`entries`].
#[verifier::external_type_specification]
#[verifier::external_body]
#[verifier::reject_recursive_types(K)]
#[verifier::reject_recursive_types(V)]
pub struct ExMap<K, V>(serde_json::Map<K, V>);

/// `serde_json::Error`: why a text could not be read.
#[verifier::external_type_specification]
#[verifier::external_body]
pub struct ExError(serde_json::Error);

/// What a `serde_json::Value` holds.
pub uninterp spec fn contents(v: serde_json::Value) -> Json;

/// What a `serde_json::Map` holds.
pub uninterp spec fn entries(m: serde_json::Map<String, serde_json::Value>) -> Map<Seq<char>, Json>;

/// The value that `serde_json::from_str` reads out of a text; nothing where
/// the text is not JSON.
pub uninterp spec fn json_of(text: Seq<char>) -> Option<Json>;

/// The compact text that `serde_json` writes for a value.
pub uninterp spec fn json_text(j: Json) -> Seq<char>;

/// The contents of a list of values.
pub open spec fn contents_of(s: Seq<serde_json::Value>) -> Seq<Json> {
    s.map_values(|v: serde_json::Value| contents(v))
}

/// The member `key` of an object; nothing where there is none, or where `j` is
/// no object.
pub open spec fn member(j: Json, key: Seq<char>) -> Option<Json> {
    match j {
        Json::Object(m) => if m.contains_key(key) {
            Some(m[key])
        } else {
            None
        },
        _ => None,
    }
}

/// How null, a truth value or an integer is written; nothing for any other
/// value.
pub open spec fn scalar_text(j: Json) -> Option<Seq<char>> {
    match j {
        Json::Null => Some("null"@),
        Json::Bool(true) => Some("true"@),
        Json::Bool(false) => Some("false"@),
        Json::Natural(n) => Some(decimal(n as nat)),
        Json::Negative(n) => Some("-"@ + decimal((0 - n) as nat)),
        _ => None,
    }
}

/// A value without numbers that are no integers, which is at most `depth`
/// arrays and objects deep.
pub open spec fn readable(j: Json, depth: nat) -> bool
    decreases depth,
{
    match j {
        Json::Other(_) => false,
        Json::Array(items) => depth > 0 && forall|i: int|
            0 <= i < items.len() ==> readable(#[trigger] items[i], (depth - 1) as nat),
        Json::Object(m) => depth > 0 && forall|k: Seq<char>| #[trigger]
            m.contains_key(k) ==> readable(m[k], (depth - 1) as nat),
        _ => true,
    }
}

/// `serde_json::from_str` with `Value` as its target: what it reads depends on
/// the text alone.
#[verifier::external_body]
pub(crate) fn parse(text: &str) -> (r: Result<Value, serde_json::Error>)
    ensures
        match r {
            Ok(v) => json_of(text@) == Some(contents(v)),
            Err(_) => json_of(text@) is None,
        },
{
    serde_json::from_str::<Value>(text)
}

/// `Value::to_string`, which writes the value as compact JSON: what it writes
/// depends on the contents alone. Null and truth values are written as words, and
/// integers in decimal notation. There is no space in front, and no JSON begins with
/// `<`. `serde_json::from_str` gives back a value that has integers only and is
/// less deep than its limit of 128. Whether it gives back any other number to the
/// last digit is left unsaid.
#[verifier::external_body]
pub(crate) fn render(v: &Value) -> (r: String)
    ensures
        r@ == json_text(contents(*v)),
        scalar_text(contents(*v)) matches Some(t) ==> r@ == t,
        r@.len() > 0 && !is_space(r@[0]) && r@[0] != '<',
        readable(contents(*v), 127) ==> json_of(r@) == Some(contents(*v)),
{
    v.to_string()
}

/// `Value::get` with a text as its index: the member of that name.
#[verifier::external_body]
pub(crate) fn get<'a>(v: &'a Value, key: &str) -> (r: Option<&'a Value>)
    ensures
        match r {
            Some(x) => member(contents(*v), key@) == Some(contents(*x)),
            None => member(contents(*v), key@) is None,
        },
{
    v.get(key)
}

/// `Value::as_str` gives the text of a string, and nothing for any other value.
pub assume_specification[ Value::as_str ](v: &Value) -> (r: Option<&str>)
    ensures
        match contents(*v) {
            Json::Text(s) => r is Some && r->0@ == s,
            _ => r is None,
        },
;

/// `Value::as_bool` gives the truth value of a boolean, and nothing for any
/// other value.
pub assume_specification[ Value::as_bool ](v: &Value) -> (r: Option<bool>)
    ensures
        match contents(*v) {
            Json::Bool(b) => r == Some(b),
            _ => r is None,
        },
;

/// `Value::as_u64` gives the number where it is an integer that fits, and
/// nothing for any other value.
pub assume_specification[ Value::as_u64 ](v: &Value) -> (r: Option<u64>)
    ensures
        match contents(*v) {
            Json::Natural(n) => r == Some(n),
            _ => r is None,
        },
;

/// `Value::as_array` gives the items of an array, and nothing for any other
/// value.
pub assume_specification[ Value::as_array ](v: &Value) -> (r: Option<&Vec<Value>>)
    ensures
        match contents(*v) {
            Json::Array(s) => r is Some && contents_of(r->0@) == s,
            _ => r is None,
        },
;

/// `Value::as_object` gives the members of an object, and nothing for any
/// other value.
pub assume_specification[ Value::as_object ](v: &Value) -> (r: Option<
    &serde_json::Map<String, Value>,
>)
    ensures
        match contents(*v) {
            Json::Object(m) => r is Some && entries(*r->0) == m,
            _ => r is None,
        },
;

/// The variant `Value::String`.
#[verifier::external_body]
pub(crate) fn text_value(s: String) -> (r: Value)
    ensures
        contents(r) == Json::Text(s@),
{
    Value::String(s)
}

/// The variant `Value::Object`.
#[verifier::external_body]
pub(crate) fn object_value(m: serde_json::Map<String, Value>) -> (r: Value)
    ensures
        contents(r) == Json::Object(entries(m)),
{
    Value::Object(m)
}

/// `Map::new` holds nothing.
pub assume_specification[ serde_json::Map::<String, Value>::new ]() -> (r: serde_json::Map<
    String,
    Value,
>)
    ensures
        (entries(r) == Map::<Seq<char>, Json>::empty()),
;

/// `Map::insert` puts `v` under `k`, and gives what stood there before.
pub assume_specification[ serde_json::Map::<String, Value>::insert ](
    m: &mut serde_json::Map<String, Value>,
    k: String,
    v: Value,
) -> (r: Option<Value>)
    ensures
        entries(*final(m)) == entries(*old(m)).insert(k@, contents(v)),
        match r {
            Some(x) => entries(*old(m)).contains_key(k@) && entries(*old(m))[k@] == contents(x),
            None => !entries(*old(m)).contains_key(k@),
        },
;

/// `Map::remove` takes out what stands under `k`.
#[verifier::external_body]
pub(crate) fn remove(m: &mut serde_json::Map<String, Value>, k: &str) -> (r: Option<Value>)
    ensures
        entries(*final(m)) == entries(*old(m)).remove(k@),
        match r {
            Some(x) => entries(*old(m)).contains_key(k@) && entries(*old(m))[k@] == contents(x),
            None => !entries(*old(m)).contains_key(k@),
        },
{
    m.remove(k)
}

/// The members in the variant `Value::Object`; any other value comes back.
#[verifier::external_body]
pub(crate) fn into_object(v: Value) -> (r: Result<serde_json::Map<String, Value>, Value>)
    ensures
        match r {
            Ok(m) => contents(v) == Json::Object(entries(m)),
            Err(x) => x == v && !(contents(v) is Object),
        },
{
    match v {
        Value::Object(m) => Ok(m),
        other => Err(other),
    }
}

/// `Value::from` a `u32`.
#[verifier::external_body]
pub(crate) fn number_value(n: u32) -> (r: Value)
    ensures
        contents(r) == Json::Natural(n as u64),
{
    Value::from(n)
}

/// The variant `Value::Bool`.
#[verifier::external_body]
pub(crate) fn bool_value(b: bool) -> (r: Value)
    ensures
        contents(r) == Json::Bool(b),
{
    Value::Bool(b)
}

/// The variant `Value::Array`.
#[verifier::external_body]
pub(crate) fn array_value(items: Vec<Value>) -> (r: Value)
    ensures
        contents(r) == Json::Array(contents_of(items@)),
{
    Value::Array(items)
}

/// `a` comes before `b` in the order of texts, which goes by the first
/// character in which they differ.
pub open spec fn before(a: Seq<char>, b: Seq<char>) -> bool
    decreases a.len(),
{
    b.len() > 0 && (a.len() == 0 || (a[0] as u32) < (b[0] as u32) || (a[0] == b[0] && before(
        a.drop_first(),
        b.drop_first(),
    )))
}

/// `l` holds the members of an object, each of them once, ordered by name.
pub open spec fn is_listing(m: Map<Seq<char>, Json>, l: Seq<(Seq<char>, Json)>) -> bool {
    &&& forall|i: int, j: int| 0 <= i < j < l.len() ==> before(#[trigger] l[i].0, #[trigger] l[j].0)
    &&& forall|i: int|
        0 <= i < l.len() ==> m.contains_key((#[trigger] l[i]).0) && m[l[i].0] == l[i].1
    &&& forall|k: Seq<char>| #[trigger]
        m.contains_key(k) ==> exists|i: int| 0 <= i < l.len() && (#[trigger] l[i]).0 == k
}

/// The members of an object, ordered by name.
pub open spec fn listing(m: Map<Seq<char>, Json>) -> Seq<(Seq<char>, Json)> {
    choose|l: Seq<(Seq<char>, Json)>| is_listing(m, l)
}

/// The contents of a list of members.
pub open spec fn member_views(s: Seq<(&String, &Value)>) -> Seq<(Seq<char>, Json)> {
    s.map_values(|e: (&String, &Value)| (e.0@, contents(*e.1)))
}

/// `Map::iter` goes through the members in the order of their names.
#[verifier::external_body]
pub(crate) fn members<'a>(m: &'a serde_json::Map<String, Value>) -> (r: Vec<
    (&'a String, &'a Value),
>)
    ensures
        is_listing(entries(*m), member_views(r@)),
{
    m.iter().collect()
}

/// Of two texts only one comes before the other.
proof fn lemma_before_asymmetric(a: Seq<char>, b: Seq<char>)
    ensures
        !(before(a, b) && before(b, a)),
    decreases a.len(),
{
    if a.len() > 0 && b.len() > 0 {
        lemma_before_asymmetric(a.drop_first(), b.drop_first());
    }
}

/// An object has one listing.
pub proof fn lemma_listing_unique(
    m: Map<Seq<char>, Json>,
    a: Seq<(Seq<char>, Json)>,
    b: Seq<(Seq<char>, Json)>,
)
    requires
        is_listing(m, a),
        is_listing(m, b),
    ensures
        a == b,
    decreases a.len(),
{
    if a.len() == 0 {
        if b.len() > 0 {
            assert(m.contains_key(b[0].0));
        }
        assert(a =~= b);
    } else {
        let x = a.last();
        assert(a[a.len() - 1] == x);
        assert(m.contains_key(x.0));
        let i = choose|i: int| 0 <= i < b.len() && (#[trigger] b[i]).0 == x.0;
        let y = b.last();
        assert(b[b.len() - 1] == y);
        if i != b.len() - 1 {
            assert(before(b[i].0, b[b.len() - 1].0));
            assert(m.contains_key(y.0));
            let j = choose|j: int| 0 <= j < a.len() && (#[trigger] a[j]).0 == y.0;
            if j != a.len() - 1 {
                assert(before(a[j].0, a[a.len() - 1].0));
            }
            lemma_before_asymmetric(x.0, y.0);
        }
        assert(x == y);
        let rest = m.remove(x.0);
        lemma_listing_front(m, a);
        lemma_listing_front(m, b);
        lemma_listing_unique(rest, a.drop_last(), b.drop_last());
        assert(a =~= a.drop_last().push(x));
        assert(b =~= b.drop_last().push(y));
    }
}

/// Without its last member a listing lists the others.
pub proof fn lemma_listing_front(m: Map<Seq<char>, Json>, l: Seq<(Seq<char>, Json)>)
    requires
        is_listing(m, l),
        l.len() > 0,
    ensures
        is_listing(m.remove(l.last().0), l.drop_last()),
{
    let k = l.last().0;
    let rest = m.remove(k);
    let front = l.drop_last();
    assert forall|i: int| 0 <= i < front.len() implies rest.contains_key((#[trigger] front[i]).0)
        && rest[front[i].0] == front[i].1 by {
        assert(front[i] == l[i]);
        assert(before(l[i].0, l[l.len() - 1].0));
        lemma_before_asymmetric(l[i].0, k);
    }
    assert forall|i: int, j: int| 0 <= i < j < front.len() implies before(
        #[trigger] front[i].0,
        #[trigger] front[j].0,
    ) by {
        assert(before(l[i].0, l[j].0));
    }
    assert forall|n: Seq<char>| #[trigger] rest.contains_key(n) implies exists|i: int|
        0 <= i < front.len() && (#[trigger] front[i]).0 == n by {
        assert(m.contains_key(n));
        let i = choose|i: int| 0 <= i < l.len() && (#[trigger] l[i]).0 == n;
        assert(front[i].0 == n);
    }
}

} // verus!
