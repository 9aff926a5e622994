//! Json values, as far as the runtime looks into them.
//!
//! serde_json does the parsing. A parsed value is looked at through a handful of accessors, and what
//! they say is stated over the value as a tree.

use crate::text::decimal;
use vstd::prelude::*;

verus! {

/// A json value. A number is kept where it is a whole one, and as it is printed.
pub ghost enum Json {
    Null,
    Bool(bool),
    Number(Option<int>, Seq<char>),
    Text(Seq<char>),
    Array(Seq<Json>),
    Object(Map<Seq<char>, Json>),
}

impl Json {
    /// The value of a key, where this is an object that has it.
    pub open spec fn at(self, key: Seq<char>) -> Option<Json> {
        match self {
            Json::Object(m) => if m.contains_key(key) {
                Some(m[key])
            } else {
                None
            },
            _ => None,
        }
    }

    /// The text, where this is text.
    pub open spec fn text(self) -> Option<Seq<char>> {
        match self {
            Json::Text(s) => Some(s),
            _ => None,
        }
    }

    /// The whole number, where this is one without a sign that fits in 64 bits.
    pub open spec fn whole(self) -> Option<u64> {
        match self {
            Json::Number(Some(n), _) => if 0 <= n <= u64::MAX {
                Some(n as u64)
            } else {
                None
            },
            _ => None,
        }
    }

    /// The items, where this is an array.
    pub open spec fn items(self) -> Option<Seq<Json>> {
        match self {
            Json::Array(s) => Some(s),
            _ => None,
        }
    }
}

/// A number in decimal, behind a sign where it is below zero.
pub open spec fn signed(n: int) -> Seq<char> {
    if n < 0 {
        "-"@ + decimal((-n) as nat)
    } else {
        decimal(n as nat)
    }
}

/// A whole number.
pub open spec fn number(n: int) -> Json {
    Json::Number(Some(n), signed(n))
}

/// The text under a key.
pub open spec fn text_at(v: Option<Json>, key: Seq<char>) -> Option<Seq<char>> {
    match at_key(v, key) {
        Some(x) => x.text(),
        None => None,
    }
}

/// The value under a key of a value that may not be there.
pub open spec fn at_key(v: Option<Json>, key: Seq<char>) -> Option<Json> {
    match v {
        Some(x) => x.at(key),
        None => None,
    }
}

/// `serde_json::Value`, a parsed json value.
#[verifier::external_type_specification]
#[verifier::external_body]
pub struct ExValue(serde_json::Value);

/// What a parsed value holds.
pub uninterp spec fn held(v: serde_json::Value) -> Json;

/// The value that a text writes, or what the parser says against it.
pub uninterp spec fn reading(text: Seq<char>) -> Result<Json, Seq<char>>;

/// The value that a text writes, where it writes one.
pub open spec fn json_of(text: Seq<char>) -> Option<Json> {
    match reading(text) {
        Ok(j) => Some(j),
        Err(_) => None,
    }
}

/// `serde_json::from_str` into a `Value`, the error as its text: the result is a function of the
/// text. Which texts are json, what they write, and how an error reads, is left to the parser.
#[verifier::external_body]
pub(crate) fn read(text: &str) -> (r: Result<serde_json::Value, String>)
    ensures
        match r {
            Ok(v) => reading(text@) == Ok::<Json, Seq<char>>(held(v)),
            Err(e) => reading(text@) == Err::<Json, Seq<char>>(e@),
        },
{
    serde_json::from_str(text).map_err(|e| e.to_string())
}

/// The value that a text writes.
pub(crate) fn parse(text: &str) -> (r: Option<serde_json::Value>)
    ensures
        match r {
            Some(v) => json_of(text@) == Some(held(v)),
            None => json_of(text@) is None,
        },
{
    match read(text) {
        Ok(v) => Some(v),
        Err(_) => None,
    }
}

/// `Value::get` with a string key: the value of the key, where the value is an object that has it.
#[verifier::external_body]
pub(crate) fn get<'a>(v: &'a serde_json::Value, key: &str) -> (r: Option<&'a serde_json::Value>)
    ensures
        match r {
            Some(x) => held(*v).at(key@) == Some(held(*x)),
            None => held(*v).at(key@) is None,
        },
{
    v.get(key)
}

/// `Value::as_str`: the text, where the value is text.
#[verifier::external_body]
pub(crate) fn as_text(v: &serde_json::Value) -> (r: Option<&str>)
    ensures
        match r {
            Some(s) => held(*v).text() == Some(s@),
            None => held(*v).text() is None,
        },
{
    v.as_str()
}

/// `Value::is_null`: is the value null?
#[verifier::external_body]
pub(crate) fn is_null(v: &serde_json::Value) -> (r: bool)
    ensures
        r == (held(*v) is Null),
{
    v.is_null()
}

/// `Value::as_u64`: the number, where the value is a whole number without a sign that fits.
#[verifier::external_body]
pub(crate) fn as_whole(v: &serde_json::Value) -> (r: Option<u64>)
    ensures
        r == held(*v).whole(),
{
    v.as_u64()
}

/// `Value::as_array`: the items, where the value is an array.
#[verifier::external_body]
pub(crate) fn as_items(v: &serde_json::Value) -> (r: Option<&Vec<serde_json::Value>>)
    ensures
        match r {
            Some(items) => held(*v).items() == Some(
                items@.map_values(|x: serde_json::Value| held(x)),
            ),
            None => held(*v).items() is None,
        },
{
    v.as_array()
}

/// `Value::as_object` and `Map::iter`: the fields, where the value is an object, each of its names
/// once. In which order they come is left open.
#[verifier::external_body]
pub(crate) fn as_fields(v: &serde_json::Value) -> (r: Option<Vec<(String, serde_json::Value)>>)
    ensures
        match r {
            Some(f) => {
                &&& held(*v) == Json::Object(object_of(fields(f@)))
                &&& field_names(fields(f@)).no_duplicates()
            },
            None => !(held(*v) is Object),
        },
{
    v.as_object().map(|m| m.iter().map(|e| (e.0.clone(), e.1.clone())).collect())
}

/// How a value is printed where it is null, a truth value or a number.
pub open spec fn scalar_text(j: Json) -> Option<Seq<char>> {
    match j {
        Json::Null => Some("null"@),
        Json::Bool(b) => Some(if b { "true"@ } else { "false"@ }),
        Json::Number(_, t) => Some(t),
        _ => None,
    }
}

/// Is this a value without fractions, at most so many levels deep?
pub open spec fn nests(j: Json, levels: nat) -> bool
    decreases levels,
{
    match j {
        Json::Null => true,
        Json::Bool(_) => true,
        Json::Text(_) => true,
        Json::Number(n, _) => n is Some,
        Json::Array(v) => levels > 0 && forall|i: int|
            0 <= i < v.len() ==> nests(#[trigger] v[i], (levels - 1) as nat),
        Json::Object(m) => levels > 0 && forall|k: Seq<char>|
            m.contains_key(k) ==> nests(#[trigger] m[k], (levels - 1) as nat),
    }
}

/// How a value is printed, in its compact form.
pub uninterp spec fn printed(j: Json) -> Seq<char>;

/// `Value::to_string`: what is printed is a function of what the value holds. Null, a truth value
/// and a number are printed as stated, and reading what is printed gives the value back where it
/// has no fractions and is not too deep for the parser. An object holds its fields in a map sorted
/// by name, serde_json's map where `preserve_order` is not asked for, so they are printed in that
/// order whichever way they came in. How a text, an array or an object is spelled is left to
/// serde_json.
#[verifier::external_body]
pub(crate) fn print(v: &serde_json::Value) -> (r: String)
    ensures
        r@ == printed(held(*v)),
        scalar_text(held(*v)) matches Some(t) ==> r@ == t,
        nests(held(*v), 100) ==> json_of(r@) == Some(held(*v)),
{
    v.to_string()
}

/// `Value::from` on a text.
#[verifier::external_body]
pub(crate) fn text_value(s: &str) -> (r: serde_json::Value)
    ensures
        held(r) == Json::Text(s@),
{
    serde_json::Value::from(s)
}

/// `Value::from` on a number.
#[verifier::external_body]
pub(crate) fn whole_value(n: u64) -> (r: serde_json::Value)
    ensures
        held(r) == number(n as int),
{
    serde_json::Value::from(n)
}

/// `Value::from` on a run of texts.
#[verifier::external_body]
pub(crate) fn list_value(v: &Vec<String>) -> (r: serde_json::Value)
    ensures
        held(r) == list_of(crate::text::texts(v@)),
{
    serde_json::Value::from(v.clone())
}

/// `Value::from` on a truth value.
#[verifier::external_body]
pub(crate) fn bool_value(b: bool) -> (r: serde_json::Value)
    ensures
        held(r) == Json::Bool(b),
{
    serde_json::Value::from(b)
}

/// `Value::from` on a number with a sign.
#[verifier::external_body]
pub(crate) fn signed_value(n: i64) -> (r: serde_json::Value)
    ensures
        held(r) == number(n as int),
{
    serde_json::Value::from(n)
}

/// `Value::from` on a run of values.
#[verifier::external_body]
pub(crate) fn array_value(v: Vec<serde_json::Value>) -> (r: serde_json::Value)
    ensures
        held(r) == Json::Array(v@.map_values(|x: serde_json::Value| held(x))),
{
    serde_json::Value::from(v)
}

/// `Value::from_iter` on a run of fields: the object with these fields, the later one where a name
/// comes twice.
#[verifier::external_body]
pub(crate) fn object_value(v: Vec<(String, serde_json::Value)>) -> (r: serde_json::Value)
    ensures
        held(r) == Json::Object(object_of(fields(v@))),
{
    serde_json::Value::from_iter(v)
}

/// `Value::default`: null.
#[verifier::external_body]
pub(crate) fn null_value() -> (r: serde_json::Value)
    ensures
        held(r) == Json::Null,
{
    serde_json::Value::default()
}

/// `Value::clone`.
#[verifier::external_body]
pub(crate) fn copy_value(v: &serde_json::Value) -> (r: serde_json::Value)
    ensures
        held(r) == held(*v),
{
    v.clone()
}

/// A run of texts as a json array.
pub open spec fn list_of(v: Seq<Seq<char>>) -> Json {
    Json::Array(v.map_values(|s: Seq<char>| Json::Text(s)))
}

/// The fields of an object, in the order in which they are written.
pub open spec fn fields(v: Seq<(String, serde_json::Value)>) -> Seq<(Seq<char>, Json)> {
    v.map_values(|e: (String, serde_json::Value)| (e.0@, held(e.1)))
}

/// The names of some fields.
pub open spec fn field_names(f: Seq<(Seq<char>, Json)>) -> Seq<Seq<char>> {
    f.map_values(|e: (Seq<char>, Json)| e.0)
}

/// The object that some fields make.
pub open spec fn object_of(f: Seq<(Seq<char>, Json)>) -> Map<Seq<char>, Json>
    decreases f.len(),
{
    if f.len() == 0 {
        Map::empty()
    } else {
        object_of(f.drop_last()).insert(f.last().0, f.last().1)
    }
}

/// The object that fields with different names make has each of them, and nothing else.
pub proof fn lemma_object_of(f: Seq<(Seq<char>, Json)>)
    requires
        field_names(f).no_duplicates(),
    ensures
        forall|i: int|
            0 <= i < f.len() ==> object_of(f).contains_key((#[trigger] f[i]).0)
                && object_of(f)[f[i].0] == f[i].1,
        forall|k: Seq<char>| #[trigger]
            object_of(f).contains_key(k) ==> exists|i: int|
                0 <= i < f.len() && (#[trigger] f[i]).0 == k,
    decreases f.len(),
{
    if f.len() > 0 {
        let g = f.drop_last();
        let n = field_names(f);
        assert(field_names(g) =~= n.drop_last());
        assert(field_names(g).no_duplicates());
        lemma_object_of(g);
        assert(object_of(f) == object_of(g).insert(f.last().0, f.last().1));
        assert forall|i: int| 0 <= i < f.len() implies object_of(f).contains_key(
            (#[trigger] f[i]).0,
        ) && object_of(f)[f[i].0] == f[i].1 by {
            if i < f.len() - 1 {
                assert(g[i] == f[i]);
                assert(n[i] != n[f.len() - 1]);
                assert(n[i] == f[i].0 && n[f.len() - 1] == f.last().0);
            }
        }
        assert forall|k: Seq<char>| #[trigger] object_of(f).contains_key(k) implies exists|i: int|
            0 <= i < f.len() && (#[trigger] f[i]).0 == k by {
            if k == f.last().0 {
                assert(f[f.len() - 1].0 == k);
            } else {
                assert(object_of(g).contains_key(k));
                let i = choose|i: int| 0 <= i < g.len() && (#[trigger] g[i]).0 == k;
                assert(f[i].0 == k);
            }
        }
    }
}

/// Is this a text, a whole number, or a run of texts?
pub open spec fn plain(j: Json) -> bool {
    match j {
        Json::Text(s) => true,
        Json::Number(n, _) => n matches Some(k) && 0 <= k <= u64::MAX,
        Json::Array(v) => forall|i: int| 0 <= i < v.len() ==> (#[trigger] v[i]) is Text,
        _ => false,
    }
}

/// The text of an object with these fields.
pub uninterp spec fn written(f: Seq<(Seq<char>, Json)>) -> Seq<char>;

/// serde's `Serializer::collect_map` on a `serde_json::Serializer`: writes an object, its fields in
/// the order in which they come. For fields with different names, and values that are texts, whole
/// numbers and runs of texts, the text is a function of them, and reading it gives them back.
#[verifier::external_body]
pub(crate) fn write_object(v: &Vec<(String, serde_json::Value)>) -> (r: String)
    requires
        field_names(fields(v@)).no_duplicates(),
        forall|i: int| 0 <= i < v@.len() ==> plain((#[trigger] fields(v@)[i]).1),
    ensures
        r@ == written(fields(v@)),
        json_of(r@) == Some(Json::Object(object_of(fields(v@)))),
{
    let mut out: Vec<u8> = Vec::new();
    let mut ser = serde_json::Serializer::new(&mut out);
    serde::Serializer::collect_map(&mut ser, v.iter().map(|e| (&e.0, &e.1)))
        .expect("an object of plain values is written");
    String::from_utf8(out).expect("json is text")
}

/// The compact form of the value that a text writes.
pub open spec fn compacted(text: Seq<char>) -> Option<Seq<char>> {
    match json_of(text) {
        Some(j) => Some(printed(j)),
        None => None,
    }
}

/// The compact form of the value that a text writes.
pub(crate) fn compact(text: &str) -> (r: Option<String>)
    ensures
        match r {
            Some(t) => compacted(text@) == Some(t@),
            None => compacted(text@) is None,
        },
{
    match parse(text) {
        Some(v) => Some(print(&v)),
        None => None,
    }
}

/// The text under a key.
pub(crate) fn text_of_key<'a>(v: &'a serde_json::Value, key: &str) -> (r: Option<&'a str>)
    ensures
        match r {
            Some(s) => text_at(Some(held(*v)), key@) == Some(s@),
            None => text_at(Some(held(*v)), key@) is None,
        },
{
    match get(v, key) {
        Some(x) => as_text(x),
        None => None,
    }
}

} // verus!
