//! JSON documents: building them, writing them, and reading them back.

use vstd::prelude::*;

use crate::text;

verus! {

/// A JSON document.
pub enum Json {
    Null,
    Bool(bool),
    /// A number, by the digits it is written with.
    Num(Seq<char>),
    Str(Seq<char>),
    Arr(Seq<Json>),
    Obj(Map<Seq<char>, Json>),
}

#[verifier::external_type_specification]
#[verifier::external_body]
pub struct ExValue(serde_json::Value);

#[verifier::external_type_specification]
#[verifier::external_body]
pub struct ExError(serde_json::Error);

/// The document a `serde_json::Value` holds.
pub uninterp spec fn meaning(v: serde_json::Value) -> Json;

/// The text that `serde_json::to_string_pretty` writes for a document.
pub uninterp spec fn pretty(doc: Json) -> Seq<char>;

/// The bytes that `serde_json::to_vec` writes for a document.
pub uninterp spec fn compact(doc: Json) -> Seq<u8>;

/// The document that `serde_json::from_str` reads from a text, if it reads
/// one.
pub uninterp spec fn parsed(text: Seq<char>) -> Option<Json>;

/// The documents of a list of values.
pub open spec fn meanings(list: Seq<serde_json::Value>) -> Seq<Json> {
    list.map_values(|v: serde_json::Value| meaning(v))
}

/// An object without members.
pub open spec fn empty_object() -> Json {
    Json::Obj(Map::empty())
}

impl Json {
    /// An object with a member set.
    pub open spec fn with(self, key: Seq<char>, value: Json) -> Json {
        match self {
            Json::Obj(members) => Json::Obj(members.insert(key, value)),
            other => other,
        }
    }

    /// A member of an object, if there is one.
    pub open spec fn member(self, key: Seq<char>) -> Option<Json> {
        match self {
            Json::Obj(members) => if members.dom().contains(key) {
                Some(members[key])
            } else {
                None
            },
            _ => None,
        }
    }

    /// Whether a document is nested no deeper than `n` levels, and holds no
    /// number but an unsigned one of 64 bits.
    pub open spec fn shallow(self, n: nat) -> bool
        decreases n,
    {
        match self {
            Json::Num(digits) => exists|k: u64| digits == #[trigger] text::decimal(k as nat),
            Json::Arr(items) => n > 0 && forall|i: int|
                0 <= i < items.len() ==> (#[trigger] items[i]).shallow((n - 1) as nat),
            Json::Obj(members) => n > 0 && forall|key: Seq<char>|
                members.dom().contains(key) ==> (#[trigger] members[key]).shallow((n - 1) as nat),
            _ => true,
        }
    }
}

/// A number as a document.
pub open spec fn counted(n: nat) -> Json {
    Json::Num(text::decimal(n))
}

/// A list of texts as a document.
pub open spec fn listed(items: Seq<Seq<char>>) -> Json {
    Json::Arr(items.map_values(|s: Seq<char>| Json::Str(s)))
}

/// An optional text as a document.
pub open spec fn optional(s: Option<Seq<char>>) -> Json {
    match s {
        Some(t) => Json::Str(t),
        None => Json::Null,
    }
}

/// `serde_json::Value::Null` is the null document.
#[verifier::external_body]
pub(crate) fn null() -> (r: serde_json::Value)
    ensures
        meaning(r) == Json::Null,
{
    serde_json::Value::Null
}

/// `serde_json::Value::Bool` is a boolean.
#[verifier::external_body]
pub(crate) fn flag(b: bool) -> (r: serde_json::Value)
    ensures
        meaning(r) == Json::Bool(b),
{
    serde_json::Value::Bool(b)
}

/// `serde_json::Value::from` makes a number of a `u64`, which is written in
/// base ten.
#[verifier::external_body]
pub(crate) fn number(n: u64) -> (r: serde_json::Value)
    ensures
        meaning(r) == counted(n as nat),
{
    serde_json::Value::from(n)
}

/// `serde_json::Value::String` is a string.
#[verifier::external_body]
pub(crate) fn string(s: String) -> (r: serde_json::Value)
    ensures
        meaning(r) == Json::Str(s@),
{
    serde_json::Value::String(s)
}

/// `serde_json::Value::Array` is a list of its values, in order.
#[verifier::external_body]
pub(crate) fn array(items: Vec<serde_json::Value>) -> (r: serde_json::Value)
    ensures
        meaning(r) == Json::Arr(meanings(items@)),
{
    serde_json::Value::Array(items)
}

/// `serde_json::Map::new` is an object without members.
#[verifier::external_body]
pub(crate) fn object() -> (r: serde_json::Value)
    ensures
        meaning(r) == empty_object(),
{
    serde_json::Value::Object(serde_json::Map::new())
}

/// Assigning to an index of a `serde_json::Value` that is an object sets a
/// member.
#[verifier::external_body]
pub(crate) fn put(doc: &mut serde_json::Value, key: &str, value: serde_json::Value)
    requires
        meaning(*old(doc)) is Obj,
    ensures
        meaning(*final(doc)) == meaning(*old(doc)).with(key@, meaning(value)),
{
    doc[key] = value;
}

/// `serde_json::Value::get` gives the member of an object, and nothing of
/// anything else.
#[verifier::external_body]
pub(crate) fn get<'a>(doc: &'a serde_json::Value, key: &str) -> (r: Option<&'a serde_json::Value>)
    ensures
        match r {
            Some(value) => meaning(*doc).member(key@) == Some(meaning(*value)),
            None => meaning(*doc).member(key@) is None,
        },
{
    doc.get(key)
}

/// `serde_json::Value::as_str` gives the text of a string, and nothing of
/// anything else.
pub assume_specification[ serde_json::Value::as_str ](v: &serde_json::Value) -> (r: Option<&str>)
    ensures
        match r {
            Some(s) => meaning(*v) == Json::Str(s@),
            None => !(meaning(*v) is Str),
        },
;

/// `serde_json::Value::as_bool` gives the value of a boolean, and nothing of
/// anything else.
pub assume_specification[ serde_json::Value::as_bool ](v: &serde_json::Value) -> (r: Option<bool>)
    ensures
        match r {
            Some(b) => meaning(*v) == Json::Bool(b),
            None => !(meaning(*v) is Bool),
        },
;

/// `serde_json::Value::as_u64` gives the value of a number that is an
/// unsigned one of 64 bits, and nothing of anything else.
pub assume_specification[ serde_json::Value::as_u64 ](v: &serde_json::Value) -> (r: Option<u64>)
    ensures
        match r {
            Some(n) => meaning(*v) == counted(n as nat),
            None => forall|n: u64| meaning(*v) != #[trigger] counted(n as nat),
        },
;

/// `serde_json::Value::as_array` gives the values of a list, in order, and
/// nothing of anything else.
pub assume_specification[ serde_json::Value::as_array ](v: &serde_json::Value) -> (r: Option<
    &Vec<serde_json::Value>,
>)
    ensures
        match r {
            Some(items) => meaning(*v) == Json::Arr(meanings(items@)),
            None => !(meaning(*v) is Arr),
        },
;

/// `serde_json::to_string_pretty` writes a document, which never fails of a
/// `Value`. Members of an object stand in the order of their names, so the
/// text depends on the document alone. What it wrote, with a line feed after
/// it, `serde_json::from_str` reads back, as long as it is nested less deep
/// than that function goes and its numbers are exact.
#[verifier::external_body]
pub(crate) fn write(doc: &serde_json::Value) -> (r: Result<String, serde_json::Error>)
    ensures
        r is Ok,
        r->Ok_0@ == pretty(meaning(*doc)),
        meaning(*doc).shallow(100) ==> parsed(r->Ok_0@ + "\n"@) == Some(meaning(*doc)),
{
    serde_json::to_string_pretty(doc)
}

/// `serde_json::to_vec` writes a document on one line, which never fails of a
/// `Value`. Members of an object stand in the order of their names, so the
/// bytes depend on the document alone.
#[verifier::external_body]
pub(crate) fn pack(doc: &serde_json::Value) -> (r: Result<Vec<u8>, serde_json::Error>)
    ensures
        r is Ok,
        r->Ok_0@ == compact(meaning(*doc)),
{
    serde_json::to_vec(doc)
}

/// `serde_json::from_str` reads a document from a text, or says why there is
/// none. Nothing is claimed of what it says.
#[verifier::external_body]
pub(crate) fn read(text: &str) -> (r: Result<serde_json::Value, String>)
    ensures
        match r {
            Ok(doc) => parsed(text@) == Some(meaning(doc)),
            Err(_) => parsed(text@) is None,
        },
{
    serde_json::from_str(text).map_err(|e| e.to_string())
}

/// A text as a document.
pub fn words(s: &str) -> (r: serde_json::Value)
    ensures
        meaning(r) == Json::Str(s@),
{
    string(s.to_owned())
}

/// A list of texts as a document.
pub fn list(items: &Vec<String>) -> (r: serde_json::Value)
    ensures
        meaning(r) == listed(text::texts(items@)),
{
    let mut out: Vec<serde_json::Value> = Vec::new();
    let mut i: usize = 0;
    while i < items.len()
        invariant
            i <= items@.len(),
            out@.len() == i,
            forall|k: int| 0 <= k < i ==> meaning(#[trigger] out@[k]) == Json::Str(items@[k]@),
        decreases items.len() - i,
    {
        out.push(string(items[i].clone()));
        i += 1;
    }
    assert(meanings(out@) =~= text::texts(items@).map_values(|s: Seq<char>| Json::Str(s)));
    array(out)
}

/// An optional text as a document.
pub fn maybe(s: &Option<String>) -> (r: serde_json::Value)
    ensures
        meaning(r) == optional(crate::model::text_view(*s)),
{
    match s {
        Some(t) => string(t.clone()),
        None => null(),
    }
}

} // verus!
