//! JSON, one level at a time: what lies inside an array or an object stays JSON
//! text until it is looked at.

use vstd::prelude::*;

use crate::text;

verus! {

/// A JSON value whose members are JSON texts.
pub enum Json {
    Null,
    Bool(bool),
    /// A number; None if it is no integer that fits.
    Number(Option<i64>),
    Str(String),
    Array(Vec<String>),
    Object(Vec<(String, String)>),
}

/// A [`Json`] with its texts.
pub enum JsonView {
    Null,
    Bool(bool),
    Number(Option<i64>),
    Str(Seq<char>),
    Array(Seq<Seq<char>>),
    Object(Seq<(Seq<char>, Seq<char>)>),
}

/// The members in `v`.
pub open spec fn members(v: Seq<(String, String)>) -> Seq<(Seq<char>, Seq<char>)> {
    Seq::new(v.len(), |i: int| (v[i].0@, v[i].1@))
}

impl View for Json {
    type V = JsonView;

    open spec fn view(&self) -> JsonView {
        match self {
            Json::Null => JsonView::Null,
            Json::Bool(b) => JsonView::Bool(*b),
            Json::Number(n) => JsonView::Number(*n),
            Json::Str(s) => JsonView::Str(s@),
            Json::Array(v) => JsonView::Array(text::strings(v@)),
            Json::Object(v) => JsonView::Object(members(v@)),
        }
    }
}

/// The value in `o`, if there is one.
pub open spec fn value(o: Option<Json>) -> Option<JsonView> {
    match o {
        Some(j) => Some(j@),
        None => None,
    }
}

/// The value that a JSON text writes; None if it is not JSON.
pub uninterp spec fn parsed(t: Seq<char>) -> Option<JsonView>;

/// The value that the JSON text `t` writes, through `serde_json::from_str`,
/// with `serde_json::Value`'s compact text for what an array or an object
/// holds and `Number::as_i64` for a number. Claimed of it: that the value, and
/// whether there is one, depends on the text alone.
#[verifier::external_body]
pub(crate) fn parse(t: &str) -> (r: Option<Json>)
    ensures
        value(r) == parsed(t@),
{
    Some(match serde_json::from_str::<serde_json::Value>(t).ok()? {
        serde_json::Value::Null => Json::Null,
        serde_json::Value::Bool(b) => Json::Bool(b),
        serde_json::Value::Number(n) => Json::Number(n.as_i64()),
        serde_json::Value::String(s) => Json::Str(s),
        serde_json::Value::Array(v) => Json::Array(v.iter().map(|x| x.to_string()).collect()),
        serde_json::Value::Object(m) => {
            Json::Object(m.iter().map(|(k, x)| (k.clone(), x.to_string())).collect())
        }
    })
}

/// The first of the members `ms` called `key`.
pub open spec fn member(ms: Seq<(Seq<char>, Seq<char>)>, key: Seq<char>) -> Option<Seq<char>>
    decreases ms.len(),
{
    if ms.len() == 0 {
        None
    } else if ms[0].0 == key {
        Some(ms[0].1)
    } else {
        member(ms.skip(1), key)
    }
}

/// What the value `j` holds under `key`, as JSON text; None where it is no
/// object or has no such member.
pub open spec fn field(j: JsonView, key: Seq<char>) -> Option<Seq<char>> {
    match j {
        JsonView::Object(ms) => member(ms, key),
        _ => None,
    }
}

/// What the value `j` holds under `key`.
pub fn field_of(j: &Json, key: &str) -> (r: Option<String>)
    ensures
        text::opt(r) == field(j@, key@),
{
    let ms = match j {
        Json::Object(ms) => ms,
        _ => {
            return None;
        },
    };
    let ghost all = members(ms@);
    let mut i: usize = 0;
    proof { assert(all.skip(0) == all); }
    while i < ms.len()
        invariant
            i <= ms.len(),
            all == members(ms@),
            member(all.skip(i as int), key@) == member(all, key@),
            j@ == JsonView::Object(all),
        decreases ms.len() - i,
    {
        if text::same_text(ms[i].0.as_str(), key) {
            return Some(ms[i].1.clone());
        }
        proof { assert(all.skip(i as int).skip(1) == all.skip(i + 1)); }
        i += 1;
    }
    None
}

/// What the JSON text `t` writes, if there is one.
pub open spec fn parsed_if(t: Option<Seq<char>>) -> Option<JsonView> {
    match t {
        Some(t) => parsed(t),
        None => None,
    }
}

/// What the JSON text `t` writes, if there is one.
pub fn parse_if(t: Option<String>) -> (r: Option<Json>)
    ensures
        value(r) == parsed_if(text::opt(t)),
{
    match t {
        Some(t) => parse(t.as_str()),
        None => None,
    }
}

} // verus!
