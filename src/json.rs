//! The JSON documents the store reads and writes, seen through a model.
//!
//! Parsing and rendering are done by serde_json; this module states what
//! the library relies on about them.
use vstd::prelude::*;

verus! {

/// The shape of a JSON value. Numbers are never read by the store, so the
/// model keeps only that a value is a number.
pub enum JsonView {
    Null,
    Bool(bool),
    Number,
    Str(Seq<char>),
    Array(Seq<JsonView>),
    Object(Map<Seq<char>, JsonView>),
}

/// Whether no chain of nested arrays and objects in `j` is deeper than `n`.
pub open spec fn depth_at_most(j: JsonView, n: nat) -> bool
    decreases n,
{
    n > 0 && match j {
        JsonView::Array(items) => forall|i: int|
            0 <= i < items.len() ==> depth_at_most(#[trigger] items[i], (n - 1) as nat),
        JsonView::Object(fields) => forall|k: Seq<char>|
            fields.contains_key(k) ==> depth_at_most(#[trigger] fields[k], (n - 1) as nat),
        _ => true,
    }
}

/// The nesting depth up to which a rendered document is read back unchanged.
pub open spec fn parse_depth_limit() -> nat {
    100
}

/// The object whose fields are `fields`, a later field replacing an earlier
/// one with the same key.
pub open spec fn fields_map(fields: Seq<(Seq<char>, JsonView)>) -> Map<Seq<char>, JsonView>
    decreases fields.len(),
{
    if fields.len() == 0 {
        Map::empty()
    } else {
        let last = fields.last();
        fields_map(fields.drop_last()).insert(last.0, last.1)
    }
}

#[verifier::external_type_specification]
#[verifier::external_body]
pub struct ExValue(serde_json::Value);

/// What a `serde_json::Value` holds, as a `JsonView`.
pub uninterp spec fn json_model(v: serde_json::Value) -> JsonView;

/// What each of `vs` holds, in order.
pub open spec fn json_models(vs: Seq<serde_json::Value>) -> Seq<JsonView> {
    vs.map_values(|x: serde_json::Value| json_model(x))
}

/// The document that serde_json reads from a text, or `None` where the text
/// is no JSON document.
pub uninterp spec fn parsed_json(text: Seq<char>) -> Option<JsonView>;

/// Relies on `serde_json::from_str::<Value>`: whether it reads a value from
/// `text`, and which, depends on the text alone.
#[verifier::external_body]
pub(crate) fn parse_json(text: &str) -> (r: Option<serde_json::Value>)
    ensures
        match r {
            Some(v) => parsed_json(text@) == Some(json_model(v)),
            None => parsed_json(text@) is None,
        },
{
    serde_json::from_str::<serde_json::Value>(text).ok()
}

/// Relies on `serde_json::to_string_pretty` on a `Value`: it cannot fail (a
/// `Value` has only string keys and its serialisation never errs), and
/// serde_json reads the text it writes back as the same value, for values
/// nested less deeply than its parser's recursion limit.
#[verifier::external_body]
pub(crate) fn render_json(v: &serde_json::Value) -> (r: String)
    ensures
        depth_at_most(json_model(*v), parse_depth_limit()) ==> parsed_json(r@) == Some(
            json_model(*v),
        ),
{
    serde_json::to_string_pretty(v).unwrap_or_default()
}

/// Relies on `serde_json::Value::String`: a JSON string holding `s`.
#[verifier::external_body]
pub(crate) fn json_str(s: String) -> (r: serde_json::Value)
    ensures
        json_model(r) == JsonView::Str(s@),
{
    serde_json::Value::String(s)
}

/// Relies on `serde_json::Value::Array`: a JSON array of `items`, in order.
#[verifier::external_body]
pub(crate) fn json_array(items: Vec<serde_json::Value>) -> (r: serde_json::Value)
    ensures
        json_model(r) == JsonView::Array(json_models(items@)),
{
    serde_json::Value::Array(items)
}

/// Relies on `serde_json::Map`'s `FromIterator`: an object of the given
/// fields, whose keys are distinct.
#[verifier::external_body]
pub(crate) fn json_object(fields: Vec<(String, serde_json::Value)>) -> (r: serde_json::Value)
    requires
        forall|i: int, j: int|
            0 <= i < j < fields@.len() ==> fields@[i].0@ != fields@[j].0@,
    ensures
        json_model(r) == JsonView::Object(
            fields_map(fields@.map_values(|f: (String, serde_json::Value)| (f.0@, json_model(f.1)))),
        ),
{
    serde_json::Value::Object(fields.into_iter().collect())
}

/// Relies on `serde_json::Value::get` with a string key: the field `key`
/// of an object, and `None` for a missing field or a value of another kind.
#[verifier::external_body]
pub(crate) fn json_field<'a>(v: &'a serde_json::Value, key: &str) -> (r: Option<&'a serde_json::Value>)
    ensures
        match json_model(*v) {
            JsonView::Object(fields) => if fields.contains_key(key@) {
                r matches Some(f) && json_model(*f) == fields[key@]
            } else {
                r is None
            },
            _ => r is None,
        },
{
    v.get(key)
}

/// Relies on `serde_json::Value::as_array`: the items of an array.
pub assume_specification[ serde_json::Value::as_array ](v: &serde_json::Value) -> (r: Option<&Vec<serde_json::Value>>)
    ensures
        match json_model(*v) {
            JsonView::Array(items) => r matches Some(a) && json_models(a@) == items,
            _ => r is None,
        },
;

/// Relies on `serde_json::Value::as_str`: the text of a string.
pub assume_specification[ serde_json::Value::as_str ](v: &serde_json::Value) -> (r: Option<&str>)
    ensures
        match json_model(*v) {
            JsonView::Str(s) => r matches Some(t) && t@ == s,
            _ => r is None,
        },
;

} // verus!
