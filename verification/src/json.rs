//! JSON values one level at a time: a parsed value with the text of each of its elements, so
//! that the library walks nested values by parsing the element's text in turn.
use vstd::prelude::*;
use crate::text::{bytes_eq, slice_copy};
use serde_json::Value;

verus! {

/// A JSON value, with the elements of an array or object kept as their JSON text.
pub enum JsonNode {
    Null,
    Bool(bool),
    /// The number as JSON writes it.
    Number(Vec<u8>),
    /// The string's UTF-8 bytes.
    Str(Vec<u8>),
    /// The text of each element.
    Array(Vec<Vec<u8>>),
    /// Each key with the text of its value, in the order of the parsed object.
    Object(Vec<(Vec<u8>, Vec<u8>)>),
}

pub enum JsonView {
    Null,
    Bool(bool),
    Number(Seq<u8>),
    Str(Seq<u8>),
    Array(Seq<Seq<u8>>),
    Object(Seq<(Seq<u8>, Seq<u8>)>),
}

pub open spec fn texts_view(v: Seq<Vec<u8>>) -> Seq<Seq<u8>> {
    v.map_values(|x: Vec<u8>| x@)
}

pub open spec fn fields_view(v: Seq<(Vec<u8>, Vec<u8>)>) -> Seq<(Seq<u8>, Seq<u8>)> {
    v.map_values(|f: (Vec<u8>, Vec<u8>)| (f.0@, f.1@))
}

impl View for JsonNode {
    type V = JsonView;

    open spec fn view(&self) -> JsonView {
        match self {
            JsonNode::Null => JsonView::Null,
            JsonNode::Bool(b) => JsonView::Bool(*b),
            JsonNode::Number(n) => JsonView::Number(n@),
            JsonNode::Str(s) => JsonView::Str(s@),
            JsonNode::Array(a) => JsonView::Array(texts_view(a@)),
            JsonNode::Object(o) => JsonView::Object(fields_view(o@)),
        }
    }
}

pub open spec fn opt_node_view(o: Option<JsonNode>) -> Option<JsonView> {
    match o {
        Some(n) => Some(n@),
        None => None,
    }
}

/// What `serde_json::from_slice::<Value>` makes of a text: `None` where it is not one JSON
/// value; else the value, its elements written back as JSON text.
pub uninterp spec fn json_node(text: Seq<u8>) -> Option<JsonView>;

/// `serde_json::from_slice::<Value>`, the parsed value taken apart one level: each variant to
/// its own, a number and each element of an array or object written as JSON text (`Display`
/// of `Number` and `Value`). Nothing is claimed of the parse beyond its depending on the text
/// alone.
#[verifier::external_body]
pub fn parse_json(text: &[u8]) -> (r: Option<JsonNode>)
    ensures
        opt_node_view(r) == json_node(text@),
{
    let v: Value = serde_json::from_slice(text).ok()?;
    Some(match v {
        Value::Null => JsonNode::Null,
        Value::Bool(b) => JsonNode::Bool(b),
        Value::Number(n) => JsonNode::Number(n.to_string().into_bytes()),
        Value::String(s) => JsonNode::Str(s.into_bytes()),
        Value::Array(a) => JsonNode::Array(a.iter().map(|x| x.to_string().into_bytes()).collect()),
        Value::Object(m) => JsonNode::Object(m.into_iter().map(|(k, x)| (k.into_bytes(), x.to_string().into_bytes())).collect()),
    })
}

/// The text of the value of the first field named `key`.
pub open spec fn field(fields: Seq<(Seq<u8>, Seq<u8>)>, key: Seq<u8>) -> Option<Seq<u8>>
    decreases fields.len(),
{
    if fields.len() == 0 {
        None
    } else if fields[0].0 == key {
        Some(fields[0].1)
    } else {
        field(fields.subrange(1, fields.len() as int), key)
    }
}

/// The text of the value of the first field named `key` (see `field`).
pub fn get_field(fields: &Vec<(Vec<u8>, Vec<u8>)>, key: &[u8]) -> (r: Option<Vec<u8>>)
    ensures
        match r {
            Some(t) => field(fields_view(fields@), key@) == Some(t@),
            None => field(fields_view(fields@), key@) is None,
        },
{
    let ghost fv = fields_view(fields@);
    let mut i: usize = 0;
    assert(fv.subrange(0, fv.len() as int) =~= fv);
    while i < fields.len()
        invariant
            i <= fields@.len(),
            fv == fields_view(fields@),
            field(fv, key@) == field(fv.subrange(i as int, fv.len() as int), key@),
        decreases fields@.len() - i,
    {
        let ghost rest = fv.subrange(i as int, fv.len() as int);
        assert(rest[0] == fv[i as int]);
        if bytes_eq(fields[i].0.as_slice(), key) {
            let v = &fields[i].1;
            assert(v@.subrange(0, v@.len() as int) =~= v@);
            return Some(slice_copy(v.as_slice(), 0, v.len()));
        }
        assert(rest.subrange(1, rest.len() as int) =~= fv.subrange(i + 1, fv.len() as int));
        i = i + 1;
    }
    None
}

/// The string that a JSON text holds, where it is a string.
pub open spec fn json_str(text: Seq<u8>) -> Option<Seq<u8>> {
    match json_node(text) {
        Some(JsonView::Str(s)) => Some(s),
        _ => None,
    }
}

/// The string that a JSON text holds (see `json_str`).
pub fn parse_str(text: &[u8]) -> (r: Option<Vec<u8>>)
    ensures
        match r {
            Some(s) => json_str(text@) == Some(s@),
            None => json_str(text@) is None,
        },
{
    match parse_json(text) {
        Some(JsonNode::Str(s)) => Some(s),
        _ => None,
    }
}

} // verus!
