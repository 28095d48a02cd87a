//! The boundary with the outside JSON library. Everything here is believed, not proved:
//! each item says which outside function it stands for and what is claimed of it.

use vstd::prelude::*;
use crate::value::{unique_keys, Document, Json};
use sonic_rs::{JsonContainerTrait, JsonType, JsonValueTrait};

verus! {

/// The document that an outside tree holds.
pub uninterp spec fn document_of(raw: sonic_rs::Value) -> Json;

/// What `sonic_rs::from_str` makes of a text: the document it describes, or nothing where
/// the text is not JSON.
pub uninterp spec fn parsed_text(text: Seq<char>) -> Option<Json>;

/// What `sonic_rs::to_string` writes for a document: its text without any layout.
pub uninterp spec fn compact_text(doc: Json) -> Option<Seq<char>>;

/// What `sonic_rs::to_string_pretty` writes for a document: its indented text.
pub uninterp spec fn pretty_text(doc: Json) -> Option<Seq<char>>;

/// Calls `sonic_rs::from_str` for an outside tree. Claimed: the call succeeds exactly on the
/// texts that `parsed_text` accepts, and the tree then holds the document that it names.
#[verifier::external_body]
pub(crate) fn decode(text: &str) -> (r: Option<sonic_rs::Value>)
    ensures
        r is Some <==> parsed_text(text@) is Some,
        r matches Some(raw) ==> parsed_text(text@) == Some(document_of(raw)),
{
    sonic_rs::from_str::<sonic_rs::Value>(text).ok()
}

/// Copies an outside tree into a [`Document`], node by node, with the accessors of
/// `sonic_rs::Value` (`get_type`, `as_bool`, `as_number`, `as_str`, `as_array`, `as_object`).
/// Claimed: the copy denotes the document that the tree holds, entries and items in their
/// order.
#[verifier::external_body]
pub(crate) fn lift(raw: &sonic_rs::Value) -> (r: Document)
    ensures
        r@ == document_of(*raw),
{
    match raw.get_type() {
        JsonType::Null => Document::Null,
        JsonType::Boolean => Document::Bool(raw.as_bool().unwrap_or_default()),
        JsonType::Number => raw.as_number().map_or(Document::Null, Document::Number),
        JsonType::String => Document::String(raw.as_str().unwrap_or_default().to_string()),
        JsonType::Array => Document::Array(raw.as_array().into_iter().flatten().map(lift).collect()),
        JsonType::Object => Document::Object(
            raw.as_object().into_iter().flat_map(|o| o.iter()).map(|(k, v)| (k.to_string(), lift(v))).collect(),
        ),
    }
}

/// Builds an outside tree from a [`Document`], node by node, with `sonic_rs::Value::from` and,
/// for the entries of an object, `sonic_rs::Object::insert`, which puts an entry under a new
/// key behind those that are there. Claimed: for a document in which no object holds a key
/// twice, the tree holds the document that the value denotes.
#[verifier::external_body]
pub(crate) fn lower(value: &Document) -> (r: sonic_rs::Value)
    requires
        unique_keys(value@),
    ensures
        document_of(r) == value@,
{
    match value {
        Document::Null => sonic_rs::Value::new(),
        Document::Bool(b) => sonic_rs::Value::from(*b),
        Document::Number(n) => sonic_rs::Value::from(n.clone()),
        Document::String(s) => sonic_rs::Value::from(s.as_str()),
        Document::Array(items) => sonic_rs::Array::from_iter(items.iter().map(lower)).into(),
        Document::Object(entries) => {
            let mut object = sonic_rs::Object::new();
            for (k, v) in entries.iter() {
                object.insert(k, lower(v));
            }
            object.into()
        }
    }
}

/// Calls `sonic_rs::to_string` on an outside tree. Claimed: the result is the compact text
/// of the document that the tree holds, and there is none exactly where the call fails.
#[verifier::external_body]
pub(crate) fn encode_compact(raw: &sonic_rs::Value) -> (r: Option<String>)
    ensures
        r is Some <==> compact_text(document_of(*raw)) is Some,
        r matches Some(text) ==> compact_text(document_of(*raw)) == Some(text@),
{
    sonic_rs::to_string(raw).ok()
}

/// Calls `sonic_rs::to_string_pretty` on an outside tree. Claimed: the result is the
/// indented text of the document that the tree holds, and there is none exactly where the
/// call fails.
#[verifier::external_body]
pub(crate) fn encode_pretty(raw: &sonic_rs::Value) -> (r: Option<String>)
    ensures
        r is Some <==> pretty_text(document_of(*raw)) is Some,
        r matches Some(text) ==> pretty_text(document_of(*raw)) == Some(text@),
{
    sonic_rs::to_string_pretty(raw).ok()
}

} // verus!
