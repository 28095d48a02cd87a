//! Reading a text as a document and writing a document as text.

use vstd::prelude::*;
use crate::codec::{
    compact_text, decode, encode_compact, encode_pretty, lift, lower, parsed_text, pretty_text,
};
use crate::keys::{merge, merged};
use crate::value::{Document, Json};

verus! {

/// Why a text could not be read: it is not JSON.
#[derive(Debug)]
pub struct ParseFailure;

/// The document that a text describes, each object holding a key once with the value that
/// was written last; nothing where the text is not JSON.
pub open spec fn parsed_document(text: Seq<char>) -> Option<Json> {
    match parsed_text(text) {
        Some(doc) => Some(merged(doc)),
        None => None,
    }
}

/// Reads a text as a JSON document.
pub fn parse_text(text: &str) -> (r: Result<Document, ParseFailure>)
    ensures
        r is Ok <==> parsed_document(text@) is Some,
        r matches Ok(doc) ==> parsed_document(text@) == Some(doc@) && doc.wf(),
{
    match decode(text) {
        Some(raw) => Ok(merge(lift(&raw))),
        None => Err(ParseFailure),
    }
}

/// Writes a document without layout.
pub fn serialize_compact(doc: &Document) -> (r: Option<String>)
    requires
        doc.wf(),
    ensures
        r is Some <==> compact_text(doc@) is Some,
        r matches Some(text) ==> compact_text(doc@) == Some(text@),
{
    let raw = lower(doc);
    encode_compact(&raw)
}

/// Writes a document with indentation.
pub fn serialize_pretty(doc: &Document) -> (r: Option<String>)
    requires
        doc.wf(),
    ensures
        r is Some <==> pretty_text(doc@) is Some,
        r matches Some(text) ==> pretty_text(doc@) == Some(text@),
{
    let raw = lower(doc);
    encode_pretty(&raw)
}

} // verus!
