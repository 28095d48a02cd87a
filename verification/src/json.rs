//! The six text operations: every one takes a text and returns a text, and none fails.
//! Where a text is not JSON, or a document cannot be written, the text comes back unchanged.

use vstd::prelude::*;
use crate::codec::{compact_text, parsed_text, pretty_text};
use crate::embedded::{recur_parse, unwrapped, UNWRAP_DEPTH};
use crate::sorter::{canonical, recur_sort};
use crate::text::{
    parse_text, parsed_document, serialize_compact, serialize_pretty, ParseFailure,
};
use crate::value::{Document, Json};

verus! {

/// The outcome of an operation: the text it produced, or the input where it produced none.
pub open spec fn or_input(produced: Option<Seq<char>>, input: Seq<char>) -> Seq<char> {
    match produced {
        Some(text) => text,
        None => input,
    }
}

/// What `format` returns for a text.
pub open spec fn formatted(text: Seq<char>) -> Seq<char> {
    match parsed_document(text) {
        Some(doc) => or_input(pretty_text(doc), text),
        None => text,
    }
}

/// What `compress` returns for a text.
pub open spec fn compressed(text: Seq<char>) -> Seq<char> {
    match parsed_document(text) {
        Some(doc) => or_input(compact_text(doc), text),
        None => text,
    }
}

/// What `sort_format` returns for a text.
pub open spec fn sort_formatted(text: Seq<char>) -> Seq<char> {
    match parsed_document(text) {
        Some(doc) => or_input(pretty_text(canonical(doc)), text),
        None => text,
    }
}

/// What `recur_format` returns for a text.
pub open spec fn recur_formatted(text: Seq<char>) -> Seq<char> {
    match parsed_document(text) {
        Some(doc) => or_input(pretty_text(unwrapped(doc, UNWRAP_DEPTH as nat)), text),
        None => text,
    }
}

/// What `stringify` returns for a text: the compact text of the document that is this
/// string.
pub open spec fn stringified(text: Seq<char>) -> Seq<char> {
    or_input(compact_text(Json::String(text)), text)
}

/// The content of a document that is a string; nothing for any other document.
pub open spec fn string_content(doc: Option<Json>) -> Option<Seq<char>> {
    match doc {
        Some(Json::String(content)) => Some(content),
        _ => None,
    }
}

/// What `parse` returns for a text.
pub open spec fn parsed_content(text: Seq<char>) -> Seq<char> {
    or_input(string_content(parsed_document(text)), text)
}

/// The text that an operation hands back: what it produced, or its input where it produced
/// nothing.
pub fn produced_or_input(produced: Option<String>, input: &str) -> (r: String)
    ensures
        r@ == match produced {
            Some(text) => text@,
            None => input@,
        },
{
    match produced {
        Some(text) => text,
        None => input.to_owned(),
    }
}

/// The content of a parsed text where it is a string, and the input where it is anything
/// else or was not read at all.
pub fn content_or_input(found: Result<Document, ParseFailure>, input: &str) -> (r: String)
    ensures
        r@ == match found {
            Ok(Document::String(content)) => content@,
            _ => input@,
        },
{
    match found {
        Ok(Document::String(content)) => content,
        _ => input.to_owned(),
    }
}

/// Pretty-prints a JSON text. A text that is not JSON comes back unchanged.
pub fn format(text: &str) -> (r: String)
    ensures
        r@ == formatted(text@),
        parsed_text(text@) is None ==> r@ == text@,
{
    match parse_text(text) {
        Ok(doc) => produced_or_input(serialize_pretty(&doc), text),
        Err(_) => text.to_owned(),
    }
}

/// Writes a JSON text without layout. A text that is not JSON comes back unchanged.
pub fn compress(text: &str) -> (r: String)
    ensures
        r@ == compressed(text@),
        parsed_text(text@) is None ==> r@ == text@,
{
    match parse_text(text) {
        Ok(doc) => produced_or_input(serialize_compact(&doc), text),
        Err(_) => text.to_owned(),
    }
}

/// Brings a JSON text into canonical order and pretty-prints it. A text that is not JSON
/// comes back unchanged.
pub fn sort_format(text: &str) -> (r: String)
    ensures
        r@ == sort_formatted(text@),
        parsed_text(text@) is None ==> r@ == text@,
{
    match parse_text(text) {
        Ok(doc) => {
            let sorted = recur_sort(doc);
            produced_or_input(serialize_pretty(&sorted), text)
        },
        Err(_) => text.to_owned(),
    }
}

/// Unwraps the JSON embedded in the strings of a JSON text and pretty-prints the result.
/// A text that is not JSON comes back unchanged.
pub fn recur_format(text: &str) -> (r: String)
    ensures
        r@ == recur_formatted(text@),
        parsed_text(text@) is None ==> r@ == text@,
{
    match parse_text(text) {
        Ok(doc) => {
            let opened = recur_parse(doc, UNWRAP_DEPTH);
            produced_or_input(serialize_pretty(&opened), text)
        },
        Err(_) => text.to_owned(),
    }
}

/// Writes a text as a JSON string literal: quoted and escaped.
pub fn stringify(text: &str) -> (r: String)
    ensures
        r@ == stringified(text@),
{
    let doc = Document::String(text.to_owned());
    produced_or_input(serialize_compact(&doc), text)
}

/// Reads a JSON string literal and returns its content. A text that is not JSON, or that
/// is JSON of another kind, comes back unchanged.
pub fn parse(text: &str) -> (r: String)
    ensures
        r@ == parsed_content(text@),
        !(parsed_text(text@) matches Some(Json::String(_))) ==> r@ == text@,
{
    content_or_input(parse_text(text), text)
}

} // verus!
