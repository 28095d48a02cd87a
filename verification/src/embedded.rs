//! Unwrapping of JSON that is embedded in string leaves: a string whose content is itself
//! an object, an array or a string in JSON text is replaced by what it holds, again and
//! again, down to a fixed depth.

use vstd::prelude::*;
use crate::laws::lemma_unwrapped_unique;
use crate::text::{parse_text, parsed_document};
use crate::lists::reversed;
use crate::value::{
    entries_view, items_view, lemma_array_view, lemma_object_view, Document, Json,
};

verus! {

/// How many times, one inside the other, the content of a string is read as JSON.
pub const UNWRAP_DEPTH: usize = 64;

/// Whether a document read from a string leaf takes the leaf's place: objects, arrays and
/// strings do; null, booleans and numbers do not.
pub open spec fn is_structure(doc: Json) -> bool {
    doc is Object || doc is Array || doc is String
}

/// What takes the place of a string leaf, given what its content reads as.
pub open spec fn embedded_in(found: Option<Json>) -> Option<Json> {
    match found {
        Some(doc) => if is_structure(doc) {
            Some(doc)
        } else {
            None
        },
        None => None,
    }
}

/// A document with its embedded JSON unwrapped, reading at most `depth` strings one inside
/// the other. Containers keep their shape and order. A string leaf whose content reads as an
/// object, an array or a string gives way to that document, which is unwrapped in turn with
/// one level less; any other leaf stays as it is, and so does every string once no level
/// is left.
pub open spec fn unwrapped(doc: Json, depth: nat) -> Json
    decreases depth, doc,
{
    match doc {
        Json::Array(items) => Json::Array(unwrapped_items(items, depth)),
        Json::Object(entries) => Json::Object(unwrapped_entries(entries, depth)),
        Json::String(text) => match embedded_in(parsed_document(text)) {
            Some(inner) => if depth > 0 {
                unwrapped(inner, (depth - 1) as nat)
            } else {
                doc
            },
            None => doc,
        },
        _ => doc,
    }
}

/// The items of an array, each unwrapped.
pub open spec fn unwrapped_items(items: Seq<Json>, depth: nat) -> Seq<Json>
    decreases depth, items,
{
    Seq::new(
        items.len(),
        |i: int|
            if 0 <= i < items.len() {
                unwrapped(items[i], depth)
            } else {
                Json::Null
            },
    )
}

/// The entries of an object, each value unwrapped.
pub open spec fn unwrapped_entries(entries: Seq<(Seq<char>, Json)>, depth: nat) -> Seq<
    (Seq<char>, Json),
>
    decreases depth, entries,
{
    Seq::new(
        entries.len(),
        |i: int|
            if 0 <= i < entries.len() {
                (entries[i].0, unwrapped(entries[i].1, depth))
            } else {
                (Seq::empty(), Json::Null)
            },
    )
}

/// Picks what takes the place of a string leaf from what its content was read as.
pub fn embedded(found: Option<Document>) -> (r: Option<Document>)
    ensures
        r is Some <==> (found matches Some(doc) && is_structure(doc@)),
        r is Some ==> r == found,
{
    match found {
        Some(Document::Object(entries)) => Some(Document::Object(entries)),
        Some(Document::Array(items)) => Some(Document::Array(items)),
        Some(Document::String(text)) => Some(Document::String(text)),
        _ => None,
    }
}

/// Reads the content of a string leaf as JSON.
pub fn read_leaf(text: &str) -> (r: Option<Document>)
    ensures
        r is Some <==> embedded_in(parsed_document(text@)) is Some,
        r matches Some(doc) ==> embedded_in(parsed_document(text@)) == Some(doc@) && doc.wf(),
{
    match parse_text(text) {
        Ok(doc) => embedded(Some(doc)),
        Err(_) => None,
    }
}

/// Unwraps the JSON embedded in the string leaves of a document, reading at most `depth`
/// strings one inside the other.
pub fn recur_parse(doc: Document, depth: usize) -> (r: Document)
    ensures
        r@ == unwrapped(doc@, depth as nat),
        doc.wf() ==> r.wf(),
    decreases depth, doc,
{
    proof {
        if doc.wf() {
            lemma_unwrapped_unique(doc@, depth as nat);
        }
    }
    match doc {
        Document::Array(items) => {
            let mut rest = items;
            let mut turned: Vec<Document> = Vec::new();
            while rest.len() > 0
                invariant
                    rest@.len() + turned@.len() == items@.len(),
                    forall|i: int| 0 <= i < rest@.len() ==> rest@[i] == items@[i],
                    forall|j: int|
                        0 <= j < turned@.len() ==> (#[trigger] turned@[j])@ == unwrapped(
                            items@[items@.len() - 1 - j]@,
                            depth as nat,
                        ),
                    doc == Document::Array(items),
                decreases rest@.len(),
            {
                let ghost before = rest@.len() as int;
                let item = rest.pop().unwrap();
                assert(item == items[before - 1]);
                assert(decreases_to!(items => items[before - 1]));
                assert(decreases_to!(doc => doc->Array_0));
                turned.push(recur_parse(item, depth));
            }
            let out = reversed(turned);
            proof {
                lemma_array_view(items);
                lemma_array_view(out);
                assert(items_view(out@) =~= unwrapped_items(items_view(items@), depth as nat));
            }
            Document::Array(out)
        },
        Document::Object(entries) => {
            let mut rest = entries;
            let mut turned: Vec<(String, Document)> = Vec::new();
            while rest.len() > 0
                invariant
                    rest@.len() + turned@.len() == entries@.len(),
                    forall|i: int| 0 <= i < rest@.len() ==> rest@[i] == entries@[i],
                    forall|j: int|
                        0 <= j < turned@.len() ==> {
                            &&& (#[trigger] turned@[j]).0@ == entries@[entries@.len() - 1 - j].0@
                            &&& turned@[j].1@ == unwrapped(
                                entries@[entries@.len() - 1 - j].1@,
                                depth as nat,
                            )
                        },
                    doc == Document::Object(entries),
                decreases rest@.len(),
            {
                let ghost before = rest@.len() as int;
                let entry = rest.pop().unwrap();
                assert(entry == entries[before - 1]);
                assert(decreases_to!(entries => entries[before - 1]));
                assert(decreases_to!(doc => doc->Object_0));
                assert(decreases_to!(entry => entry.1));
                let value = recur_parse(entry.1, depth);
                turned.push((entry.0, value));
            }
            let out = reversed(turned);
            proof {
                lemma_object_view(entries);
                lemma_object_view(out);
                assert(entries_view(out@) =~= unwrapped_entries(
                    entries_view(entries@),
                    depth as nat,
                ));
            }
            Document::Object(out)
        },
        Document::String(text) => {
            if depth == 0 {
                return Document::String(text);
            }
            match read_leaf(text.as_str()) {
                Some(inner) => recur_parse(inner, depth - 1),
                None => Document::String(text),
            }
        },
        other => other,
    }
}

} // verus!
