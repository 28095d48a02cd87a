//! The document model: the owned tree, what it denotes, and when it is well formed.

use vstd::prelude::*;

verus! {

/// The mathematical model of a JSON document: what a [`Document`] denotes.
pub enum Json {
    Null,
    Bool(bool),
    Number(sonic_rs::Number),
    String(Seq<char>),
    Array(Seq<Json>),
    Object(Seq<(Seq<char>, Json)>),
}

/// An owned JSON document. An object is the sequence of its entries in document order;
/// in a well-formed document no object holds a key twice.
#[derive(Debug, PartialEq)]
pub enum Document {
    Null,
    Bool(bool),
    Number(sonic_rs::Number),
    String(String),
    Array(Vec<Document>),
    Object(Vec<(String, Document)>),
}

/// The document that a [`Document`] denotes.
pub open spec fn denoted(doc: Document) -> Json
    decreases doc,
{
    match doc {
        Document::Null => Json::Null,
        Document::Bool(b) => Json::Bool(b),
        Document::Number(n) => Json::Number(n),
        Document::String(s) => Json::String(s@),
        Document::Array(items) => Json::Array(
            Seq::new(
                items@.len(),
                |i: int|
                    if 0 <= i < items@.len() {
                        denoted(items@[i])
                    } else {
                        Json::Null
                    },
            ),
        ),
        Document::Object(entries) => Json::Object(
            Seq::new(
                entries@.len(),
                |i: int|
                    if 0 <= i < entries@.len() {
                        (entries@[i].0@, denoted(entries@[i].1))
                    } else {
                        (Seq::empty(), Json::Null)
                    },
            ),
        ),
    }
}

impl View for Document {
    type V = Json;

    open spec fn view(&self) -> Json {
        denoted(*self)
    }
}

/// No two entries of the list have the same key.
pub open spec fn distinct_keys(entries: Seq<(Seq<char>, Json)>) -> bool {
    forall|i: int, j: int|
        0 <= i < j < entries.len() ==> (#[trigger] entries[i]).0 != (#[trigger] entries[j]).0
}

/// No object anywhere in the document holds a key twice.
pub open spec fn unique_keys(doc: Json) -> bool
    decreases doc,
{
    match doc {
        Json::Array(items) => forall|i: int|
            0 <= i < items.len() ==> unique_keys(#[trigger] items[i]),
        Json::Object(entries) => distinct_keys(entries) && forall|i: int|
            0 <= i < entries.len() ==> unique_keys((#[trigger] entries[i]).1),
        _ => true,
    }
}

/// No value of the list holds a key twice in any of its objects.
pub open spec fn values_unique(entries: Seq<(Seq<char>, Json)>) -> bool {
    forall|i: int| 0 <= i < entries.len() ==> unique_keys((#[trigger] entries[i]).1)
}

impl Document {
    /// A document is well formed when no object in it holds a key twice. Reading a text
    /// gives such a document, and merging makes any document one.
    pub open spec fn wf(&self) -> bool {
        unique_keys(self@)
    }
}

/// What a keyed document denotes.
pub open spec fn entry_view(entry: (String, Document)) -> (Seq<char>, Json) {
    (entry.0@, entry.1@)
}

/// What a list of keyed documents denotes.
pub open spec fn entries_view(entries: Seq<(String, Document)>) -> Seq<(Seq<char>, Json)> {
    Seq::new(entries.len(), |i: int| entry_view(entries[i]))
}

/// What a list of documents denotes.
pub open spec fn items_view(items: Seq<Document>) -> Seq<Json> {
    Seq::new(items.len(), |i: int| items[i]@)
}

/// An array denotes the array of what its items denote.
pub proof fn lemma_array_view(items: Vec<Document>)
    ensures
        Document::Array(items)@ == Json::Array(items_view(items@)),
{
    assert(Document::Array(items)@->Array_0 =~= items_view(items@));
}

/// An object denotes the object of what its entries denote.
pub proof fn lemma_object_view(entries: Vec<(String, Document)>)
    ensures
        Document::Object(entries)@ == Json::Object(entries_view(entries@)),
{
    assert(Document::Object(entries)@->Object_0 =~= entries_view(entries@));
}

} // verus!
