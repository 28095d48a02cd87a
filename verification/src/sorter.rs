//! Canonical sorting: arrays by the compact text of their items, objects by the kind of
//! each value and then by key, children before their container.

use vstd::prelude::*;
use crate::codec::compact_text;
use crate::laws::lemma_canonical_unique;
use crate::lists::reversed;
use crate::order::{place, stable_sorted};
use crate::text::serialize_compact;
use crate::value::{
    entries_view, entry_view, items_view, lemma_array_view, lemma_object_view, Document, Json,
};

verus! {

/// The text that an array item is sorted by: its compact text, or the empty text where the
/// item cannot be written.
pub open spec fn sort_text(doc: Json) -> Seq<char> {
    match compact_text(doc) {
        Some(text) => text,
        None => Seq::empty(),
    }
}

/// The documents of a list of keyed documents.
pub open spec fn unkeyed(entries: Seq<(Seq<char>, Json)>) -> Seq<Json> {
    Seq::new(entries.len(), |i: int| entries[i].1)
}

/// The canonical form of a document. Scalars stay as they are. The items of an array are
/// brought into canonical form and then ordered by their sort text; the values of an object
/// are brought into canonical form and its entries then ordered by kind and key.
pub open spec fn canonical(doc: Json) -> Json
    decreases doc,
{
    match doc {
        Json::Array(items) => Json::Array(unkeyed(stable_sorted(keyed_items(items), false))),
        Json::Object(entries) => Json::Object(stable_sorted(canonical_entries(entries), true)),
        _ => doc,
    }
}

/// The items of an array in canonical form, each with the text it is sorted by.
pub open spec fn keyed_items(items: Seq<Json>) -> Seq<(Seq<char>, Json)>
    decreases items,
{
    Seq::new(
        items.len(),
        |i: int|
            if 0 <= i < items.len() {
                (sort_text(canonical(items[i])), canonical(items[i]))
            } else {
                (Seq::empty(), Json::Null)
            },
    )
}

/// The entries of an object with each value in canonical form.
pub open spec fn canonical_entries(entries: Seq<(Seq<char>, Json)>) -> Seq<(Seq<char>, Json)>
    decreases entries,
{
    Seq::new(
        entries.len(),
        |i: int|
            if 0 <= i < entries.len() {
                (entries[i].0, canonical(entries[i].1))
            } else {
                (Seq::empty(), Json::Null)
            },
    )
}

/// The text that a document is sorted by among the items of an array.
pub fn sort_key(doc: &Document) -> (r: String)
    requires
        doc.wf(),
    ensures
        r@ == sort_text(doc@),
{
    match serialize_compact(doc) {
        Some(text) => text,
        None => String::new(),
    }
}

/// Drops the keys of a list of keyed documents.
pub fn without_keys(entries: Vec<(String, Document)>) -> (r: Vec<Document>)
    ensures
        items_view(r@) == unkeyed(entries_view(entries@)),
{
    let mut rest = reversed(entries);
    let mut out: Vec<Document> = Vec::new();
    while rest.len() > 0
        invariant
            rest@.len() + out@.len() == entries@.len(),
            forall|i: int| 0 <= i < rest@.len() ==> rest@[i] == entries@[entries@.len() - 1 - i],
            forall|i: int| 0 <= i < out@.len() ==> out@[i] == entries@[i].1,
        decreases rest@.len(),
    {
        let entry = rest.pop().unwrap();
        out.push(entry.1);
    }
    assert(items_view(out@) =~= unkeyed(entries_view(entries@)));
    out
}

/// Brings a document into canonical form.
pub fn recur_sort(doc: Document) -> (r: Document)
    requires
        doc.wf(),
    ensures
        r@ == canonical(doc@),
        r.wf(),
    decreases doc,
{
    proof {
        lemma_canonical_unique(doc@);
    }
    match doc {
        Document::Array(items) => {
            let ghost keyed = Seq::new(
                items@.len(),
                |i: int| (sort_text(canonical(items@[i]@)), canonical(items@[i]@)),
            );
            proof {
                lemma_array_view(items);
                assert forall|i: int| 0 <= i < items@.len() implies (#[trigger] items@[i]).wf() by {
                    assert(items_view(items@)[i] == items@[i]@);
                }
            }
            let mut rest = items;
            let mut sorted: Vec<(String, Document)> = Vec::new();
            while rest.len() > 0
                invariant
                    rest@.len() <= items@.len(),
                    forall|i: int| 0 <= i < rest@.len() ==> rest@[i] == items@[i],
                    keyed.len() == items@.len(),
                    forall|i: int|
                        0 <= i < items@.len() ==> keyed[i] == (
                            sort_text(canonical(items@[i]@)),
                            canonical(items@[i]@),
                        ),
                    doc == Document::Array(items),
                    forall|i: int| 0 <= i < items@.len() ==> (#[trigger] items@[i]).wf(),
                    entries_view(sorted@) == stable_sorted(
                        keyed.subrange(rest@.len() as int, keyed.len() as int),
                        false,
                    ),
                decreases rest@.len(),
            {
                let ghost before = rest@.len() as int;
                let item = rest.pop().unwrap();
                assert(item == items[before - 1]);
                assert(decreases_to!(items => items[before - 1]));
                assert(decreases_to!(doc => doc->Array_0));
                let item = recur_sort(item);
                let key = sort_key(&item);
                place(&mut sorted, (key, item), false);
                proof {
                    let tail = keyed.subrange(before - 1, keyed.len() as int);
                    assert(tail.drop_first() =~= keyed.subrange(before, keyed.len() as int));
                    assert(tail.first() == keyed[before - 1]);
                }
            }
            let out = without_keys(sorted);
            proof {
                lemma_array_view(items);
                lemma_array_view(out);
                assert(keyed.subrange(0, keyed.len() as int) =~= keyed);
                assert(keyed =~= keyed_items(items_view(items@)));
            }
            Document::Array(out)
        },
        Document::Object(entries) => {
            let ghost keyed = Seq::new(
                entries@.len(),
                |i: int| (entries@[i].0@, canonical(entries@[i].1@)),
            );
            proof {
                lemma_object_view(entries);
                assert forall|i: int| 0 <= i < entries@.len() implies (
                #[trigger] entries@[i]).1.wf() by {
                    assert(entries_view(entries@)[i].1 == entries@[i].1@);
                }
            }
            let mut rest = entries;
            let mut sorted: Vec<(String, Document)> = Vec::new();
            while rest.len() > 0
                invariant
                    rest@.len() <= entries@.len(),
                    forall|i: int| 0 <= i < rest@.len() ==> rest@[i] == entries@[i],
                    keyed.len() == entries@.len(),
                    forall|i: int|
                        0 <= i < entries@.len() ==> keyed[i] == (
                            entries@[i].0@,
                            canonical(entries@[i].1@),
                        ),
                    doc == Document::Object(entries),
                    forall|i: int| 0 <= i < entries@.len() ==> (#[trigger] entries@[i]).1.wf(),
                    entries_view(sorted@) == stable_sorted(
                        keyed.subrange(rest@.len() as int, keyed.len() as int),
                        true,
                    ),
                decreases rest@.len(),
            {
                let ghost before = rest@.len() as int;
                let entry = rest.pop().unwrap();
                assert(entry == entries[before - 1]);
                assert(decreases_to!(entries => entries[before - 1]));
                assert(decreases_to!(doc => doc->Object_0));
                assert(decreases_to!(entry => entry.1));
                let value = recur_sort(entry.1);
                place(&mut sorted, (entry.0, value), true);
                proof {
                    let tail = keyed.subrange(before - 1, keyed.len() as int);
                    assert(tail.drop_first() =~= keyed.subrange(before, keyed.len() as int));
                    assert(tail.first() == keyed[before - 1]);
                }
            }
            proof {
                lemma_object_view(entries);
                lemma_object_view(sorted);
                assert(keyed.subrange(0, keyed.len() as int) =~= keyed);
                assert(keyed =~= canonical_entries(entries_view(entries@)));
            }
            Document::Object(sorted)
        },
        other => other,
    }
}

} // verus!
