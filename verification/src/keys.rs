//! Keeping the keys of every object unique: an object is built by writing its entries one
//! after the other, and a key that is written again keeps its place and takes the new value.

use vstd::prelude::*;
use crate::lists::reversed;
use crate::value::{
    distinct_keys, entries_view, entry_view, items_view, lemma_array_view, lemma_object_view,
    unique_keys, values_unique, Document, Json,
};

verus! {

/// The entries of an object after one more entry is written to it: a key that is already
/// there keeps its place and takes the new value, a new key goes to the end.
pub open spec fn written(entries: Seq<(Seq<char>, Json)>, key: Seq<char>, value: Json) -> Seq<
    (Seq<char>, Json),
>
    decreases entries.len(),
{
    if entries.len() == 0 {
        seq![(key, value)]
    } else if entries.first().0 == key {
        seq![(key, value)] + entries.drop_first()
    } else {
        seq![entries.first()] + written(entries.drop_first(), key, value)
    }
}

/// The entries of an object built by writing `entries` one after the other into an empty one.
pub open spec fn written_all(entries: Seq<(Seq<char>, Json)>) -> Seq<(Seq<char>, Json)>
    decreases entries.len(),
{
    if entries.len() == 0 {
        Seq::empty()
    } else {
        written(written_all(entries.drop_last()), entries.last().0, entries.last().1)
    }
}

/// A document with every object built entry by entry, so that no key occurs twice in an
/// object and the last value written for a key is the one that stays.
pub open spec fn merged(doc: Json) -> Json
    decreases doc,
{
    match doc {
        Json::Array(items) => Json::Array(merged_items(items)),
        Json::Object(entries) => Json::Object(written_all(merged_entries(entries))),
        _ => doc,
    }
}

/// The items of an array, each merged.
pub open spec fn merged_items(items: Seq<Json>) -> Seq<Json>
    decreases items,
{
    Seq::new(
        items.len(),
        |i: int|
            if 0 <= i < items.len() {
                merged(items[i])
            } else {
                Json::Null
            },
    )
}

/// The entries of an object, each value merged.
pub open spec fn merged_entries(entries: Seq<(Seq<char>, Json)>) -> Seq<(Seq<char>, Json)>
    decreases entries,
{
    Seq::new(
        entries.len(),
        |i: int|
            if 0 <= i < entries.len() {
                (entries[i].0, merged(entries[i].1))
            } else {
                (Seq::empty(), Json::Null)
            },
    )
}

/// Where `written` puts an entry: in the place of the first entry with its key, or at the
/// end where there is none.
pub proof fn lemma_written_at(
    entries: Seq<(Seq<char>, Json)>,
    key: Seq<char>,
    value: Json,
    at: int,
)
    requires
        0 <= at <= entries.len(),
        forall|j: int| 0 <= j < at ==> (#[trigger] entries[j]).0 != key,
        at < entries.len() ==> entries[at].0 == key,
    ensures
        written(entries, key, value) == if at < entries.len() {
            entries.update(at, (key, value))
        } else {
            entries.push((key, value))
        },
    decreases at,
{
    if entries.len() == 0 {
        assert(seq![(key, value)] =~= entries.push((key, value)));
    } else if at == 0 {
        assert(seq![(key, value)] + entries.drop_first() =~= entries.update(0, (key, value)));
    } else {
        let rest = entries.drop_first();
        assert(entries[0].0 != key);
        assert forall|j: int| 0 <= j < at - 1 implies (#[trigger] rest[j]).0 != key by {
            assert(rest[j] == entries[j + 1]);
        }
        lemma_written_at(rest, key, value, at - 1);
        if at < entries.len() {
            assert(seq![entries.first()] + rest.update(at - 1, (key, value)) =~= entries.update(
                at,
                (key, value),
            ));
        } else {
            assert(seq![entries.first()] + rest.push((key, value)) =~= entries.push((key, value)));
        }
    }
}

/// Writing an entry keeps the keys distinct, and the values well formed.
pub proof fn lemma_written_unique(entries: Seq<(Seq<char>, Json)>, key: Seq<char>, value: Json)
    requires
        distinct_keys(entries),
    ensures
        distinct_keys(written(entries, key, value)),
        values_unique(entries) && unique_keys(value) ==> values_unique(
            written(entries, key, value),
        ),
{
    let out = written(entries, key, value);
    if exists|at: int| 0 <= at < entries.len() && entries[at].0 == key {
        let at = choose|at: int| 0 <= at < entries.len() && entries[at].0 == key;
        assert forall|j: int| 0 <= j < at implies (#[trigger] entries[j]).0 != key by {}
        lemma_written_at(entries, key, value, at);
        assert forall|i: int, j: int| 0 <= i < j < out.len() implies (#[trigger] out[i]).0 != (
        #[trigger] out[j]).0 by {
            assert(out[i].0 == entries[i].0 && out[j].0 == entries[j].0);
        }
        if values_unique(entries) && unique_keys(value) {
            assert forall|i: int| 0 <= i < out.len() implies unique_keys((#[trigger] out[i]).1) by {
                if i != at {
                    assert(out[i] == entries[i]);
                }
            }
        }
    } else {
        assert forall|j: int| 0 <= j < entries.len() implies (#[trigger] entries[j]).0 != key by {}
        lemma_written_at(entries, key, value, entries.len() as int);
        assert forall|i: int, j: int| 0 <= i < j < out.len() implies (#[trigger] out[i]).0 != (
        #[trigger] out[j]).0 by {
            assert(out[i] == entries[i]);
            if j < entries.len() {
                assert(out[j] == entries[j]);
            }
        }
        if values_unique(entries) && unique_keys(value) {
            assert forall|i: int| 0 <= i < out.len() implies unique_keys((#[trigger] out[i]).1) by {
                if i < entries.len() {
                    assert(out[i] == entries[i]);
                }
            }
        }
    }
}

/// An object built entry by entry holds each key once, and values as well formed as those
/// written.
pub proof fn lemma_written_all_unique(entries: Seq<(Seq<char>, Json)>)
    ensures
        distinct_keys(written_all(entries)),
        values_unique(entries) ==> values_unique(written_all(entries)),
    decreases entries.len(),
{
    if entries.len() > 0 {
        let front = entries.drop_last();
        lemma_written_all_unique(front);
        lemma_written_unique(written_all(front), entries.last().0, entries.last().1);
        if values_unique(entries) {
            assert forall|i: int| 0 <= i < front.len() implies unique_keys(
                (#[trigger] front[i]).1,
            ) by {
                assert(front[i] == entries[i]);
            }
            assert(unique_keys(entries[entries.len() - 1].1));
        }
    }
}

/// A merged document is well formed: no object in it holds a key twice.
pub proof fn lemma_merged_unique(doc: Json)
    ensures
        unique_keys(merged(doc)),
    decreases doc,
{
    match doc {
        Json::Array(items) => {
            let out = merged_items(items);
            assert forall|i: int| 0 <= i < out.len() implies unique_keys(#[trigger] out[i]) by {
                lemma_merged_unique(items[i]);
            }
        },
        Json::Object(entries) => {
            let inner = merged_entries(entries);
            assert forall|i: int| 0 <= i < inner.len() implies unique_keys(
                (#[trigger] inner[i]).1,
            ) by {
                lemma_merged_unique(entries[i].1);
            }
            lemma_written_all_unique(inner);
        },
        _ => {},
    }
}

/// Writing entries with distinct keys one after the other gives those entries.
pub proof fn lemma_written_all_fixed(entries: Seq<(Seq<char>, Json)>)
    requires
        distinct_keys(entries),
    ensures
        written_all(entries) == entries,
    decreases entries.len(),
{
    if entries.len() > 0 {
        let front = entries.drop_last();
        assert forall|i: int, j: int| 0 <= i < j < front.len() implies (#[trigger] front[i]).0 != (
        #[trigger] front[j]).0 by {
            assert(front[i] == entries[i] && front[j] == entries[j]);
        }
        lemma_written_all_fixed(front);
        assert forall|j: int| 0 <= j < front.len() implies (#[trigger] front[j]).0
            != entries.last().0 by {
            assert(front[j] == entries[j]);
        }
        lemma_written_at(front, entries.last().0, entries.last().1, front.len() as int);
        assert(front.push(entries.last()) =~= entries);
    } else {
        assert(written_all(entries) =~= entries);
    }
}

/// Merging changes nothing in a well-formed document.
pub proof fn lemma_merged_fixed(doc: Json)
    requires
        unique_keys(doc),
    ensures
        merged(doc) == doc,
    decreases doc,
{
    match doc {
        Json::Array(items) => {
            assert forall|i: int| 0 <= i < items.len() implies #[trigger] merged_items(items)[i]
                == items[i] by {
                lemma_merged_fixed(items[i]);
            }
            assert(merged_items(items) =~= items);
        },
        Json::Object(entries) => {
            assert forall|i: int| 0 <= i < entries.len() implies #[trigger] merged_entries(
                entries,
            )[i] == entries[i] by {
                assert(unique_keys(entries[i].1));
                lemma_merged_fixed(entries[i].1);
            }
            assert(merged_entries(entries) =~= entries);
            lemma_written_all_fixed(entries);
        },
        _ => {},
    }
}

/// Whether the key of the entry at `at` occurs again behind it.
fn key_repeats(entries: &Vec<(String, Document)>, at: usize) -> (r: bool)
    requires
        at < entries.len(),
    ensures
        r == exists|j: int| at < j < entries.len() && entries@[j].0@ == entries@[at as int].0@,
{
    let mut j: usize = at + 1;
    while j < entries.len()
        invariant
            at < j <= entries.len(),
            forall|k: int| at < k < j ==> entries@[k].0@ != entries@[at as int].0@,
        decreases entries.len() - j,
    {
        if entries[j].0 == entries[at].0 {
            return true;
        }
        j += 1;
    }
    false
}

/// Decides whether a document is well formed: whether no object in it holds a key twice.
pub fn has_unique_keys(doc: &Document) -> (r: bool)
    ensures
        r == doc.wf(),
    decreases doc,
{
    match doc {
        Document::Array(items) => {
            proof {
                lemma_array_view(*items);
            }
            let mut i: usize = 0;
            while i < items.len()
                invariant
                    i <= items.len(),
                    *doc == Document::Array(*items),
                    doc@ == Json::Array(items_view(items@)),
                    forall|k: int| 0 <= k < i ==> unique_keys(#[trigger] items_view(items@)[k]),
                decreases items.len() - i,
            {
                assert(decreases_to!(*items => items[i as int]));
                assert(decreases_to!(*doc => doc->Array_0));
                if !has_unique_keys(&items[i]) {
                    proof {
                        let viewed = items_view(items@);
                        assert(!unique_keys(viewed[i as int]));
                        assert(Json::Array(viewed)->Array_0 == viewed);
                    }
                    return false;
                }
                i += 1;
            }
            true
        },
        Document::Object(entries) => {
            proof {
                lemma_object_view(*entries);
            }
            let mut i: usize = 0;
            while i < entries.len()
                invariant
                    i <= entries.len(),
                    *doc == Document::Object(*entries),
                    doc@ == Json::Object(entries_view(entries@)),
                    forall|k: int|
                        0 <= k < i ==> unique_keys((#[trigger] entries_view(entries@)[k]).1),
                    forall|a: int, b: int|
                        0 <= a < i && a < b < entries.len() ==> (#[trigger] entries_view(
                            entries@,
                        )[a]).0 != (#[trigger] entries_view(entries@)[b]).0,
                decreases entries.len() - i,
            {
                if key_repeats(entries, i) {
                    proof {
                        let j = choose|j: int|
                            i < j < entries.len() && entries@[j].0@ == entries@[i as int].0@;
                        assert(entries_view(entries@)[i as int].0 == entries_view(entries@)[j].0);
                    }
                    return false;
                }
                assert(decreases_to!(*entries => entries[i as int]));
                assert(decreases_to!(*doc => doc->Object_0));
                assert(decreases_to!(entries[i as int] => entries[i as int].1));
                if !has_unique_keys(&entries[i].1) {
                    assert(!unique_keys(entries_view(entries@)[i as int].1));
                    return false;
                }
                assert forall|b: int| i < b < entries.len() implies (#[trigger] entries_view(
                    entries@,
                )[b]).0 != entries_view(entries@)[i as int].0 by {
                    assert(entries@[b].0@ != entries@[i as int].0@);
                }
                i += 1;
            }
            true
        },
        _ => true,
    }
}

/// Writes one entry to the entries of an object.
pub fn write_entry(entries: &mut Vec<(String, Document)>, key: String, value: Document)
    ensures
        entries_view(final(entries)@) == written(entries_view(old(entries)@), key@, value@),
{
    let mut at: usize = 0;
    loop
        invariant
            *entries == *old(entries),
            at <= entries.len(),
            forall|j: int| 0 <= j < at ==> (#[trigger] entries_view(entries@)[j]).0 != key@,
        ensures
            at <= entries.len(),
            at < entries.len() ==> entries_view(entries@)[at as int].0 == key@,
        decreases entries.len() - at,
    {
        if at >= entries.len() {
            break ;
        }
        if entries[at].0 == key {
            break ;
        }
        at += 1;
    }
    proof {
        lemma_written_at(entries_view(entries@), key@, value@, at as int);
    }
    if at < entries.len() {
        entries.set(at, (key, value));
        assert(entries_view(entries@) =~= entries_view(old(entries)@).update(
            at as int,
            (key@, value@),
        ));
    } else {
        entries.push((key, value));
        assert(entries_view(entries@) =~= entries_view(old(entries)@).push((key@, value@)));
    }
}

/// Merges a document: rebuilds every object in it entry by entry.
pub fn merge(doc: Document) -> (r: Document)
    ensures
        r@ == merged(doc@),
        r.wf(),
    decreases doc,
{
    proof {
        lemma_merged_unique(doc@);
    }
    match doc {
        Document::Array(items) => {
            let mut rest = items;
            let mut turned: Vec<Document> = Vec::new();
            while rest.len() > 0
                invariant
                    rest@.len() + turned@.len() == items@.len(),
                    forall|i: int| 0 <= i < rest@.len() ==> rest@[i] == items@[i],
                    forall|j: int|
                        0 <= j < turned@.len() ==> (#[trigger] turned@[j])@ == merged(
                            items@[items@.len() - 1 - j]@,
                        ),
                    doc == Document::Array(items),
                decreases rest@.len(),
            {
                let ghost before = rest@.len() as int;
                let item = rest.pop().unwrap();
                assert(item == items[before - 1]);
                assert(decreases_to!(items => items[before - 1]));
                assert(decreases_to!(doc => doc->Array_0));
                turned.push(merge(item));
            }
            let out = reversed(turned);
            proof {
                lemma_array_view(items);
                lemma_array_view(out);
                assert(items_view(out@) =~= merged_items(items_view(items@)));
            }
            Document::Array(out)
        },
        Document::Object(entries) => {
            let ghost inner = merged_entries(entries_view(entries@));
            let mut rest = entries;
            let mut turned: Vec<(String, Document)> = Vec::new();
            while rest.len() > 0
                invariant
                    rest@.len() + turned@.len() == entries@.len(),
                    forall|i: int| 0 <= i < rest@.len() ==> rest@[i] == entries@[i],
                    inner == merged_entries(entries_view(entries@)),
                    forall|j: int|
                        0 <= j < turned@.len() ==> entry_view(#[trigger] turned@[j])
                            == inner[entries@.len() - 1 - j],
                    doc == Document::Object(entries),
                decreases rest@.len(),
            {
                let ghost before = rest@.len() as int;
                let entry = rest.pop().unwrap();
                assert(entry == entries[before - 1]);
                assert(decreases_to!(entries => entries[before - 1]));
                assert(decreases_to!(doc => doc->Object_0));
                assert(decreases_to!(entry => entry.1));
                let value = merge(entry.1);
                turned.push((entry.0, value));
            }
            let mut out: Vec<(String, Document)> = Vec::new();
            assert(inner.subrange(0, 0) =~= Seq::empty());
            while turned.len() > 0
                invariant
                    turned@.len() <= entries@.len(),
                    inner.len() == entries@.len(),
                    forall|j: int|
                        0 <= j < turned@.len() ==> entry_view(#[trigger] turned@[j])
                            == inner[entries@.len() - 1 - j],
                    entries_view(out@) == written_all(
                        inner.subrange(0, entries@.len() - turned@.len()),
                    ),
                decreases turned@.len(),
            {
                let ghost done = entries@.len() - turned@.len();
                let entry = turned.pop().unwrap();
                assert(entry_view(entry) == inner[done]);
                write_entry(&mut out, entry.0, entry.1);
                proof {
                    let upto = inner.subrange(0, done + 1);
                    assert(upto.drop_last() =~= inner.subrange(0, done));
                    assert(upto.last() == inner[done]);
                }
            }
            proof {
                lemma_object_view(entries);
                lemma_object_view(out);
                assert(inner.subrange(0, entries@.len() as int) =~= inner);
            }
            Document::Object(out)
        },
        other => other,
    }
}

} // verus!
