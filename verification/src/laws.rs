//! What holds of the operations, proved from their definitions.

use vstd::prelude::*;
use crate::codec::{compact_text, parsed_text, pretty_text};
use crate::embedded::{embedded_in, unwrapped, unwrapped_entries, unwrapped_items};
use crate::json::{
    compressed, formatted, parsed_content, recur_formatted, sort_formatted, stringified,
};
use crate::keys::lemma_merged_unique;
use crate::order::{bytes_before_from, entry_before, in_order, placed, stable_sorted, text_before};
use crate::sorter::{canonical, canonical_entries, keyed_items, unkeyed};
use crate::text::parsed_document;
use crate::value::{distinct_keys, unique_keys, Json};

verus! {

/// The byte order never puts two texts each before the other.
pub proof fn lemma_bytes_asymmetric(a: Seq<u8>, b: Seq<u8>, from: int)
    requires
        0 <= from,
    ensures
        !(bytes_before_from(a, b, from) && bytes_before_from(b, a, from)),
    decreases a.len() - from,
{
    if from < a.len() && from < b.len() && a[from] == b[from] {
        lemma_bytes_asymmetric(a, b, from + 1);
    }
}

/// If `a` is not behind `b` and `b` is not behind `c`, then `a` is not behind `c`.
pub proof fn lemma_bytes_chain(a: Seq<u8>, b: Seq<u8>, c: Seq<u8>, from: int)
    requires
        0 <= from,
        !bytes_before_from(b, a, from),
        !bytes_before_from(c, b, from),
    ensures
        !bytes_before_from(c, a, from),
    decreases a.len() - from,
{
    if from < a.len() && from < b.len() && from < c.len() && a[from] == b[from] && b[from]
        == c[from] {
        lemma_bytes_chain(a, b, c, from + 1);
    }
}

/// The order of entries never puts two entries each before the other.
pub proof fn lemma_entry_asymmetric(a: (Seq<char>, Json), b: (Seq<char>, Json), ranked: bool)
    ensures
        !(entry_before(a, b, ranked) && entry_before(b, a, ranked)),
{
    lemma_bytes_asymmetric(vstd::utf8::encode_utf8(a.0), vstd::utf8::encode_utf8(b.0), 0);
}

/// If `a` need not stand behind `b`, nor `b` behind `c`, then `a` need not stand behind `c`.
pub proof fn lemma_entry_chain(
    a: (Seq<char>, Json),
    b: (Seq<char>, Json),
    c: (Seq<char>, Json),
    ranked: bool,
)
    requires
        !entry_before(b, a, ranked),
        !entry_before(c, b, ranked),
    ensures
        !entry_before(c, a, ranked),
{
    let x = vstd::utf8::encode_utf8(a.0);
    let y = vstd::utf8::encode_utf8(b.0);
    let z = vstd::utf8::encode_utf8(c.0);
    if !text_before(b.0, a.0) && !text_before(c.0, b.0) {
        lemma_bytes_chain(x, y, z, 0);
    }
}

/// What a list with one more entry in front holds.
pub proof fn lemma_front_contains(
    head: (Seq<char>, Json),
    tail: Seq<(Seq<char>, Json)>,
    x: (Seq<char>, Json),
)
    ensures
        (seq![head] + tail).contains(x) <==> (x == head || tail.contains(x)),
{
    let whole = seq![head] + tail;
    if whole.contains(x) {
        let i = choose|i: int| 0 <= i < whole.len() && whole[i] == x;
        if i > 0 {
            assert(tail[i - 1] == x);
        }
    }
    if x == head {
        assert(whole[0] == x);
    }
    if tail.contains(x) {
        let j = choose|j: int| 0 <= j < tail.len() && tail[j] == x;
        assert(whole[j + 1] == x);
    }
}

/// Placing an entry keeps every entry and adds the one placed, and nothing else.
pub proof fn lemma_placed_contains(
    entry: (Seq<char>, Json),
    sorted: Seq<(Seq<char>, Json)>,
    ranked: bool,
    x: (Seq<char>, Json),
)
    ensures
        placed(entry, sorted, ranked).len() == sorted.len() + 1,
        placed(entry, sorted, ranked).contains(x) <==> (x == entry || sorted.contains(x)),
    decreases sorted.len(),
{
    if sorted.len() > 0 && entry_before(sorted.first(), entry, ranked) {
        let rest = sorted.drop_first();
        lemma_placed_contains(entry, rest, ranked, x);
        lemma_front_contains(sorted.first(), placed(entry, rest, ranked), x);
        lemma_front_contains(sorted.first(), rest, x);
        assert(seq![sorted.first()] + rest =~= sorted);
    } else {
        lemma_front_contains(entry, sorted, x);
    }
}

/// Sorting neither drops nor invents an entry.
pub proof fn lemma_sorted_contains(
    entries: Seq<(Seq<char>, Json)>,
    ranked: bool,
    x: (Seq<char>, Json),
)
    ensures
        stable_sorted(entries, ranked).len() == entries.len(),
        stable_sorted(entries, ranked).contains(x) <==> entries.contains(x),
    decreases entries.len(),
{
    if entries.len() > 0 {
        let rest = entries.drop_first();
        lemma_sorted_contains(rest, ranked, x);
        lemma_placed_contains(entries.first(), stable_sorted(rest, ranked), ranked, x);
        lemma_front_contains(entries.first(), rest, x);
        assert(seq![entries.first()] + rest =~= entries);
    }
}

/// A list with one more entry in front holds that entry once more, and the others as before.
pub proof fn lemma_front_permutes(head: (Seq<char>, Json), tail: Seq<(Seq<char>, Json)>)
    ensures
        (seq![head] + tail).to_multiset() == tail.to_multiset().insert(head),
{
    vstd::seq_lib::lemma_seq_union_to_multiset_commutative(seq![head], tail);
    assert(tail + seq![head] =~= tail.push(head));
    vstd::seq_lib::to_multiset_build(tail, head);
}

/// Placing an entry adds it once and leaves every other entry as often as it was there.
pub proof fn lemma_placed_permutes(
    entry: (Seq<char>, Json),
    sorted: Seq<(Seq<char>, Json)>,
    ranked: bool,
)
    ensures
        placed(entry, sorted, ranked).to_multiset() == sorted.to_multiset().insert(entry),
    decreases sorted.len(),
{
    broadcast use vstd::multiset::group_multiset_axioms;

    if sorted.len() > 0 && entry_before(sorted.first(), entry, ranked) {
        let rest = sorted.drop_first();
        lemma_placed_permutes(entry, rest, ranked);
        lemma_front_permutes(sorted.first(), placed(entry, rest, ranked));
        lemma_front_permutes(sorted.first(), rest);
        assert(seq![sorted.first()] + rest =~= sorted);
        assert(placed(entry, sorted, ranked).to_multiset() =~= sorted.to_multiset().insert(entry));
    } else {
        lemma_front_permutes(entry, sorted);
    }
}

/// Sorting only reorders: every entry is in the result as often as it is in the input.
pub proof fn lemma_sorted_permutes(entries: Seq<(Seq<char>, Json)>, ranked: bool)
    ensures
        stable_sorted(entries, ranked).to_multiset() == entries.to_multiset(),
    decreases entries.len(),
{
    if entries.len() > 0 {
        let rest = entries.drop_first();
        lemma_sorted_permutes(rest, ranked);
        lemma_placed_permutes(entries.first(), stable_sorted(rest, ranked), ranked);
        lemma_front_permutes(entries.first(), rest);
        assert(seq![entries.first()] + rest =~= entries);
    } else {
        assert(stable_sorted(entries, ranked) =~= entries);
    }
}

/// Placing an entry into a list that is in order leaves the list in order.
pub proof fn lemma_placed_in_order(
    entry: (Seq<char>, Json),
    sorted: Seq<(Seq<char>, Json)>,
    ranked: bool,
)
    requires
        in_order(sorted, ranked),
    ensures
        in_order(placed(entry, sorted, ranked), ranked),
    decreases sorted.len(),
{
    let out = placed(entry, sorted, ranked);
    if sorted.len() > 0 && entry_before(sorted.first(), entry, ranked) {
        let rest = sorted.drop_first();
        let inner = placed(entry, rest, ranked);
        assert forall|i: int, j: int| 0 <= i < j < rest.len() implies !entry_before(
            #[trigger] rest[j],
            #[trigger] rest[i],
            ranked,
        ) by {
            assert(rest[i] == sorted[i + 1] && rest[j] == sorted[j + 1]);
        }
        lemma_placed_in_order(entry, rest, ranked);
        assert forall|i: int, j: int| 0 <= i < j < out.len() implies !entry_before(
            #[trigger] out[j],
            #[trigger] out[i],
            ranked,
        ) by {
            if i == 0 {
                let e = inner[j - 1];
                assert(out[j] == e);
                lemma_placed_contains(entry, rest, ranked, e);
                if e == entry {
                    lemma_entry_asymmetric(sorted.first(), entry, ranked);
                } else {
                    let k = choose|k: int| 0 <= k < rest.len() && rest[k] == e;
                    assert(e == sorted[k + 1]);
                }
            } else {
                assert(out[i] == inner[i - 1] && out[j] == inner[j - 1]);
            }
        }
    } else {
        assert forall|i: int, j: int| 0 <= i < j < out.len() implies !entry_before(
            #[trigger] out[j],
            #[trigger] out[i],
            ranked,
        ) by {
            if i == 0 {
                assert(out[j] == sorted[j - 1]);
                if j - 1 > 0 {
                    lemma_entry_chain(entry, sorted[0], sorted[j - 1], ranked);
                }
            } else {
                assert(out[i] == sorted[i - 1] && out[j] == sorted[j - 1]);
            }
        }
    }
}

/// A sorted list is in order.
pub proof fn lemma_sorted_in_order(entries: Seq<(Seq<char>, Json)>, ranked: bool)
    ensures
        in_order(stable_sorted(entries, ranked), ranked),
    decreases entries.len(),
{
    if entries.len() > 0 {
        lemma_sorted_in_order(entries.drop_first(), ranked);
        lemma_placed_in_order(entries.first(), stable_sorted(entries.drop_first(), ranked), ranked);
    }
}

/// Sorting a list that is in order changes nothing.
pub proof fn lemma_sorted_fixed(entries: Seq<(Seq<char>, Json)>, ranked: bool)
    requires
        in_order(entries, ranked),
    ensures
        stable_sorted(entries, ranked) == entries,
    decreases entries.len(),
{
    if entries.len() > 0 {
        let rest = entries.drop_first();
        assert forall|i: int, j: int| 0 <= i < j < rest.len() implies !entry_before(
            #[trigger] rest[j],
            #[trigger] rest[i],
            ranked,
        ) by {
            assert(rest[i] == entries[i + 1] && rest[j] == entries[j + 1]);
        }
        lemma_sorted_fixed(rest, ranked);
        if rest.len() > 0 {
            assert(rest.first() == entries[1]);
            assert(!entry_before(entries[1], entries[0], ranked));
        }
        assert(seq![entries.first()] + rest =~= entries);
    } else {
        assert(stable_sorted(entries, ranked) =~= entries);
    }
}

/// Neither of two entries has to stand before the other.
pub open spec fn tied(a: (Seq<char>, Json), b: (Seq<char>, Json), ranked: bool) -> bool {
    !entry_before(a, b, ranked) && !entry_before(b, a, ranked)
}

/// Placing an entry puts it in front of the entries that it is tied with.
pub proof fn lemma_placed_stable(
    entry: (Seq<char>, Json),
    sorted: Seq<(Seq<char>, Json)>,
    ranked: bool,
    with: (Seq<char>, Json),
    ties: spec_fn((Seq<char>, Json)) -> bool,
)
    requires
        forall|e: (Seq<char>, Json)| #[trigger] ties(e) == tied(e, with, ranked),
    ensures
        placed(entry, sorted, ranked).filter(ties) == (if ties(entry) {
            seq![entry]
        } else {
            Seq::empty()
        }) + sorted.filter(ties),
    decreases sorted.len(),
{
    if sorted.len() > 0 && entry_before(sorted.first(), entry, ranked) {
        let first = sorted.first();
        let rest = sorted.drop_first();
        lemma_placed_stable(entry, rest, ranked, with, ties);
        placed(entry, rest, ranked).lemma_filter_prepend(first, ties);
        rest.lemma_filter_prepend(first, ties);
        assert(seq![first] + rest =~= sorted);
        if ties(entry) && ties(first) {
            lemma_entry_chain(entry, with, first, ranked);
        }
        assert(placed(entry, sorted, ranked).filter(ties) =~= (if ties(entry) {
            seq![entry]
        } else {
            Seq::empty()
        }) + sorted.filter(ties));
    } else {
        sorted.lemma_filter_prepend(entry, ties);
    }
}

/// Sorting is stable: the entries that are tied with a given one come out in the order in
/// which they went in.
pub proof fn lemma_sorted_stable(
    entries: Seq<(Seq<char>, Json)>,
    ranked: bool,
    with: (Seq<char>, Json),
    ties: spec_fn((Seq<char>, Json)) -> bool,
)
    requires
        forall|e: (Seq<char>, Json)| #[trigger] ties(e) == tied(e, with, ranked),
    ensures
        stable_sorted(entries, ranked).filter(ties) == entries.filter(ties),
    decreases entries.len(),
{
    if entries.len() > 0 {
        let rest = entries.drop_first();
        lemma_sorted_stable(rest, ranked, with, ties);
        lemma_placed_stable(entries.first(), stable_sorted(rest, ranked), ranked, with, ties);
        rest.lemma_filter_prepend(entries.first(), ties);
        assert(seq![entries.first()] + rest =~= entries);
    } else {
        assert(stable_sorted(entries, ranked) =~= entries);
    }
}

/// In the canonical form of an object no entry stands behind one that it must stand before:
/// strings come first, then null, numbers, booleans, objects and arrays, and within one kind
/// the entries stand by key. In the canonical form of an array the items stand by their
/// sort text.
pub proof fn lemma_canonical_in_order(doc: Json)
    ensures
        doc matches Json::Object(entries) ==> canonical(doc) == Json::Object(
            stable_sorted(canonical_entries(entries), true),
        ) && in_order(stable_sorted(canonical_entries(entries), true), true),
        doc matches Json::Array(items) ==> canonical(doc) == Json::Array(
            unkeyed(stable_sorted(keyed_items(items), false)),
        ) && in_order(stable_sorted(keyed_items(items), false), false),
{
    match doc {
        Json::Object(entries) => lemma_sorted_in_order(canonical_entries(entries), true),
        Json::Array(items) => lemma_sorted_in_order(keyed_items(items), false),
        _ => {},
    }
}

/// Canonical sorting is idempotent: the canonical form of a canonical form is that form.
pub proof fn lemma_canonical_idempotent(doc: Json)
    ensures
        canonical(canonical(doc)) == canonical(doc),
    decreases doc,
{
    match doc {
        Json::Array(items) => {
            let keyed = keyed_items(items);
            let sorted = stable_sorted(keyed, false);
            let out = unkeyed(sorted);
            lemma_sorted_in_order(keyed, false);
            assert forall|i: int| 0 <= i < out.len() implies #[trigger] keyed_items(out)[i]
                == sorted[i] by {
                lemma_sorted_contains(keyed, false, sorted[i]);
                let j = choose|j: int| 0 <= j < keyed.len() && keyed[j] == sorted[i];
                lemma_canonical_idempotent(items[j]);
            }
            assert(keyed_items(out) =~= sorted);
            lemma_sorted_fixed(sorted, false);
        },
        Json::Object(entries) => {
            let inner = canonical_entries(entries);
            let sorted = stable_sorted(inner, true);
            lemma_sorted_in_order(inner, true);
            assert forall|i: int| 0 <= i < sorted.len() implies #[trigger] canonical_entries(
                sorted,
            )[i] == sorted[i] by {
                lemma_sorted_contains(inner, true, sorted[i]);
                let j = choose|j: int| 0 <= j < inner.len() && inner[j] == sorted[i];
                lemma_canonical_idempotent(entries[j].1);
            }
            assert(canonical_entries(sorted) =~= sorted);
            lemma_sorted_fixed(sorted, true);
        },
        _ => {},
    }
}

/// Whether two documents are the same but for the order in which their objects list their
/// entries. Objects are compared key by key, and hold no key twice; arrays item by item, in
/// order; scalars by value.
pub open spec fn same_but_for_key_order(a: Json, b: Json) -> bool
    decreases a,
{
    match a {
        Json::Array(xs) => {
            &&& b is Array
            &&& xs.len() == b->Array_0.len()
            &&& forall|i: int|
                0 <= i < xs.len() ==> same_but_for_key_order(#[trigger] xs[i], b->Array_0[i])
        },
        Json::Object(es) => {
            &&& b is Object
            &&& distinct_keys(es)
            &&& distinct_keys(b->Object_0)
            &&& forall|i: int|
                0 <= i < es.len() ==> exists|j: int|
                    0 <= j < b->Object_0.len() && (#[trigger] b->Object_0[j]).0 == (
                    #[trigger] es[i]).0 && same_but_for_key_order(es[i].1, b->Object_0[j].1)
            &&& forall|j: int|
                0 <= j < b->Object_0.len() ==> exists|i: int|
                    0 <= i < es.len() && (#[trigger] es[i]).0 == (#[trigger] b->Object_0[j]).0
                        && same_but_for_key_order(es[i].1, b->Object_0[j].1)
        },
        _ => a == b,
    }
}

/// Of two different byte strings that agree up to `from`, one comes before the other.
pub proof fn lemma_bytes_total(a: Seq<u8>, b: Seq<u8>, from: int)
    requires
        0 <= from <= a.len(),
        from <= b.len(),
        forall|k: int| 0 <= k < from ==> a[k] == b[k],
        a != b,
    ensures
        bytes_before_from(a, b, from) || bytes_before_from(b, a, from),
    decreases a.len() - from,
{
    if from < a.len() && from < b.len() {
        if a[from] == b[from] {
            lemma_bytes_total(a, b, from + 1);
        }
    } else if from == a.len() && from == b.len() {
        assert(a =~= b);
    }
}

/// Of two entries with different keys, one must stand before the other.
pub proof fn lemma_entry_total(a: (Seq<char>, Json), b: (Seq<char>, Json), ranked: bool)
    requires
        a.0 != b.0,
    ensures
        entry_before(a, b, ranked) || entry_before(b, a, ranked),
{
    let x = vstd::utf8::encode_utf8(a.0);
    let y = vstd::utf8::encode_utf8(b.0);
    vstd::utf8::encode_utf8_decode_utf8(a.0);
    vstd::utf8::encode_utf8_decode_utf8(b.0);
    lemma_bytes_total(x, y, 0);
}

/// Placing an entry under a new key leaves the keys distinct.
pub proof fn lemma_placed_distinct(
    entry: (Seq<char>, Json),
    sorted: Seq<(Seq<char>, Json)>,
    ranked: bool,
)
    requires
        distinct_keys(sorted),
        forall|j: int| 0 <= j < sorted.len() ==> (#[trigger] sorted[j]).0 != entry.0,
    ensures
        distinct_keys(placed(entry, sorted, ranked)),
    decreases sorted.len(),
{
    let out = placed(entry, sorted, ranked);
    if sorted.len() > 0 && entry_before(sorted.first(), entry, ranked) {
        let rest = sorted.drop_first();
        let inner = placed(entry, rest, ranked);
        assert forall|i: int, j: int| 0 <= i < j < rest.len() implies (#[trigger] rest[i]).0 != (
        #[trigger] rest[j]).0 by {
            assert(rest[i] == sorted[i + 1] && rest[j] == sorted[j + 1]);
        }
        assert forall|j: int| 0 <= j < rest.len() implies (#[trigger] rest[j]).0 != entry.0 by {
            assert(rest[j] == sorted[j + 1]);
        }
        lemma_placed_distinct(entry, rest, ranked);
        assert forall|i: int, j: int| 0 <= i < j < out.len() implies (#[trigger] out[i]).0 != (
        #[trigger] out[j]).0 by {
            if i == 0 {
                let e = inner[j - 1];
                assert(out[j] == e);
                assert(out[0] == sorted[0]);
                lemma_placed_contains(entry, rest, ranked, e);
                if e != entry {
                    let k = choose|k: int| 0 <= k < rest.len() && rest[k] == e;
                    assert(e == sorted[k + 1]);
                }
            } else {
                assert(out[i] == inner[i - 1] && out[j] == inner[j - 1]);
            }
        }
    } else {
        assert forall|i: int, j: int| 0 <= i < j < out.len() implies (#[trigger] out[i]).0 != (
        #[trigger] out[j]).0 by {
            assert(out[j] == sorted[j - 1]);
            if i > 0 {
                assert(out[i] == sorted[i - 1]);
            }
        }
    }
}

/// Sorting leaves the keys distinct.
pub proof fn lemma_sorted_distinct(entries: Seq<(Seq<char>, Json)>, ranked: bool)
    requires
        distinct_keys(entries),
    ensures
        distinct_keys(stable_sorted(entries, ranked)),
    decreases entries.len(),
{
    if entries.len() > 0 {
        let rest = entries.drop_first();
        let inner = stable_sorted(rest, ranked);
        assert forall|i: int, j: int| 0 <= i < j < rest.len() implies (#[trigger] rest[i]).0 != (
        #[trigger] rest[j]).0 by {
            assert(rest[i] == entries[i + 1] && rest[j] == entries[j + 1]);
        }
        lemma_sorted_distinct(rest, ranked);
        assert forall|j: int| 0 <= j < inner.len() implies (#[trigger] inner[j]).0
            != entries.first().0 by {
            lemma_sorted_contains(rest, ranked, inner[j]);
            let k = choose|k: int| 0 <= k < rest.len() && rest[k] == inner[j];
            assert(inner[j] == entries[k + 1]);
        }
        lemma_placed_distinct(entries.first(), inner, ranked);
    }
}

/// Two lists in order that hold the same entries, each key once, are the same list.
pub proof fn lemma_in_order_unique(
    s: Seq<(Seq<char>, Json)>,
    t: Seq<(Seq<char>, Json)>,
    ranked: bool,
)
    requires
        in_order(s, ranked),
        in_order(t, ranked),
        distinct_keys(s),
        distinct_keys(t),
        forall|i: int| 0 <= i < s.len() ==> t.contains(#[trigger] s[i]),
        forall|j: int| 0 <= j < t.len() ==> s.contains(#[trigger] t[j]),
    ensures
        s == t,
    decreases s.len(),
{
    if s.len() == 0 {
        if t.len() > 0 {
            assert(s.contains(t[0]));
        }
        assert(s =~= t);
    } else {
        assert(t.contains(s[0]));
        let k = choose|k: int| 0 <= k < t.len() && t[k] == s[0];
        assert(s.contains(t[0]));
        let m = choose|m: int| 0 <= m < s.len() && s[m] == t[0];
        if k > 0 {
            if m > 0 {
                assert(!entry_before(t[k], t[0], ranked));
                assert(!entry_before(s[m], s[0], ranked));
                assert(s[0].0 != s[m].0);
                lemma_entry_total(s[0], t[0], ranked);
            }
            assert(false);
        }
        assert(s[0] == t[0]);
        let s1 = s.drop_first();
        let t1 = t.drop_first();
        assert forall|i: int, j: int| 0 <= i < j < s1.len() implies !entry_before(
            #[trigger] s1[j],
            #[trigger] s1[i],
            ranked,
        ) && s1[i].0 != s1[j].0 by {
            assert(s1[i] == s[i + 1] && s1[j] == s[j + 1]);
        }
        assert forall|i: int, j: int| 0 <= i < j < t1.len() implies !entry_before(
            #[trigger] t1[j],
            #[trigger] t1[i],
            ranked,
        ) && t1[i].0 != t1[j].0 by {
            assert(t1[i] == t[i + 1] && t1[j] == t[j + 1]);
        }
        assert forall|i: int| 0 <= i < s1.len() implies t1.contains(#[trigger] s1[i]) by {
            assert(s1[i] == s[i + 1]);
            assert(t.contains(s[i + 1]));
            let q = choose|q: int| 0 <= q < t.len() && t[q] == s[i + 1];
            assert(s[0].0 != s[i + 1].0);
            assert(t1[q - 1] == s1[i]);
        }
        assert forall|j: int| 0 <= j < t1.len() implies s1.contains(#[trigger] t1[j]) by {
            assert(t1[j] == t[j + 1]);
            assert(s.contains(t[j + 1]));
            let q = choose|q: int| 0 <= q < s.len() && s[q] == t[j + 1];
            assert(t[0].0 != t[j + 1].0);
            assert(s1[q - 1] == t1[j]);
        }
        lemma_in_order_unique(s1, t1, ranked);
        assert(s =~= seq![s[0]] + s1);
        assert(t =~= seq![t[0]] + t1);
    }
}

/// Two lists that hold the same entries, each key once, are the same list once sorted.
pub proof fn lemma_sorted_same(
    ce: Seq<(Seq<char>, Json)>,
    cf: Seq<(Seq<char>, Json)>,
    ranked: bool,
)
    requires
        distinct_keys(ce),
        distinct_keys(cf),
        forall|i: int| 0 <= i < ce.len() ==> cf.contains(#[trigger] ce[i]),
        forall|j: int| 0 <= j < cf.len() ==> ce.contains(#[trigger] cf[j]),
    ensures
        stable_sorted(ce, ranked) == stable_sorted(cf, ranked),
{
    let s = stable_sorted(ce, ranked);
    let t = stable_sorted(cf, ranked);
    lemma_sorted_in_order(ce, ranked);
    lemma_sorted_in_order(cf, ranked);
    lemma_sorted_distinct(ce, ranked);
    lemma_sorted_distinct(cf, ranked);
    assert forall|i: int| 0 <= i < s.len() implies t.contains(#[trigger] s[i]) by {
        lemma_sorted_contains(ce, ranked, s[i]);
        let k = choose|k: int| 0 <= k < ce.len() && ce[k] == s[i];
        assert(cf.contains(ce[k]));
        lemma_sorted_contains(cf, ranked, s[i]);
    }
    assert forall|j: int| 0 <= j < t.len() implies s.contains(#[trigger] t[j]) by {
        lemma_sorted_contains(cf, ranked, t[j]);
        let k = choose|k: int| 0 <= k < cf.len() && cf[k] == t[j];
        assert(ce.contains(cf[k]));
        lemma_sorted_contains(ce, ranked, t[j]);
    }
    lemma_in_order_unique(s, t, ranked);
}

/// The values of an object in canonical form keep their keys.
pub proof fn lemma_canonical_entries_keys(entries: Seq<(Seq<char>, Json)>)
    requires
        distinct_keys(entries),
    ensures
        distinct_keys(canonical_entries(entries)),
{
    let ce = canonical_entries(entries);
    assert forall|i: int, j: int| 0 <= i < j < ce.len() implies (#[trigger] ce[i]).0 != (
    #[trigger] ce[j]).0 by {
        assert(entries[i].0 != entries[j].0);
    }
}

/// Canonical sorting does not depend on the order in which objects list their entries: two
/// documents that are the same but for that order have the same canonical form.
pub proof fn lemma_canonical_order_invariant(a: Json, b: Json)
    requires
        same_but_for_key_order(a, b),
    ensures
        canonical(a) == canonical(b),
    decreases a,
{
    match a {
        Json::Array(xs) => {
            let ys = b->Array_0;
            assert forall|i: int| 0 <= i < xs.len() implies #[trigger] keyed_items(xs)[i]
                == keyed_items(ys)[i] by {
                assert(same_but_for_key_order(xs[i], ys[i]));
                lemma_canonical_order_invariant(xs[i], ys[i]);
            }
            assert(keyed_items(xs) =~= keyed_items(ys));
        },
        Json::Object(es) => {
            let fs = b->Object_0;
            let ce = canonical_entries(es);
            let cf = canonical_entries(fs);
            lemma_canonical_entries_keys(es);
            lemma_canonical_entries_keys(fs);
            assert forall|i: int| 0 <= i < ce.len() implies cf.contains(#[trigger] ce[i]) by {
                let e = es[i];
                let j = choose|j: int|
                    0 <= j < fs.len() && (#[trigger] fs[j]).0 == e.0 && same_but_for_key_order(
                        e.1,
                        fs[j].1,
                    );
                lemma_canonical_order_invariant(es[i].1, fs[j].1);
                assert(cf[j] == ce[i]);
            }
            assert forall|j: int| 0 <= j < cf.len() implies ce.contains(#[trigger] cf[j]) by {
                let f = fs[j];
                let i = choose|i: int|
                    0 <= i < es.len() && (#[trigger] es[i]).0 == f.0 && same_but_for_key_order(
                        es[i].1,
                        f.1,
                    );
                lemma_canonical_order_invariant(es[i].1, fs[j].1);
                assert(ce[i] == cf[j]);
            }
            lemma_sorted_same(ce, cf, true);
        },
        _ => {},
    }
}

/// Canonical sorting keeps a document well formed.
pub proof fn lemma_canonical_unique(doc: Json)
    requires
        unique_keys(doc),
    ensures
        unique_keys(canonical(doc)),
    decreases doc,
{
    match doc {
        Json::Array(items) => {
            let keyed = keyed_items(items);
            let sorted = stable_sorted(keyed, false);
            let out = unkeyed(sorted);
            assert forall|i: int| 0 <= i < out.len() implies unique_keys(#[trigger] out[i]) by {
                lemma_sorted_contains(keyed, false, sorted[i]);
                let j = choose|j: int| 0 <= j < keyed.len() && keyed[j] == sorted[i];
                lemma_canonical_unique(items[j]);
            }
        },
        Json::Object(entries) => {
            let inner = canonical_entries(entries);
            let sorted = stable_sorted(inner, true);
            lemma_canonical_entries_keys(entries);
            lemma_sorted_distinct(inner, true);
            assert forall|i: int| 0 <= i < sorted.len() implies unique_keys(
                (#[trigger] sorted[i]).1,
            ) by {
                lemma_sorted_contains(inner, true, sorted[i]);
                let j = choose|j: int| 0 <= j < inner.len() && inner[j] == sorted[i];
                assert(unique_keys(entries[j].1));
                lemma_canonical_unique(entries[j].1);
            }
        },
        _ => {},
    }
}

/// Unwrapping embedded JSON keeps a document well formed.
pub proof fn lemma_unwrapped_unique(doc: Json, depth: nat)
    requires
        unique_keys(doc),
    ensures
        unique_keys(unwrapped(doc, depth)),
    decreases depth, doc,
{
    match doc {
        Json::Array(items) => {
            let out = unwrapped_items(items, depth);
            assert forall|i: int| 0 <= i < out.len() implies unique_keys(#[trigger] out[i]) by {
                lemma_unwrapped_unique(items[i], depth);
            }
        },
        Json::Object(entries) => {
            let out = unwrapped_entries(entries, depth);
            assert forall|i: int, j: int| 0 <= i < j < out.len() implies (#[trigger] out[i]).0 != (
            #[trigger] out[j]).0 by {
                assert(entries[i].0 != entries[j].0);
            }
            assert forall|i: int| 0 <= i < out.len() implies unique_keys((#[trigger] out[i]).1) by {
                assert(unique_keys(entries[i].1));
                lemma_unwrapped_unique(entries[i].1, depth);
            }
        },
        Json::String(text) => {
            match embedded_in(parsed_document(text)) {
                Some(inner) => {
                    if depth > 0 {
                        lemma_merged_unique(parsed_text(text).unwrap());
                        lemma_unwrapped_unique(inner, (depth - 1) as nat);
                    }
                },
                None => {},
            }
        },
        _ => {},
    }
}

/// Whether the indented text of a document reads back as that document. This is a
/// property of the outside library that writes and reads the text; nothing here proves it.
pub open spec fn pretty_reads_back(doc: Json) -> bool {
    pretty_text(doc) matches Some(out) ==> parsed_document(out) == Some(doc)
}

/// A text that is not JSON comes back unchanged from every operation that reads JSON.
pub proof fn lemma_unchanged_when_not_json(text: Seq<char>)
    ensures
        parsed_text(text) is None ==> {
            &&& formatted(text) == text
            &&& compressed(text) == text
            &&& sort_formatted(text) == text
            &&& recur_formatted(text) == text
            &&& parsed_content(text) == text
        },
{
}

/// Formatting twice is formatting once, for every text whose formatted form reads back as
/// the document it was written from.
pub proof fn lemma_format_idempotent_when_read_back(text: Seq<char>)
    ensures
        (parsed_document(text) is Some ==> pretty_reads_back(parsed_document(text).unwrap()))
            ==> formatted(formatted(text)) == formatted(text),
{
}

/// Sorting and formatting twice is doing so once, for every text whose sorted and formatted
/// form reads back as the document it was written from.
pub proof fn lemma_sort_format_idempotent_when_read_back(text: Seq<char>)
    ensures
        (parsed_document(text) is Some ==> pretty_reads_back(
            canonical(parsed_document(text).unwrap()),
        )) ==> sort_formatted(sort_formatted(text)) == sort_formatted(text),
{
    if parsed_document(text) is Some {
        lemma_canonical_idempotent(parsed_document(text).unwrap());
    }
}

/// Two texts whose documents are the same but for the order of keys sort and format to the
/// same text, where that text can be written at all.
pub proof fn lemma_sort_format_order_invariant(one: Seq<char>, other: Seq<char>)
    ensures
        ({
            &&& parsed_document(one) is Some
            &&& parsed_document(other) is Some
            &&& same_but_for_key_order(
                parsed_document(one).unwrap(),
                parsed_document(other).unwrap(),
            )
            &&& pretty_text(canonical(parsed_document(one).unwrap())) is Some
        }) ==> sort_formatted(one) == sort_formatted(other),
{
    if parsed_document(one) is Some && parsed_document(other) is Some && same_but_for_key_order(
        parsed_document(one).unwrap(),
        parsed_document(other).unwrap(),
    ) {
        lemma_canonical_order_invariant(
            parsed_document(one).unwrap(),
            parsed_document(other).unwrap(),
        );
    }
}

/// Reading what `stringify` wrote gives the text back, for every text whose string literal
/// reads back as that text.
pub proof fn lemma_parse_stringify_when_read_back(text: Seq<char>)
    ensures
        (compact_text(Json::String(text)) is Some && parsed_text(
            compact_text(Json::String(text)).unwrap(),
        ) == Some(Json::String(text))) ==> parsed_content(stringified(text)) == text,
{
}

} // verus!
