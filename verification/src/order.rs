//! The order that canonical sorting goes by, and the stable sort itself.

use vstd::prelude::*;
use vstd::utf8::encode_utf8;
use crate::value::{entries_view, entry_view, Document, Json};

verus! {

/// The place of a document's kind in the canonical order of an object's entries:
/// strings first, then null, numbers, booleans, objects, and arrays last.
pub open spec fn kind_rank(doc: Json) -> int {
    match doc {
        Json::String(_) => 0,
        Json::Null => 1,
        Json::Number(_) => 2,
        Json::Bool(_) => 3,
        Json::Object(_) => 4,
        Json::Array(_) => 5,
    }
}

/// Whether `a` comes before `b` in the lexicographic order of bytes, given that the two
/// agree on their first `from` bytes.
pub open spec fn bytes_before_from(a: Seq<u8>, b: Seq<u8>, from: int) -> bool
    decreases a.len() - from,
{
    if from < 0 || from >= b.len() {
        false
    } else if from >= a.len() {
        true
    } else if a[from] != b[from] {
        a[from] < b[from]
    } else {
        bytes_before_from(a, b, from + 1)
    }
}

/// Whether text `a` is strictly smaller than text `b` as Rust orders strings: by the bytes
/// of their UTF-8 forms, a proper prefix first.
pub open spec fn text_before(a: Seq<char>, b: Seq<char>) -> bool {
    bytes_before_from(encode_utf8(a), encode_utf8(b), 0)
}

/// Whether entry `a` must stand before entry `b`. With `ranked`, the kind of the value
/// decides first and the text second; without it the text alone decides.
pub open spec fn entry_before(a: (Seq<char>, Json), b: (Seq<char>, Json), ranked: bool) -> bool {
    if ranked && kind_rank(a.1) != kind_rank(b.1) {
        kind_rank(a.1) < kind_rank(b.1)
    } else {
        text_before(a.0, b.0)
    }
}

/// `sorted` with `entry` put in front of the first entry that does not have to stand
/// before it.
pub open spec fn placed(entry: (Seq<char>, Json), sorted: Seq<(Seq<char>, Json)>, ranked: bool) -> Seq<
    (Seq<char>, Json),
>
    decreases sorted.len(),
{
    if sorted.len() > 0 && entry_before(sorted.first(), entry, ranked) {
        seq![sorted.first()] + placed(entry, sorted.drop_first(), ranked)
    } else {
        seq![entry] + sorted
    }
}

/// The entries in ascending order, entries that compare equal in the order they came in.
pub open spec fn stable_sorted(entries: Seq<(Seq<char>, Json)>, ranked: bool) -> Seq<
    (Seq<char>, Json),
>
    decreases entries.len(),
{
    if entries.len() == 0 {
        Seq::empty()
    } else {
        placed(entries.first(), stable_sorted(entries.drop_first(), ranked), ranked)
    }
}

/// No entry stands behind one that it must stand before.
pub open spec fn in_order(entries: Seq<(Seq<char>, Json)>, ranked: bool) -> bool {
    forall|i: int, j: int|
        0 <= i < j < entries.len() ==> !entry_before(#[trigger] entries[j], #[trigger] entries[i], ranked)
}

/// The rank of a document's kind.
pub fn rank(doc: &Document) -> (r: u8)
    ensures
        r == kind_rank(doc@),
{
    match doc {
        Document::String(_) => 0,
        Document::Null => 1,
        Document::Number(_) => 2,
        Document::Bool(_) => 3,
        Document::Object(_) => 4,
        Document::Array(_) => 5,
    }
}

/// Compares two texts as Rust orders strings.
pub fn text_precedes(a: &str, b: &str) -> (r: bool)
    ensures
        r == text_before(a@, b@),
{
    let x = a.as_bytes();
    let y = b.as_bytes();
    let mut i: usize = 0;
    while i < x.len() && i < y.len() && x[i] == y[i]
        invariant
            x@ == encode_utf8(a@),
            y@ == encode_utf8(b@),
            i <= x.len(),
            i <= y.len(),
            bytes_before_from(x@, y@, 0) == bytes_before_from(x@, y@, i as int),
        decreases x.len() - i,
    {
        i += 1;
    }
    if i >= y.len() {
        false
    } else if i >= x.len() {
        true
    } else {
        x[i] < y[i]
    }
}

/// Decides whether one keyed document must stand before another.
pub fn entry_precedes(a: &(String, Document), b: &(String, Document), ranked: bool) -> (r: bool)
    ensures
        r == entry_before(entry_view(*a), entry_view(*b), ranked),
{
    if ranked {
        let ra = rank(&a.1);
        let rb = rank(&b.1);
        if ra != rb {
            return ra < rb;
        }
    }
    text_precedes(a.0.as_str(), b.0.as_str())
}

/// Where `placed` puts an entry: behind a run of entries that must stand before it.
pub proof fn lemma_placed_at(
    entry: (Seq<char>, Json),
    sorted: Seq<(Seq<char>, Json)>,
    ranked: bool,
    at: int,
)
    requires
        0 <= at <= sorted.len(),
        forall|j: int| 0 <= j < at ==> entry_before(#[trigger] sorted[j], entry, ranked),
        at < sorted.len() ==> !entry_before(sorted[at], entry, ranked),
    ensures
        placed(entry, sorted, ranked) == sorted.insert(at, entry),
    decreases at,
{
    if at == 0 {
        assert(seq![entry] + sorted =~= sorted.insert(0, entry));
    } else {
        let rest = sorted.drop_first();
        assert forall|j: int| 0 <= j < at - 1 implies entry_before(#[trigger] rest[j], entry, ranked) by {
            assert(rest[j] == sorted[j + 1]);
        }
        lemma_placed_at(entry, rest, ranked, at - 1);
        assert(seq![sorted.first()] + rest.insert(at - 1, entry) =~= sorted.insert(at, entry));
    }
}

/// Puts one keyed document into a sorted list, in front of the first that does not have to
/// stand before it.
pub fn place(sorted: &mut Vec<(String, Document)>, entry: (String, Document), ranked: bool)
    ensures
        entries_view(final(sorted)@) == placed(entry_view(entry), entries_view(old(sorted)@), ranked),
{
    let mut at: usize = 0;
    loop
        invariant
            *sorted == *old(sorted),
            at <= sorted.len(),
            forall|j: int|
                0 <= j < at ==> entry_before(
                    #[trigger] entries_view(sorted@)[j],
                    entry_view(entry),
                    ranked,
                ),
        ensures
            at < sorted.len() ==> !entry_before(entries_view(sorted@)[at as int], entry_view(entry), ranked),
        decreases sorted.len() - at,
    {
        if at >= sorted.len() {
            break ;
        }
        if !entry_precedes(&sorted[at], &entry, ranked) {
            break ;
        }
        at += 1;
    }
    proof {
        lemma_placed_at(entry_view(entry), entries_view(sorted@), ranked, at as int);
    }
    sorted.insert(at, entry);
    assert(entries_view(sorted@) =~= entries_view(old(sorted)@).insert(at as int, entry_view(entry)));
}

} // verus!
