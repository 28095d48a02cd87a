//! What is computed before a broker is asked: the list of hosts and where a fetch starts.

use vstd::prelude::*;
use vstd::string::StrSliceExecFns;

verus! {

/// How many messages before the latest offset of a partition a fetch starts.
pub const FETCH_BACK: i64 = 33;

/// The offset at which to start fetching from a partition whose latest offset is `latest`.
pub fn fetch_start(latest: i64) -> (r: i64)
    requires
        latest - FETCH_BACK >= i64::MIN,
    ensures
        r == latest - FETCH_BACK,
{
    latest - FETCH_BACK
}

/// The parts of a list put together again, with a comma between one part and the next.
pub open spec fn joined(parts: Seq<Seq<char>>) -> Seq<char>
    decreases parts.len(),
{
    if parts.len() == 0 {
        Seq::empty()
    } else if parts.len() == 1 {
        parts[0]
    } else {
        joined(parts.drop_last()) + seq![','] + parts.last()
    }
}

/// What a list of host names denotes.
pub open spec fn names_view(names: Seq<String>) -> Seq<Seq<char>> {
    Seq::new(names.len(), |i: int| names[i]@)
}

/// Splits a comma-separated list of hosts. There is always at least one part, no part holds
/// a comma, and the parts joined by commas are the list again.
pub fn brokers(hosts: &str) -> (r: Vec<String>)
    ensures
        r@.len() >= 1,
        forall|i: int| 0 <= i < r@.len() ==> !(#[trigger] r@[i])@.contains(','),
        joined(names_view(r@)) == hosts@,
{
    let total = hosts.unicode_len();
    let mut out: Vec<String> = Vec::new();
    let mut start: usize = 0;
    let mut at: usize = 0;
    while at < total
        invariant
            total == hosts@.len(),
            start <= at <= total,
            forall|i: int| 0 <= i < out@.len() ==> !(#[trigger] out@[i])@.contains(','),
            forall|k: int| start <= k < at ==> hosts@[k] != ',',
            start == 0 <==> out@.len() == 0,
            start > 0 ==> joined(names_view(out@)) + seq![','] == hosts@.subrange(0, start as int),
        decreases total - at,
    {
        if hosts.get_char(at) == ',' {
            let part = hosts.substring_char(start, at).to_owned();
            let ghost held = out@;
            proof {
                let before = names_view(held);
                let after = before.push(part@);
                assert(after.drop_last() =~= before);
                assert(joined(after) + seq![','] =~= hosts@.subrange(0, at + 1));
                assert forall|k: int| 0 <= k < part@.len() implies part@[k] != ',' by {
                    assert(part@[k] == hosts@[start + k]);
                }
            }
            out.push(part);
            assert(names_view(out@) =~= names_view(held).push(part@));
            start = at + 1;
        }
        at += 1;
    }
    let last = hosts.substring_char(start, total).to_owned();
    proof {
        let before = names_view(out@);
        let after = before.push(last@);
        assert(after.drop_last() =~= before);
        assert(joined(after) =~= hosts@);
        assert forall|k: int| 0 <= k < last@.len() implies last@[k] != ',' by {
            assert(last@[k] == hosts@[start + k]);
        }
    }
    let ghost before = out@;
    out.push(last);
    assert(names_view(out@) =~= names_view(before).push(last@));
    out
}

} // verus!
