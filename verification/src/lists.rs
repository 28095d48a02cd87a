//! A helper on lists.

use vstd::prelude::*;

verus! {

/// The same list, last item first.
pub fn reversed<T>(list: Vec<T>) -> (r: Vec<T>)
    ensures
        r@.len() == list@.len(),
        forall|i: int| 0 <= i < r@.len() ==> r@[i] == list@[list@.len() - 1 - i],
{
    let mut rest = list;
    let mut out: Vec<T> = Vec::new();
    while rest.len() > 0
        invariant
            rest@.len() + out@.len() == list@.len(),
            forall|i: int| 0 <= i < rest@.len() ==> rest@[i] == list@[i],
            forall|i: int| 0 <= i < out@.len() ==> out@[i] == list@[list@.len() - 1 - i],
        decreases rest@.len(),
    {
        let item = rest.pop().unwrap();
        out.push(item);
    }
    out
}

} // verus!
