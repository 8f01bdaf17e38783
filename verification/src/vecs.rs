//! Helpers on vectors.

use vstd::prelude::*;

verus! {

/// Turns a vector round: the last item comes first. The items are moved.
pub(crate) fn reversed<T>(items: Vec<T>) -> (out: Vec<T>)
    ensures
        out@ == items@.reverse(),
{
    let ghost all = items@;
    let mut rest = items;
    let mut out: Vec<T> = Vec::new();
    while rest.len() > 0
        invariant
            rest@ == all.take(rest.len() as int),
            rest.len() <= all.len(),
            out.len() + rest.len() == all.len(),
            forall|j: int| 0 <= j < out.len() ==> #[trigger] out@[j] == all[all.len() - 1 - j],
        decreases rest.len(),
    {
        let last = rest.pop().unwrap();
        out.push(last);
    }
    assert(out@ =~= all.reverse());
    out
}

} // verus!
