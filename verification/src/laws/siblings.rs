//! What holds of siblings that are rewritten one after the other.

use vstd::prelude::*;
use crate::siblings::{gather, goes_on, is_run};
use crate::transformed::Transformed;

verus! {

/// After `Stop` the siblings stay. When the step on one sibling ends in
/// `Stop`, it is the last that the step runs on, the siblings end in
/// `Stop`, and every sibling after it is handed back as it was.
pub proof fn lemma_siblings_after_stop_stay<T, E>(
    items: Seq<T>,
    outs: Seq<Result<Transformed<T>, E>>,
    i: int,
)
    requires
        is_run(outs, items.len()),
        0 <= i < outs.len(),
        outs[i] matches Ok(t) && t.tnr is Stop,
    ensures
        i == outs.len() - 1,
        gather(items, outs) matches Ok(g) && g.tnr is Stop && g.data.len() == items.len()
            && forall|j: int| i < j < items.len() ==> g.data[j] == items[j],
{
    if i < outs.len() - 1 {
        assert(goes_on(outs[i]));
    }
}

} // verus!
