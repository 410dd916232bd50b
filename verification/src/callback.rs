//! Callbacks that are closures, as contracts speak of them: by what they
//! may return.

use vstd::prelude::*;
use crate::error::TraversalError;
use crate::model::{outcome_model, signal_model, Outcome, Signal};
use crate::recursion::TreeNodeRecursion;
use crate::structure::TreeStructure;
use crate::transformed::Transformed;

verus! {

/// What a callback of a read-only walk may report on a tree: `true` for
/// each report that it may make.
pub type Reports<M> = spec_fn(M, Signal) -> bool;

/// What a callback of a rewriting walk may return on a tree: `true` for
/// each outcome that it may return.
pub type Returns<M> = spec_fn(M, Outcome<M>) -> bool;

/// What the closure `f` may report: on a tree, what its own contract lets it
/// return from a node with that tree under it.
pub open spec fn reports_of<
    N: TreeStructure,
    F: FnOnce(&N) -> Result<TreeNodeRecursion, TraversalError>,
>(f: F) -> Reports<N::Model> {
    |tree: N::Model, report: Signal|
        exists|n: N, r: Result<TreeNodeRecursion, TraversalError>|
            n.model() == tree && call_ensures(f, (&n,), r) && signal_model(r) == report
}

/// What the closure `f` may return: on a tree, what its own contract lets it
/// return from a node with that tree under it.
pub open spec fn returns_of<
    N: TreeStructure,
    F: FnOnce(N) -> Result<Transformed<N>, TraversalError>,
>(f: F) -> Returns<N::Model> {
    |tree: N::Model, out: Outcome<N::Model>|
        exists|n: N, r: Result<Transformed<N>, TraversalError>|
            n.model() == tree && call_ensures(f, (n,), r) && outcome_model(r) == out
}

/// The callback that reports on each tree what the function `g` says, and
/// nothing else.
pub open spec fn tells<M>(g: spec_fn(M) -> Signal) -> Reports<M> {
    |tree: M, report: Signal| report == g(tree)
}

/// The callback that returns on each tree what the function `g` says, and
/// nothing else.
pub open spec fn says<M>(g: spec_fn(M) -> Outcome<M>) -> Returns<M> {
    |tree: M, out: Outcome<M>| out == g(tree)
}

/// Whatever `narrow` may report, `wide` may report too.
pub open spec fn reports_within<M>(narrow: Reports<M>, wide: Reports<M>) -> bool {
    forall|tree: M, report: Signal| #[trigger] narrow(tree, report) ==> wide(tree, report)
}

/// Whatever `narrow` may return, `wide` may return too.
pub open spec fn returns_within<M>(narrow: Returns<M>, wide: Returns<M>) -> bool {
    forall|tree: M, out: Outcome<M>| #[trigger] narrow(tree, out) ==> wide(tree, out)
}

/// Whenever the closure `f` reports `Continue`, it returns a node that is
/// no higher than the one it was given.
pub open spec fn is_no_higher<
    N: TreeStructure,
    F: FnOnce(N) -> Result<Transformed<N>, TraversalError>,
>(f: F) -> bool {
    forall|n: N, t: Transformed<N>|
        #![trigger call_ensures(f, (n,), Ok::<Transformed<N>, TraversalError>(t))]
        call_ensures(f, (n,), Ok::<Transformed<N>, TraversalError>(t)) && t.tnr is Continue
            ==> N::height(t.data.model()) <= N::height(n.model())
}

} // verus!
