//! The values that contracts are stated over.

use vstd::prelude::*;
use crate::error::{Failure, TraversalError};
use crate::recursion::TreeNodeRecursion;
use crate::structure::TreeStructure;
use crate::transformed::Transformed;

verus! {

/// How a callback of a read-only walk ends, in contracts.
pub type Signal = Result<TreeNodeRecursion, Failure>;

/// How a rewriting step ends, in contracts: the tree as it is now with its
/// flag and signal, or a failure.
pub type Outcome<M> = Result<Transformed<M>, Failure>;

/// A callback of a read-only walk, as a function: from what the walk has
/// gathered and a tree to what the walk has gathered afterwards and what
/// the callback reports.
pub type Inspect<S, M> = spec_fn(S, M) -> (S, Signal);

/// A callback of a rewriting walk, as a function: from what the walk has
/// gathered and a tree to what the walk has gathered afterwards and what
/// the callback returns.
pub type Reshape<S, M> = spec_fn(S, M) -> (S, Outcome<M>);

/// What a callback of a read-only walk returned, in contracts.
pub open spec fn signal_model(r: Result<TreeNodeRecursion, TraversalError>) -> Signal {
    match r {
        Ok(tnr) => Ok(tnr),
        Err(e) => Err(e@),
    }
}

/// What a rewriting step returned, in contracts.
pub open spec fn outcome_model<N: TreeStructure>(
    r: Result<Transformed<N>, TraversalError>,
) -> Outcome<N::Model> {
    match r {
        Ok(t) => Ok(Transformed { data: t.data.model(), transformed: t.transformed, tnr: t.tnr }),
        Err(e) => Err(e@),
    }
}

/// What a rewriting step returned on each of some siblings, in contracts.
pub open spec fn outcome_models<N: TreeStructure>(
    outs: Seq<Result<Transformed<N>, TraversalError>>,
) -> Seq<Outcome<N::Model>> {
    Seq::new(outs.len(), |i: int| outcome_model(outs[i]))
}

/// The trees under `nodes`, in the same order.
pub open spec fn models_of<N: TreeStructure>(nodes: Seq<N>) -> Seq<N::Model> {
    Seq::new(nodes.len(), |i: int| nodes[i].model())
}

} // verus!
