//! The signal that steers a traversal.

use vstd::prelude::*;

verus! {

/// What a callback tells the traversal to do next.
#[derive(Debug, PartialEq, Eq, Clone, Copy, Structural)]
pub enum TreeNodeRecursion {
    /// Go on with the next node.
    Continue,
    /// On the way down: leave this node's children out, but still run the
    /// post-order callback on the node itself, and go on with its next
    /// sibling.
    ///
    /// On the way up: run no post-order callback on the ancestors, until one
    /// of them has a later child whose walk ends in `Continue`.
    Jump,
    /// End the whole traversal: no callback runs after this.
    Stop,
}

} // verus!
