//! The failure of a traversal.

use vstd::prelude::*;

verus! {

/// Why a traversal gave up.
///
/// A traversal never makes one of these: it hands on, unchanged, the first
/// one that a callback or a rebuild reports, and runs nothing after it.
#[derive(Debug, Clone, PartialEq, Eq)]
pub enum TraversalError {
    /// A node type found its own rules broken, as when it is asked to rebuild
    /// itself around the wrong number of children.
    Internal(String),
    /// A callback refused the node it was given.
    Callback(String),
}

/// A `TraversalError` as contracts speak of it: the same kind, with the
/// message as a sequence of characters.
pub enum Failure {
    Internal(Seq<char>),
    Callback(Seq<char>),
}

impl View for TraversalError {
    type V = Failure;

    open spec fn view(&self) -> Failure {
        match self {
            TraversalError::Internal(message) => Failure::Internal(message@),
            TraversalError::Callback(message) => Failure::Callback(message@),
        }
    }
}

} // verus!
