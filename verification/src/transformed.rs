//! What a rewriting step hands back.

use vstd::prelude::*;
use crate::error::TraversalError;
use crate::recursion::TreeNodeRecursion;

verus! {

/// What a rewriting step hands back: the node as it is now, whether anything
/// in it was changed, and what the traversal is to do next.
#[derive(PartialEq, Debug)]
pub struct Transformed<T> {
    pub data: T,
    pub transformed: bool,
    pub tnr: TreeNodeRecursion,
}

/// The outcome `out` of a step, once it is known that something was already
/// changed before it (`earlier`): the flag is never taken back.
pub open spec fn keep_change<T, E>(earlier: bool, out: Result<Transformed<T>, E>) -> Result<
    Transformed<T>,
    E,
> {
    match out {
        Ok(t) => Ok(Transformed { data: t.data, transformed: t.transformed || earlier, tnr: t.tnr }),
        Err(e) => Err(e),
    }
}

impl<T> Transformed<T> {
    /// Puts the three parts together.
    pub fn new(data: T, transformed: bool, tnr: TreeNodeRecursion) -> (r: Self)
        ensures
            r == (Transformed { data, transformed, tnr }),
    {
        Transformed { data, transformed, tnr }
    }

    /// A changed node, with `Continue`.
    pub fn yes(data: T) -> (r: Self)
        ensures
            r == (Transformed { data, transformed: true, tnr: TreeNodeRecursion::Continue }),
    {
        Transformed::new(data, true, TreeNodeRecursion::Continue)
    }

    /// An unchanged node, with `Continue`.
    pub fn no(data: T) -> (r: Self)
        ensures
            r == (Transformed { data, transformed: false, tnr: TreeNodeRecursion::Continue }),
    {
        Transformed::new(data, false, TreeNodeRecursion::Continue)
    }

    /// Replaces the data by what `f` makes of it; the flag and the signal stay.
    pub fn update_data<U, F: FnOnce(T) -> U>(self, f: F) -> (r: Transformed<U>)
        requires
            call_requires(f, (self.data,)),
        ensures
            call_ensures(f, (self.data,), r.data),
            r.transformed == self.transformed,
            r.tnr == self.tnr,
    {
        Transformed::new(f(self.data), self.transformed, self.tnr)
    }

    /// Replaces the data by what `f` makes of it, or fails as `f` does; the
    /// flag and the signal stay.
    pub fn map_data<U, F: FnOnce(T) -> Result<U, TraversalError>>(self, f: F) -> (r: Result<
        Transformed<U>,
        TraversalError,
    >)
        requires
            call_requires(f, (self.data,)),
        ensures
            match r {
                Ok(t) => call_ensures(f, (self.data,), Ok(t.data)) && t.transformed
                    == self.transformed && t.tnr == self.tnr,
                Err(e) => call_ensures(f, (self.data,), Err(e)),
            },
    {
        match f(self.data) {
            Ok(data) => Ok(Transformed::new(data, self.transformed, self.tnr)),
            Err(e) => Err(e),
        }
    }

    /// Runs the step `f` that follows this one, as far as the signal allows:
    /// - on `Continue`, `f` runs on the data, and its outcome keeps the flag
    ///   if it was already set;
    /// - on `Jump`, `f` does not run, and the signal becomes `return_if_jump`;
    /// - on `Stop`, nothing happens.
    pub fn try_transform_node_with<F: FnOnce(T) -> Result<Transformed<T>, TraversalError>>(
        self,
        f: F,
        return_if_jump: TreeNodeRecursion,
    ) -> (r: Result<Transformed<T>, TraversalError>)
        requires
            self.tnr is Continue ==> call_requires(f, (self.data,)),
        ensures
            match self.tnr {
                TreeNodeRecursion::Continue => exists|out: Result<Transformed<T>, TraversalError>|
                    call_ensures(f, (self.data,), out) && r == keep_change(self.transformed, out),
                TreeNodeRecursion::Jump => r == Ok::<Transformed<T>, TraversalError>(
                    Transformed {
                        data: self.data,
                        transformed: self.transformed,
                        tnr: return_if_jump,
                    },
                ),
                TreeNodeRecursion::Stop => r == Ok::<Transformed<T>, TraversalError>(self),
            },
    {
        match self.tnr {
            TreeNodeRecursion::Continue => {
                let earlier = self.transformed;
                let out = f(self.data);
                after_earlier_change(earlier, out)
            },
            TreeNodeRecursion::Jump => Ok(
                Transformed::new(self.data, self.transformed, return_if_jump),
            ),
            TreeNodeRecursion::Stop => Ok(self),
        }
    }

    /// Runs the step `f` that follows this one unless the signal is `Stop`:
    /// its outcome keeps the flag if it was already set.
    pub fn try_transform_node<F: FnOnce(T) -> Result<Transformed<T>, TraversalError>>(
        self,
        f: F,
    ) -> (r: Result<Transformed<T>, TraversalError>)
        requires
            !(self.tnr is Stop) ==> call_requires(f, (self.data,)),
        ensures
            match self.tnr {
                TreeNodeRecursion::Stop => r == Ok::<Transformed<T>, TraversalError>(self),
                _ => exists|out: Result<Transformed<T>, TraversalError>|
                    call_ensures(f, (self.data,), out) && r == keep_change(self.transformed, out),
            },
    {
        if self.tnr == TreeNodeRecursion::Stop {
            Ok(self)
        } else {
            let earlier = self.transformed;
            let out = f(self.data);
            after_earlier_change(earlier, out)
        }
    }
}

/// The outcome `out` of a step, with the flag set if `earlier` says that
/// something was changed before the step.
pub fn after_earlier_change<T>(earlier: bool, out: Result<Transformed<T>, TraversalError>) -> (r:
    Result<Transformed<T>, TraversalError>)
    ensures
        r == keep_change(earlier, out),
{
    match out {
        Ok(t) => Ok(Transformed::new(t.data, t.transformed || earlier, t.tnr)),
        Err(e) => Err(e),
    }
}

/// Reads one part of a rewriting step's outcome, or hands on its failure.
pub trait TransformedResult<T> {
    /// The node.
    fn data(self) -> Result<T, TraversalError>;

    /// Whether anything was changed.
    fn transformed(self) -> Result<bool, TraversalError>;

    /// How the step ended.
    fn tnr(self) -> Result<TreeNodeRecursion, TraversalError>;
}

impl<T> TransformedResult<T> for Result<Transformed<T>, TraversalError> {
    fn data(self) -> (r: Result<T, TraversalError>)
        ensures
            r == match self {
                Ok(t) => Ok::<T, TraversalError>(t.data),
                Err(e) => Err(e),
            },
    {
        match self {
            Ok(t) => Ok(t.data),
            Err(e) => Err(e),
        }
    }

    fn transformed(self) -> (r: Result<bool, TraversalError>)
        ensures
            r == match self {
                Ok(t) => Ok::<bool, TraversalError>(t.transformed),
                Err(e) => Err(e),
            },
    {
        match self {
            Ok(t) => Ok(t.transformed),
            Err(e) => Err(e),
        }
    }

    fn tnr(self) -> (r: Result<TreeNodeRecursion, TraversalError>)
        ensures
            r == match self {
                Ok(t) => Ok::<TreeNodeRecursion, TraversalError>(t.tnr),
                Err(e) => Err(e),
            },
    {
        match self {
            Ok(t) => Ok(t.tnr),
            Err(e) => Err(e),
        }
    }
}

} // verus!
