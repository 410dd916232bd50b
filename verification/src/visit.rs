//! The read-only walk.

use vstd::prelude::*;
use crate::callback::{reports_of, reports_within, Reports};
use crate::error::{Failure, TraversalError};
use crate::model::{signal_model, Inspect, Signal};
use crate::recursion::TreeNodeRecursion;
use crate::structure::TreeStructure;

verus! {

/// The two callbacks of a read-only walk: `f_down` runs on a node before its
/// children are walked, `f_up` after.
///
/// A visitor may keep what it has seen. Contracts speak of that through the
/// visitor's `State`: `f_down_model` and `f_up_model` say what a callback
/// makes of the state and of the tree under a node, namely the state
/// afterwards and what the callback reports.
pub trait TreeNodeVisitor: Sized {
    /// The nodes that the visitor walks over.
    type Node: TreeStructure;

    /// What the visitor holds, in contracts.
    type State;

    /// What this visitor holds.
    spec fn state(&self) -> Self::State;

    /// What `f_down` does.
    spec fn f_down_model(state: Self::State, tree: <Self::Node as TreeStructure>::Model) -> (
        Self::State,
        Signal,
    );

    /// What `f_up` does.
    spec fn f_up_model(state: Self::State, tree: <Self::Node as TreeStructure>::Model) -> (
        Self::State,
        Signal,
    );

    /// Runs on `node` before any of its children is walked.
    fn f_down(&mut self, node: &Self::Node) -> (r: Result<TreeNodeRecursion, TraversalError>)
        ensures
            (final(self).state(), signal_model(r)) == Self::f_down_model(
                old(self).state(),
                node.model(),
            ),
    ;

    /// Runs on `node` after its children have been walked.
    fn f_up(&mut self, node: &Self::Node) -> (r: Result<TreeNodeRecursion, TraversalError>)
        ensures
            (final(self).state(), signal_model(r)) == Self::f_up_model(
                old(self).state(),
                node.model(),
            ),
    ;
}

/// After this report the walk goes on with the next node: it is no failure
/// and no `Stop`.
pub open spec fn walks_on(out: Signal) -> bool {
    out matches Ok(tnr) && !(tnr is Stop)
}

/// The read-only walk of `tree`, a tree of nodes `N`.
///
/// `pre` and `post` are the two callbacks, as functions from what the walk
/// has gathered so far (`s`) and a tree to what it has gathered afterwards
/// and what the callback reports. The result is what the walk has gathered
/// at its end, and how it ended.
///
/// - `pre` runs on the tree. On `Stop` or a failure the walk ends there.
/// - On `Jump` the children are left out and `post` runs on the tree.
/// - On `Continue` the children are walked in order (`walk_children`). If
///   that ends in `Continue`, `post` runs on the tree; `Jump`, `Stop` and a
///   failure are handed up as they are, and `post` does not run.
pub open spec fn walk<S, N: TreeStructure>(
    pre: Inspect<S, N::Model>,
    post: Inspect<S, N::Model>,
    s: S,
    tree: N::Model,
) -> (S, Signal)
    decreases N::height(tree), 1int, 0int,
{
    let (s1, down) = pre(s, tree);
    match down {
        Ok(TreeNodeRecursion::Continue) => {
            let (s2, below) = walk_children::<S, N>(
                pre,
                post,
                s1,
                tree,
                0,
                TreeNodeRecursion::Continue,
            );
            match below {
                Ok(TreeNodeRecursion::Continue) => post(s2, tree),
                _ => (s2, below),
            }
        },
        Ok(TreeNodeRecursion::Jump) => post(s1, tree),
        _ => (s1, down),
    }
}

/// The walk of the children of `tree` from the one at index `from` on, when
/// the child before it ended in `last` (`Continue` before the first).
///
/// The children are walked in order. A `Stop` or a failure ends it; else it
/// ends as its last child's walk did.
pub open spec fn walk_children<S, N: TreeStructure>(
    pre: Inspect<S, N::Model>,
    post: Inspect<S, N::Model>,
    s: S,
    tree: N::Model,
    from: int,
    last: TreeNodeRecursion,
) -> (S, Signal)
    decreases N::height(tree), 0int, N::subtrees(tree).len() - from,
{
    if 0 <= from < N::subtrees(tree).len() {
        proof {
            N::lemma_subtrees_are_lower(tree);
        }
        let (s1, r) = walk::<S, N>(pre, post, s, N::subtrees(tree)[from]);
        match r {
            Ok(TreeNodeRecursion::Continue) => walk_children::<S, N>(
                pre,
                post,
                s1,
                tree,
                from + 1,
                TreeNodeRecursion::Continue,
            ),
            Ok(TreeNodeRecursion::Jump) => walk_children::<S, N>(
                pre,
                post,
                s1,
                tree,
                from + 1,
                TreeNodeRecursion::Jump,
            ),
            _ => (s1, r),
        }
    } else {
        (s, Ok(last))
    }
}

/// `f_down` of the visitors `V`, as a function.
pub open spec fn visitor_pre<V: TreeNodeVisitor>() -> Inspect<
    V::State,
    <V::Node as TreeStructure>::Model,
> {
    |state: V::State, tree: <V::Node as TreeStructure>::Model| V::f_down_model(state, tree)
}

/// `f_up` of the visitors `V`, as a function.
pub open spec fn visitor_post<V: TreeNodeVisitor>() -> Inspect<
    V::State,
    <V::Node as TreeStructure>::Model,
> {
    |state: V::State, tree: <V::Node as TreeStructure>::Model| V::f_up_model(state, tree)
}

/// What `visit` makes of a visitor that holds `state` and of `tree`: what
/// the visitor holds afterwards, and how the walk ended.
pub open spec fn visit_spec<V: TreeNodeVisitor>(
    state: V::State,
    tree: <V::Node as TreeStructure>::Model,
) -> (V::State, Signal) {
    walk::<V::State, V::Node>(visitor_pre::<V>(), visitor_post::<V>(), state, tree)
}

/// Walks the tree under `node` with `visitor`.
pub(crate) fn visit_node<V: TreeNodeVisitor>(node: &V::Node, visitor: &mut V) -> (r: Result<
    TreeNodeRecursion,
    TraversalError,
>)
    ensures
        (final(visitor).state(), signal_model(r)) == visit_spec::<V>(
            old(visitor).state(),
            node.model(),
        ),
    decreases <V::Node as TreeStructure>::height(node.model()),
{
    let ghost tree = node.model();
    match visitor.f_down(node)? {
        TreeNodeRecursion::Continue => {
            let children = node.child_nodes();
            let mut tnr = TreeNodeRecursion::Continue;
            let mut i: usize = 0;
            while i < children.len()
                invariant
                    i <= children.len(),
                    tree == node.model(),
                    children@.len() == <V::Node as TreeStructure>::subtrees(tree).len(),
                    forall|j: int|
                        0 <= j < children@.len() ==> children@[j].node().model()
                            == <V::Node as TreeStructure>::subtrees(tree)[j],
                    !(tnr is Stop),
                    walk_children::<V::State, V::Node>(
                        visitor_pre::<V>(),
                        visitor_post::<V>(),
                        visitor.state(),
                        tree,
                        i as int,
                        tnr,
                    ) == walk_children::<V::State, V::Node>(
                        visitor_pre::<V>(),
                        visitor_post::<V>(),
                        V::f_down_model(old(visitor).state(), tree).0,
                        tree,
                        0,
                        TreeNodeRecursion::Continue,
                    ),
                    V::f_down_model(old(visitor).state(), tree).1 == Ok::<
                        TreeNodeRecursion,
                        Failure,
                    >(TreeNodeRecursion::Continue),
                decreases children.len() - i,
            {
                proof {
                    <V::Node as TreeStructure>::lemma_subtrees_are_lower(tree);
                }
                tnr = visit_node(children[i].get(), visitor)?;
                if tnr == TreeNodeRecursion::Stop {
                    return Ok(TreeNodeRecursion::Stop);
                }
                i += 1;
            }
            match tnr {
                TreeNodeRecursion::Continue => visitor.f_up(node),
                _ => Ok(tnr),
            }
        },
        TreeNodeRecursion::Jump => visitor.f_up(node),
        TreeNodeRecursion::Stop => Ok(TreeNodeRecursion::Stop),
    }
}

/// A closure that inspects a node, as a callback of a walk that gathers
/// nothing.
pub open spec fn inspector<M>(g: spec_fn(M) -> Signal) -> Inspect<(), M> {
    |s: (), tree: M| ((), g(tree))
}

/// The callback that does nothing and reports `Continue`.
pub open spec fn pass_by<S, M>() -> Inspect<S, M> {
    |s: S, tree: M| (s, Ok(TreeNodeRecursion::Continue))
}

/// How `apply` ends on `tree`, a tree of nodes `N`, for a closure that
/// inspects as `g` says: as the walk with `g` before the children and
/// nothing after them.
pub open spec fn apply_spec<N: TreeStructure>(
    g: spec_fn(N::Model) -> Signal,
    tree: N::Model,
) -> Signal {
    walk::<(), N>(inspector(g), pass_by(), (), tree).1
}

/// How the walk over some children ends when their walks have ended as
/// `outs` say: as the last of them, or in `Continue` where there is none.
pub open spec fn last_signal(outs: Seq<Signal>) -> Signal {
    if outs.len() == 0 {
        Ok(TreeNodeRecursion::Continue)
    } else {
        outs.last()
    }
}

/// `outs` can be how the walks of the first of `count` children end, in
/// order: the next child is walked as long as the last walk `walks_on`, and
/// none after that.
pub open spec fn is_walk(outs: Seq<Signal>, count: nat) -> bool {
    &&& outs.len() <= count
    &&& forall|i: int| 0 <= i < outs.len() - 1 ==> walks_on(#[trigger] outs[i])
    &&& outs.len() < count ==> outs.len() > 0 && !walks_on(outs.last())
}

/// `result` is how `apply` can end on `tree` when, on each tree, the
/// callback makes a report that `reports` allows.
///
/// The walk is that of `apply_spec`, for a callback that is known only by
/// what it may report: it makes some report on the tree. On `Stop` or a
/// failure the walk ends there; on `Jump` the children are left out and the
/// walk ends in `Continue`; on `Continue` the children are walked in order
/// (`can_apply_children`), and the walk ends as the last of them did.
pub open spec fn can_apply<N: TreeStructure>(
    reports: Reports<N::Model>,
    tree: N::Model,
    result: Signal,
) -> bool
    decreases N::height(tree), 1int,
{
    exists|d: Signal|
        #[trigger] reports(tree, d) && match d {
            Ok(TreeNodeRecursion::Continue) => exists|outs: Seq<Signal>|
                can_apply_children::<N>(reports, tree, outs) && result == #[trigger] last_signal(
                    outs,
                ),
            Ok(TreeNodeRecursion::Jump) => result == Ok::<TreeNodeRecursion, Failure>(
                TreeNodeRecursion::Continue,
            ),
            _ => result == d,
        }
}

/// `outs` can be how the walks of the children of `tree` end under
/// `apply`, in order: each is how the walk of its child can end, and the
/// children are walked up to the first whose walk ends in `Stop` or a
/// failure.
pub open spec fn can_apply_children<N: TreeStructure>(
    reports: Reports<N::Model>,
    tree: N::Model,
    outs: Seq<Signal>,
) -> bool
    decreases N::height(tree), 0int,
{
    &&& is_walk(outs, N::subtrees(tree).len())
    &&& forall|k: int|
        0 <= k < outs.len() ==> {
            proof {
                N::lemma_subtrees_are_lower(tree);
            }
            can_apply::<N>(reports, N::subtrees(tree)[k], #[trigger] outs[k])
        }
}

/// `outs` can be what a callback reports on the children of `tree`, in
/// order, when it runs on them one after the other until a report is
/// `Stop` or a failure, and makes reports that `reports` allows.
pub open spec fn can_report_on_children<N: TreeStructure>(
    reports: Reports<N::Model>,
    tree: N::Model,
    outs: Seq<Signal>,
) -> bool {
    &&& is_walk(outs, N::subtrees(tree).len())
    &&& forall|k: int| 0 <= k < outs.len() ==> reports(N::subtrees(tree)[k], #[trigger] outs[k])
}

/// What `apply` can end in with a callback, it can end in with any
/// callback that may report all that the first may.
pub proof fn lemma_can_apply_widens<N: TreeStructure>(
    narrow: Reports<N::Model>,
    wide: Reports<N::Model>,
    tree: N::Model,
    result: Signal,
)
    requires
        reports_within(narrow, wide),
        can_apply::<N>(narrow, tree, result),
    ensures
        can_apply::<N>(wide, tree, result),
    decreases N::height(tree), 1int,
{
    let d = choose|d: Signal|
        #[trigger] narrow(tree, d) && match d {
            Ok(TreeNodeRecursion::Continue) => exists|outs: Seq<Signal>|
                can_apply_children::<N>(narrow, tree, outs) && result == #[trigger] last_signal(
                    outs,
                ),
            Ok(TreeNodeRecursion::Jump) => result == Ok::<TreeNodeRecursion, Failure>(
                TreeNodeRecursion::Continue,
            ),
            _ => result == d,
        };
    assert(wide(tree, d));
    if d == Ok::<TreeNodeRecursion, Failure>(TreeNodeRecursion::Continue) {
        let outs = choose|outs: Seq<Signal>|
            can_apply_children::<N>(narrow, tree, outs) && result == #[trigger] last_signal(outs);
        assert forall|k: int| 0 <= k < outs.len() implies can_apply::<N>(
            wide,
            N::subtrees(tree)[k],
            #[trigger] outs[k],
        ) by {
            N::lemma_subtrees_are_lower(tree);
            lemma_can_apply_widens::<N>(narrow, wide, N::subtrees(tree)[k], outs[k]);
        }
        assert(can_apply_children::<N>(wide, tree, outs));
        assert(result == last_signal(outs));
    }
}

/// Walks the tree under `node`, with `f` run on each node before its
/// children.
pub(crate) fn apply_node<
    N: TreeStructure,
    F: FnMut(&N) -> Result<TreeNodeRecursion, TraversalError>,
>(node: &N, f: &mut F) -> (r: Result<TreeNodeRecursion, TraversalError>)
    requires
        forall|m: N| call_requires(*old(f), (&m,)),
    ensures
        *final(f) == *old(f),
        can_apply::<N>(reports_of::<N, F>(*old(f)), node.model(), signal_model(r)),
    decreases N::height(node.model()),
{
    let ghost tree = node.model();
    let ghost kids = N::subtrees(tree);
    let ghost reports = reports_of::<N, F>(*f);
    let made = f(node);
    let ghost d = signal_model(made);
    assert(reports(tree, d));
    match made? {
        TreeNodeRecursion::Continue => {},
        TreeNodeRecursion::Jump => {
            return Ok(TreeNodeRecursion::Continue);
        },
        TreeNodeRecursion::Stop => {
            return Ok(TreeNodeRecursion::Stop);
        },
    }
    let children = node.child_nodes();
    let ghost mut outs: Seq<Signal> = Seq::empty();
    let mut tnr = TreeNodeRecursion::Continue;
    let mut i: usize = 0;
    while i < children.len()
        invariant
            i <= children.len(),
            tree == node.model(),
            kids == N::subtrees(tree),
            children@.len() == kids.len(),
            forall|j: int| 0 <= j < children@.len() ==> children@[j].node().model() == kids[j],
            *f == *old(f),
            reports == reports_of::<N, F>(*old(f)),
            reports(tree, d),
            d == Ok::<TreeNodeRecursion, Failure>(TreeNodeRecursion::Continue),
            forall|m: N| call_requires(*f, (&m,)),
            outs.len() == i,
            forall|j: int| 0 <= j < outs.len() ==> walks_on(#[trigger] outs[j]),
            forall|j: int|
                0 <= j < outs.len() ==> can_apply::<N>(reports, kids[j], #[trigger] outs[j]),
            Ok::<TreeNodeRecursion, Failure>(tnr) == last_signal(outs),
        decreases children.len() - i,
    {
        proof {
            N::lemma_subtrees_are_lower(tree);
            assert(children@[i as int].node().model() == kids[i as int]);
        }
        let below = apply_node(children[i].get(), f);
        proof {
            outs = outs.push(signal_model(below));
        }
        match below {
            Ok(TreeNodeRecursion::Stop) => {
                proof {
                    assert(can_apply_children::<N>(reports, tree, outs));
                    assert(last_signal(outs) == signal_model(below));
                }
                return Ok(TreeNodeRecursion::Stop);
            },
            Ok(reported) => {
                tnr = reported;
            },
            Err(e) => {
                proof {
                    assert(can_apply_children::<N>(reports, tree, outs));
                    assert(last_signal(outs) == signal_model(below));
                }
                return Err(e);
            },
        }
        i += 1;
    }
    proof {
        assert(can_apply_children::<N>(reports, tree, outs));
    }
    Ok(tnr)
}

} // verus!
