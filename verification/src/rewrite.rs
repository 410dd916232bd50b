//! The rewriting walk.

use vstd::prelude::*;
use crate::callback::{is_no_higher, returns_of, returns_within, Returns};
use crate::error::{Failure, TraversalError};
use crate::model::{models_of, outcome_model, Outcome, Reshape};
use crate::recursion::TreeNodeRecursion;
use crate::siblings::{
    all_ok, gather, goes_on, is_run, lemma_gather_keep, lemma_gather_none, lemma_gather_step,
};
use crate::structure::TreeStructure;
use crate::transformed::{after_earlier_change, keep_change, Transformed};

verus! {

/// The two callbacks of a rewriting walk: `f_down` runs on a node before its
/// children are rewritten, `f_up` on the node built again around the
/// rewritten children.
///
/// A rewriter may keep what it has seen. Contracts speak of that through
/// the rewriter's `State`: `f_down_model` and `f_up_model` say what a
/// callback makes of the state and of the tree under a node, namely the
/// state afterwards and what the callback returns.
///
/// The walk goes down into what `f_down` returns. So that it ends, `f_down`
/// returns nothing higher than the node it was given when it reports
/// `Continue`; with `Jump` or `Stop` it may return any node.
pub trait TreeNodeRewriter: Sized {
    /// The nodes that the rewriter works on.
    type Node: TreeStructure;

    /// What the rewriter holds, in contracts.
    type State;

    /// What this rewriter holds.
    spec fn state(&self) -> Self::State;

    /// What `f_down` does.
    spec fn f_down_model(state: Self::State, tree: <Self::Node as TreeStructure>::Model) -> (
        Self::State,
        Outcome<<Self::Node as TreeStructure>::Model>,
    );

    /// What `f_up` does.
    spec fn f_up_model(state: Self::State, tree: <Self::Node as TreeStructure>::Model) -> (
        Self::State,
        Outcome<<Self::Node as TreeStructure>::Model>,
    );

    /// When `f_down` reports `Continue`, it returns nothing higher than the
    /// node it was given.
    proof fn lemma_f_down_is_no_higher(
        state: Self::State,
        tree: <Self::Node as TreeStructure>::Model,
    )
        ensures
            Self::f_down_model(state, tree).1 matches Ok(t) ==> (t.tnr is Continue ==> <
                Self::Node as TreeStructure
            >::height(t.data) <= <Self::Node as TreeStructure>::height(tree)),
    ;

    /// Runs on `node` before any of its children is rewritten.
    fn f_down(&mut self, node: Self::Node) -> (r: Result<Transformed<Self::Node>, TraversalError>)
        ensures
            (final(self).state(), outcome_model(r)) == Self::f_down_model(
                old(self).state(),
                node.model(),
            ),
    ;

    /// Runs on `node` after its children have been rewritten.
    fn f_up(&mut self, node: Self::Node) -> (r: Result<Transformed<Self::Node>, TraversalError>)
        ensures
            (final(self).state(), outcome_model(r)) == Self::f_up_model(
                old(self).state(),
                node.model(),
            ),
    ;
}

/// The tree `tree` after its children have been rewritten with the
/// outcomes `outs`:
/// - a node without children is left as `detach` leaves it, unchanged, with
///   `Continue`;
/// - a failure among the outcomes is handed on;
/// - else the node is built again around what `gather` makes of its
///   children and the outcomes, with the flag and the signal gathered, or
///   fails as `attach` does.
pub open spec fn rebuild<N: TreeStructure>(
    tree: N::Model,
    outs: Seq<Outcome<N::Model>>,
) -> Outcome<N::Model> {
    if N::subtrees(tree).len() == 0 {
        Ok(
            Transformed {
                data: N::detached(tree),
                transformed: false,
                tnr: TreeNodeRecursion::Continue,
            },
        )
    } else {
        match gather(N::subtrees(tree), outs) {
            Err(e) => Err(e),
            Ok(children) => match N::attached(
                N::detached(tree),
                children.data,
                children.transformed,
            ) {
                Err(e) => Err(e),
                Ok(data) => Ok(
                    Transformed { data, transformed: children.transformed, tnr: children.tnr },
                ),
            },
        }
    }
}

/// The rewriting walk after the children: `below` is the tree built again
/// around its rewritten children.
///
/// On `Continue`, `post` runs on the tree, and its outcome keeps the flag of
/// `below`. On `Jump` and on `Stop`, `post` does not run and `below` is
/// handed up as it is.
pub open spec fn ascend<S, M>(post: Reshape<S, M>, s: S, below: Transformed<M>) -> (S, Outcome<M>) {
    match below.tnr {
        TreeNodeRecursion::Continue => {
            let (s1, up) = post(s, below.data);
            (s1, keep_change(below.transformed, up))
        },
        _ => (s, Ok(below)),
    }
}

/// The rewriting walk of `tree`, a tree of nodes `N`.
///
/// `pre` and `post` are the two callbacks, as functions from what the walk
/// has gathered so far (`s`) and a tree to what it has gathered afterwards
/// and what the callback returns. The result is what the walk has gathered
/// at its end, and the rewritten tree with its flag and signal.
///
/// - `pre` runs on the tree. On a failure or on `Stop` the walk ends there,
///   with what `pre` returned.
/// - On `Jump` the children are left out: `post` runs on the tree that
///   `pre` returned.
/// - On `Continue` the children of the tree that `pre` returned are
///   rewritten in order (`remake_children`) and the tree is built again
///   around them (`rebuild`); then `ascend`.
/// - Whatever follows `pre` keeps the flag that `pre` set.
///
/// The walk goes down only into a tree that is no higher than the one that
/// `pre` was given: a callback that reports `Continue` with a higher one
/// breaks what is asked of it, and the walk is then taken to end there.
pub open spec fn remake<S, N: TreeStructure>(
    pre: Reshape<S, N::Model>,
    post: Reshape<S, N::Model>,
    s: S,
    tree: N::Model,
) -> (S, Outcome<N::Model>)
    decreases N::height(tree), 1int, 0int,
{
    let (s1, down) = pre(s, tree);
    match down {
        Ok(t) => match t.tnr {
            TreeNodeRecursion::Continue => if N::height(t.data) <= N::height(tree) {
                let (s2, outs) = remake_children::<S, N>(pre, post, s1, t.data, 0, Seq::empty());
                match rebuild::<N>(t.data, outs) {
                    Ok(below) => {
                        let (s3, up) = ascend(post, s2, below);
                        (s3, keep_change(t.transformed, up))
                    },
                    Err(e) => (s2, Err(e)),
                }
            } else {
                (s1, down)
            },
            TreeNodeRecursion::Jump => {
                let (s2, up) = post(s1, t.data);
                (s2, keep_change(t.transformed, up))
            },
            TreeNodeRecursion::Stop => (s1, down),
        },
        Err(_) => (s1, down),
    }
}

/// The rewriting walks of the children of `tree` from the one at index
/// `from` on, after the outcomes `done` of those before it: what the walk
/// has gathered at the end, and the outcomes of all the children that were
/// rewritten, in order.
///
/// The children are rewritten in order, up to the first whose outcome does
/// not go on (`goes_on`): none is rewritten after a `Stop` or a failure.
pub open spec fn remake_children<S, N: TreeStructure>(
    pre: Reshape<S, N::Model>,
    post: Reshape<S, N::Model>,
    s: S,
    tree: N::Model,
    from: int,
    done: Seq<Outcome<N::Model>>,
) -> (S, Seq<Outcome<N::Model>>)
    decreases N::height(tree), 0int, N::subtrees(tree).len() - from,
{
    if 0 <= from < N::subtrees(tree).len() {
        proof {
            N::lemma_subtrees_are_lower(tree);
        }
        let (s1, out) = remake::<S, N>(pre, post, s, N::subtrees(tree)[from]);
        if goes_on(out) {
            remake_children::<S, N>(pre, post, s1, tree, from + 1, done.push(out))
        } else {
            (s1, done.push(out))
        }
    } else {
        (s, done)
    }
}

/// `f_down` of the rewriters `R`, as a function.
pub open spec fn rewriter_pre<R: TreeNodeRewriter>() -> Reshape<
    R::State,
    <R::Node as TreeStructure>::Model,
> {
    |state: R::State, tree: <R::Node as TreeStructure>::Model| R::f_down_model(state, tree)
}

/// `f_up` of the rewriters `R`, as a function.
pub open spec fn rewriter_post<R: TreeNodeRewriter>() -> Reshape<
    R::State,
    <R::Node as TreeStructure>::Model,
> {
    |state: R::State, tree: <R::Node as TreeStructure>::Model| R::f_up_model(state, tree)
}

/// What `rewrite` makes of a rewriter that holds `state` and of `tree`:
/// what the rewriter holds afterwards, and the rewritten tree with its flag
/// and signal.
pub open spec fn rewrite_spec<R: TreeNodeRewriter>(
    state: R::State,
    tree: <R::Node as TreeStructure>::Model,
) -> (R::State, Outcome<<R::Node as TreeStructure>::Model>) {
    remake::<R::State, R::Node>(rewriter_pre::<R>(), rewriter_post::<R>(), state, tree)
}

/// Rewrites the tree under `node` with `rewriter`.
pub(crate) fn rewrite_node<R: TreeNodeRewriter>(node: R::Node, rewriter: &mut R) -> (r: Result<
    Transformed<R::Node>,
    TraversalError,
>)
    ensures
        (final(rewriter).state(), outcome_model(r)) == rewrite_spec::<R>(
            old(rewriter).state(),
            node.model(),
        ),
    decreases <R::Node as TreeStructure>::height(node.model()), 1int,
{
    proof {
        R::lemma_f_down_is_no_higher(rewriter.state(), node.model());
    }
    let pre_visited = rewriter.f_down(node)?;
    match pre_visited.tnr {
        TreeNodeRecursion::Continue => {
            let earlier = pre_visited.transformed;
            let below = rewrite_children(pre_visited.data, rewriter)?;
            let post_visited = match below.tnr {
                TreeNodeRecursion::Continue => {
                    let changed_below = below.transformed;
                    after_earlier_change(changed_below, rewriter.f_up(below.data))
                },
                _ => Ok(below),
            };
            after_earlier_change(earlier, post_visited)
        },
        TreeNodeRecursion::Jump => {
            let earlier = pre_visited.transformed;
            after_earlier_change(earlier, rewriter.f_up(pre_visited.data))
        },
        TreeNodeRecursion::Stop => Ok(pre_visited),
    }
}

/// Rewrites the children of `node` with `rewriter`, in order, and builds
/// the node again around them.
fn rewrite_children<R: TreeNodeRewriter>(node: R::Node, rewriter: &mut R) -> (r: Result<
    Transformed<R::Node>,
    TraversalError,
>)
    ensures
        ({
            let (state, outs) = remake_children::<R::State, R::Node>(
                rewriter_pre::<R>(),
                rewriter_post::<R>(),
                old(rewriter).state(),
                node.model(),
                0,
                Seq::empty(),
            );
            final(rewriter).state() == state && outcome_model(r) == rebuild::<R::Node>(
                node.model(),
                outs,
            )
        }),
    decreases <R::Node as TreeStructure>::height(node.model()), 0int,
{
    let ghost tree = node.model();
    let ghost kids = <R::Node as TreeStructure>::subtrees(tree);
    let (shell, children) = node.detach();
    if children.len() == 0 {
        return Ok(Transformed::no(shell));
    }
    let ghost full = remake_children::<R::State, R::Node>(
        rewriter_pre::<R>(),
        rewriter_post::<R>(),
        rewriter.state(),
        tree,
        0,
        Seq::empty(),
    );
    let ghost mut outs: Seq<Outcome<<R::Node as TreeStructure>::Model>> = Seq::empty();
    let mut data: Vec<R::Node> = Vec::new();
    let mut transformed = false;
    let mut tnr = TreeNodeRecursion::Continue;
    proof {
        lemma_gather_none::<<R::Node as TreeStructure>::Model, Failure>(kids);
        assert(models_of(data@) =~= Seq::empty());
        assert(models_of(children@) =~= kids);
    }
    for child in it: children.into_iter()
        invariant
            tree == node.model(),
            models_of(it.seq()) == kids,
            kids == <R::Node as TreeStructure>::subtrees(tree),
            kids.len() > 0,
            shell.model() == <R::Node as TreeStructure>::detached(tree),
            data@.len() == it.index(),
            outs.len() <= it.index(),
            all_ok(outs),
            gather(kids.take(it.index()), outs) == Ok::<
                Transformed<Seq<<R::Node as TreeStructure>::Model>>,
                Failure,
            >(Transformed { data: models_of(data@), transformed, tnr }),
            full == remake_children::<R::State, R::Node>(
                rewriter_pre::<R>(),
                rewriter_post::<R>(),
                old(rewriter).state(),
                tree,
                0,
                Seq::empty(),
            ),
            tnr is Stop ==> (rewriter.state(), outs) == full,
            !(tnr is Stop) ==> outs.len() == it.index() && remake_children::<R::State, R::Node>(
                rewriter_pre::<R>(),
                rewriter_post::<R>(),
                rewriter.state(),
                tree,
                it.index(),
                outs,
            ) == full,
    {
        let ghost at = it.index();
        let ghost gathered = models_of(data@);
        assert(child.model() == kids[at]) by {
            assert(models_of(it.seq())[at] == it.seq()[at].model());
        }
        match tnr {
            TreeNodeRecursion::Stop => {
                proof {
                    lemma_gather_keep(kids, outs, at);
                }
                data.push(child);
                proof {
                    assert(models_of(data@) =~= gathered.push(kids[at]));
                }
            },
            _ => {
                proof {
                    <R::Node as TreeStructure>::lemma_subtrees_are_lower(tree);
                }
                let out = rewrite_node(child, rewriter);
                match out {
                    Err(e) => {
                        proof {
                            let failed = outcome_model::<R::Node>(out);
                            assert(full == (rewriter.state(), outs.push(failed)));
                            assert(outs.push(failed).last() == failed);
                        }
                        return Err(e);
                    },
                    Ok(t) => {
                        proof {
                            let made = outcome_model::<R::Node>(out);
                            lemma_gather_step(kids, outs, made->Ok_0);
                            outs = outs.push(made);
                        }
                        tnr = t.tnr;
                        transformed = transformed || t.transformed;
                        data.push(t.data);
                        proof {
                            assert(models_of(data@) =~= gathered.push(t.data.model()));
                        }
                    },
                }
            },
        }
    }
    proof {
        assert(kids.take(kids.len() as int) =~= kids);
        assert(models_of(data@) =~= Seq::new(data@.len(), |i: int| data@[i].model()));
    }
    match shell.attach(data, transformed) {
        Ok(rebuilt) => Ok(Transformed::new(rebuilt, transformed, tnr)),
        Err(e) => Err(e),
    }
}

/// `result` is what the rewriting walk of `tree` can come to when, on each
/// tree, the callback before the children returns an outcome that `down`
/// allows and the callback after the children one that `up` allows.
///
/// The walk is that of `remake`, for callbacks that are known only by what
/// they may return: the callback before the children returns some outcome
/// on the tree, and the walk goes on from there (`can_remake_from`).
pub open spec fn can_remake<N: TreeStructure>(
    down: Returns<N::Model>,
    up: Returns<N::Model>,
    tree: N::Model,
    result: Outcome<N::Model>,
) -> bool
    decreases N::height(tree), 2int,
{
    exists|d: Outcome<N::Model>|
        #[trigger] down(tree, d) && can_remake_from::<N>(down, up, tree, d, result)
}

/// `result` is what the rewriting walk of `tree` can come to after the
/// callback before the children has returned `d`.
///
/// - On a failure or on `Stop` the walk ends there, with `d`.
/// - On `Jump` the callback after the children returns some outcome on the
///   tree that `d` holds, and the walk ends as that, with the flag kept.
/// - On `Continue` the children of the tree that `d` holds are rewritten
///   (`can_remake_children`), the tree is built again around them
///   (`rebuild`), and the walk goes on from there (`can_ascend`).
pub open spec fn can_remake_from<N: TreeStructure>(
    down: Returns<N::Model>,
    up: Returns<N::Model>,
    tree: N::Model,
    d: Outcome<N::Model>,
    result: Outcome<N::Model>,
) -> bool
    decreases N::height(tree), 1int,
{
    match d {
        Ok(t) => match t.tnr {
            TreeNodeRecursion::Continue => if N::height(t.data) <= N::height(tree) {
                exists|outs: Seq<Outcome<N::Model>>|
                    can_remake_children::<N>(down, up, t.data, outs) && can_ascend(
                        up,
                        t.transformed,
                        #[trigger] rebuild::<N>(t.data, outs),
                        result,
                    )
            } else {
                result == d
            },
            TreeNodeRecursion::Jump => exists|u: Outcome<N::Model>|
                #[trigger] up(t.data, u) && result == keep_change(t.transformed, u),
            TreeNodeRecursion::Stop => result == d,
        },
        Err(_) => result == d,
    }
}

/// `result` is what the rewriting walk of a tree can come to after its
/// children, when the tree built again around them is `rebuilt` and
/// `earlier` says whether the callback before the children flagged a
/// change.
///
/// If the tree was built and ends in `Continue`, the callback after the
/// children returns some outcome on it, and the walk ends as that; else
/// the walk ends as `rebuilt`. The flag is kept.
pub open spec fn can_ascend<M>(
    up: Returns<M>,
    earlier: bool,
    rebuilt: Outcome<M>,
    result: Outcome<M>,
) -> bool {
    match rebuilt {
        Ok(below) => match below.tnr {
            TreeNodeRecursion::Continue => exists|u: Outcome<M>|
                #[trigger] up(below.data, u) && result == keep_change(
                    earlier,
                    keep_change(below.transformed, u),
                ),
            _ => result == keep_change(earlier, rebuilt),
        },
        Err(_) => result == rebuilt,
    }
}

/// `outs` can be the outcomes of the rewriting walks of the children of
/// `tree`, in order: each is what the walk of its child can come to, and
/// the children are rewritten up to the first whose outcome does not go on.
pub open spec fn can_remake_children<N: TreeStructure>(
    down: Returns<N::Model>,
    up: Returns<N::Model>,
    tree: N::Model,
    outs: Seq<Outcome<N::Model>>,
) -> bool
    decreases N::height(tree), 0int,
{
    &&& is_run(outs, N::subtrees(tree).len())
    &&& forall|k: int|
        0 <= k < outs.len() ==> {
            proof {
                N::lemma_subtrees_are_lower(tree);
            }
            can_remake::<N>(down, up, N::subtrees(tree)[k], #[trigger] outs[k])
        }
}

/// After `Continue` from the callback before the children, the walk can
/// come to what it can come to after some outcomes of the children.
pub proof fn lemma_can_remake_through_children<N: TreeStructure>(
    down: Returns<N::Model>,
    up: Returns<N::Model>,
    tree: N::Model,
    t: Transformed<N::Model>,
    outs: Seq<Outcome<N::Model>>,
    result: Outcome<N::Model>,
)
    requires
        t.tnr is Continue,
        N::height(t.data) <= N::height(tree),
        can_remake_children::<N>(down, up, t.data, outs),
        can_ascend(up, t.transformed, rebuild::<N>(t.data, outs), result),
    ensures
        can_remake_from::<N>(down, up, tree, Ok(t), result),
{
}

/// `outs` can be what a callback returns on the children of `tree`, in
/// order, when it runs on them one after the other until an outcome does
/// not go on, and returns outcomes that `allowed` allows.
pub open spec fn can_return_on_children<N: TreeStructure>(
    allowed: Returns<N::Model>,
    tree: N::Model,
    outs: Seq<Outcome<N::Model>>,
) -> bool {
    &&& is_run(outs, N::subtrees(tree).len())
    &&& forall|k: int| 0 <= k < outs.len() ==> allowed(N::subtrees(tree)[k], #[trigger] outs[k])
}

/// What the rewriting walk can come to with two callbacks, it can come to
/// with any two callbacks that may return all that the first two may.
pub proof fn lemma_can_remake_widens<N: TreeStructure>(
    down: Returns<N::Model>,
    up: Returns<N::Model>,
    wide_down: Returns<N::Model>,
    wide_up: Returns<N::Model>,
    tree: N::Model,
    result: Outcome<N::Model>,
)
    requires
        returns_within(down, wide_down),
        returns_within(up, wide_up),
        can_remake::<N>(down, up, tree, result),
    ensures
        can_remake::<N>(wide_down, wide_up, tree, result),
    decreases N::height(tree), 1int,
{
    let d = choose|d: Outcome<N::Model>|
        #[trigger] down(tree, d) && can_remake_from::<N>(down, up, tree, d, result);
    assert(wide_down(tree, d));
    if d is Ok {
        let t = d->Ok_0;
        match t.tnr {
            TreeNodeRecursion::Continue => {
                if N::height(t.data) <= N::height(tree) {
                    let outs = choose|outs: Seq<Outcome<N::Model>>|
                        can_remake_children::<N>(down, up, t.data, outs) && can_ascend(
                            up,
                            t.transformed,
                            #[trigger] rebuild::<N>(t.data, outs),
                            result,
                        );
                    assert forall|k: int| 0 <= k < outs.len() implies can_remake::<N>(
                        wide_down,
                        wide_up,
                        N::subtrees(t.data)[k],
                        #[trigger] outs[k],
                    ) by {
                        N::lemma_subtrees_are_lower(t.data);
                        lemma_can_remake_widens::<N>(
                            down,
                            up,
                            wide_down,
                            wide_up,
                            N::subtrees(t.data)[k],
                            outs[k],
                        );
                    }
                    assert(can_remake_children::<N>(wide_down, wide_up, t.data, outs));
                    lemma_can_ascend_widens(
                        up,
                        wide_up,
                        t.transformed,
                        rebuild::<N>(t.data, outs),
                        result,
                    );
                    lemma_can_remake_through_children::<N>(
                        wide_down,
                        wide_up,
                        tree,
                        t,
                        outs,
                        result,
                    );
                }
            },
            TreeNodeRecursion::Jump => {
                let u = choose|u: Outcome<N::Model>|
                    #[trigger] up(t.data, u) && result == keep_change(t.transformed, u);
                assert(wide_up(t.data, u));
            },
            TreeNodeRecursion::Stop => {},
        }
    }
    assert(can_remake_from::<N>(wide_down, wide_up, tree, d, result));
}

/// `lemma_can_remake_widens`, for the walk after the children.
pub proof fn lemma_can_ascend_widens<M>(
    up: Returns<M>,
    wide_up: Returns<M>,
    earlier: bool,
    rebuilt: Outcome<M>,
    result: Outcome<M>,
)
    requires
        returns_within(up, wide_up),
        can_ascend(up, earlier, rebuilt, result),
    ensures
        can_ascend(wide_up, earlier, rebuilt, result),
{
    if rebuilt is Ok && rebuilt->Ok_0.tnr is Continue {
        let below = rebuilt->Ok_0;
        let u = choose|u: Outcome<M>|
            #[trigger] up(below.data, u) && result == keep_change(
                earlier,
                keep_change(below.transformed, u),
            );
        assert(wide_up(below.data, u));
    }
}

/// A closure that rewrites a node, as a callback of a walk that gathers
/// nothing.
pub open spec fn reshaper<M>(g: spec_fn(M) -> Outcome<M>) -> Reshape<(), M> {
    |s: (), tree: M| ((), g(tree))
}

/// The rewriting step that leaves every tree as it is and reports
/// `Continue`.
pub open spec fn leave<M>() -> spec_fn(M) -> Outcome<M> {
    |tree: M| Ok(Transformed { data: tree, transformed: false, tnr: TreeNodeRecursion::Continue })
}

/// What `transform_down_up` returns on `tree`, a tree of nodes `N`, for
/// closures that rewrite as `g_down` and `g_up` say: what the rewriting
/// walk returns with `g_down` before the children and `g_up` after them.
pub open spec fn transform_down_up_spec<N: TreeStructure>(
    g_down: spec_fn(N::Model) -> Outcome<N::Model>,
    g_up: spec_fn(N::Model) -> Outcome<N::Model>,
    tree: N::Model,
) -> Outcome<N::Model> {
    remake::<(), N>(reshaper(g_down), reshaper(g_up), (), tree).1
}

/// What `transform_down` returns on `tree`, for a closure that rewrites as
/// `g` says: the walk with `g` before the children and nothing after them.
pub open spec fn transform_down_spec<N: TreeStructure>(
    g: spec_fn(N::Model) -> Outcome<N::Model>,
    tree: N::Model,
) -> Outcome<N::Model> {
    transform_down_up_spec::<N>(g, leave(), tree)
}

/// What `transform_up` returns on `tree`, for a closure that rewrites as
/// `g` says: the walk with nothing before the children and `g` after them.
pub open spec fn transform_up_spec<N: TreeStructure>(
    g: spec_fn(N::Model) -> Outcome<N::Model>,
    tree: N::Model,
) -> Outcome<N::Model> {
    transform_down_up_spec::<N>(leave(), g, tree)
}

/// Rewrites the tree under `node`, with `f_down` run on each node before
/// its children and `f_up` after them.
pub(crate) fn transform_down_up_node<
    N: TreeStructure,
    FD: FnMut(N) -> Result<Transformed<N>, TraversalError>,
    FU: FnMut(N) -> Result<Transformed<N>, TraversalError>,
>(node: N, f_down: &mut FD, f_up: &mut FU) -> (r: Result<Transformed<N>, TraversalError>)
    requires
        forall|m: N| call_requires(*old(f_down), (m,)),
        forall|m: N| call_requires(*old(f_up), (m,)),
        is_no_higher::<N, FD>(*old(f_down)),
    ensures
        *final(f_down) == *old(f_down),
        *final(f_up) == *old(f_up),
        can_remake::<N>(
            returns_of::<N, FD>(*old(f_down)),
            returns_of::<N, FU>(*old(f_up)),
            node.model(),
            outcome_model(r),
        ),
    decreases N::height(node.model()), 1int,
{
    let ghost tree = node.model();
    let ghost down = returns_of::<N, FD>(*f_down);
    let ghost up = returns_of::<N, FU>(*f_up);
    let made = f_down(node);
    let ghost d = outcome_model::<N>(made);
    assert(down(tree, d));
    let pre_visited = match made {
        Ok(t) => t,
        Err(e) => {
            proof {
                assert(can_remake_from::<N>(down, up, tree, d, d));
            }
            return Err(e);
        },
    };
    match pre_visited.tnr {
        TreeNodeRecursion::Continue => {
            let earlier = pre_visited.transformed;
            let ghost inner = pre_visited.data.model();
            let (rebuilt, Ghost(outs)) = transform_children(pre_visited.data, f_down, f_up);
            proof {
                assert(N::height(inner) <= N::height(tree));
                assert(can_remake_children::<N>(down, up, inner, outs));
                assert(d is Ok && d->Ok_0.tnr is Continue && d->Ok_0.data == inner
                    && d->Ok_0.transformed == earlier);
            }
            let below = match rebuilt {
                Ok(t) => t,
                Err(e) => {
                    proof {
                        let failed = Err::<Transformed<N::Model>, Failure>(e@);
                        assert(rebuild::<N>(inner, outs) == failed);
                        assert(can_ascend(up, earlier, rebuild::<N>(inner, outs), failed));
                        lemma_can_remake_through_children::<N>(
                            down,
                            up,
                            tree,
                            d->Ok_0,
                            outs,
                            failed,
                        );
                    }
                    return Err(e);
                },
            };
            let ghost built = below.data.model();
            let ghost below_model = Transformed {
                data: built,
                transformed: below.transformed,
                tnr: below.tnr,
            };
            proof {
                assert(rebuild::<N>(inner, outs) == Ok::<Transformed<N::Model>, Failure>(
                    below_model,
                ));
            }
            match below.tnr {
                TreeNodeRecursion::Continue => {
                    let changed_below = below.transformed;
                    let raised = f_up(below.data);
                    let ghost u = outcome_model::<N>(raised);
                    assert(up(built, u));
                    let r = after_earlier_change(
                        earlier,
                        after_earlier_change(changed_below, raised),
                    );
                    proof {
                        assert(outcome_model(r) == keep_change(
                            earlier,
                            keep_change(changed_below, u),
                        ));
                        assert(can_ascend(
                            up,
                            earlier,
                            rebuild::<N>(inner, outs),
                            outcome_model(r),
                        ));
                        lemma_can_remake_through_children::<N>(
                            down,
                            up,
                            tree,
                            d->Ok_0,
                            outs,
                            outcome_model(r),
                        );
                    }
                    r
                },
                _ => {
                    let r = after_earlier_change(earlier, Ok(below));
                    proof {
                        assert(outcome_model(r) == keep_change(
                            earlier,
                            Ok::<Transformed<N::Model>, Failure>(below_model),
                        ));
                        assert(can_ascend(
                            up,
                            earlier,
                            rebuild::<N>(inner, outs),
                            outcome_model(r),
                        ));
                        lemma_can_remake_through_children::<N>(
                            down,
                            up,
                            tree,
                            d->Ok_0,
                            outs,
                            outcome_model(r),
                        );
                    }
                    r
                },
            }
        },
        TreeNodeRecursion::Jump => {
            let earlier = pre_visited.transformed;
            let ghost inner = pre_visited.data.model();
            let raised = f_up(pre_visited.data);
            let ghost u = outcome_model::<N>(raised);
            assert(up(inner, u));
            let r = after_earlier_change(earlier, raised);
            proof {
                assert(can_remake_from::<N>(down, up, tree, d, outcome_model(r)));
            }
            r
        },
        TreeNodeRecursion::Stop => {
            proof {
                assert(can_remake_from::<N>(down, up, tree, d, d));
            }
            Ok(pre_visited)
        },
    }
}

/// Rewrites the children of `node` with `f_down` and `f_up`, in order, and
/// builds the node again around them. The second result is what the
/// children came to.
fn transform_children<
    N: TreeStructure,
    FD: FnMut(N) -> Result<Transformed<N>, TraversalError>,
    FU: FnMut(N) -> Result<Transformed<N>, TraversalError>,
>(node: N, f_down: &mut FD, f_up: &mut FU) -> (r: (
    Result<Transformed<N>, TraversalError>,
    Ghost<Seq<Outcome<N::Model>>>,
))
    requires
        forall|m: N| call_requires(*old(f_down), (m,)),
        forall|m: N| call_requires(*old(f_up), (m,)),
        is_no_higher::<N, FD>(*old(f_down)),
    ensures
        *final(f_down) == *old(f_down),
        *final(f_up) == *old(f_up),
        can_remake_children::<N>(
            returns_of::<N, FD>(*old(f_down)),
            returns_of::<N, FU>(*old(f_up)),
            node.model(),
            r.1@,
        ),
        outcome_model(r.0) == rebuild::<N>(node.model(), r.1@),
    decreases N::height(node.model()), 0int,
{
    let ghost tree = node.model();
    let ghost kids = N::subtrees(tree);
    let ghost down = returns_of::<N, FD>(*f_down);
    let ghost up = returns_of::<N, FU>(*f_up);
    let (shell, children) = node.detach();
    let ghost mut outs: Seq<Outcome<N::Model>> = Seq::empty();
    if children.len() == 0 {
        return (Ok(Transformed::no(shell)), Ghost(outs));
    }
    let mut data: Vec<N> = Vec::new();
    let mut transformed = false;
    let mut tnr = TreeNodeRecursion::Continue;
    proof {
        lemma_gather_none::<N::Model, Failure>(kids);
        assert(models_of(data@) =~= Seq::empty());
        assert(models_of(children@) =~= kids);
    }
    for child in it: children.into_iter()
        invariant
            tree == node.model(),
            models_of(it.seq()) == kids,
            kids == N::subtrees(tree),
            kids.len() > 0,
            shell.model() == N::detached(tree),
            *f_down == *old(f_down),
            *f_up == *old(f_up),
            down == returns_of::<N, FD>(*old(f_down)),
            up == returns_of::<N, FU>(*old(f_up)),
            forall|m: N| call_requires(*f_down, (m,)),
            forall|m: N| call_requires(*f_up, (m,)),
            is_no_higher::<N, FD>(*f_down),
            data@.len() == it.index(),
            outs.len() <= it.index(),
            all_ok(outs),
            gather(kids.take(it.index()), outs) == Ok::<Transformed<Seq<N::Model>>, Failure>(
                Transformed { data: models_of(data@), transformed, tnr },
            ),
            !(tnr is Stop) ==> outs.len() == it.index(),
            forall|k: int| 0 <= k < outs.len() - 1 ==> goes_on(#[trigger] outs[k]),
            forall|k: int|
                0 <= k < outs.len() ==> can_remake::<N>(down, up, kids[k], #[trigger] outs[k]),
    {
        let ghost at = it.index();
        let ghost gathered = models_of(data@);
        assert(child.model() == kids[at]) by {
            assert(models_of(it.seq())[at] == it.seq()[at].model());
        }
        match tnr {
            TreeNodeRecursion::Stop => {
                proof {
                    lemma_gather_keep(kids, outs, at);
                }
                data.push(child);
                proof {
                    assert(models_of(data@) =~= gathered.push(kids[at]));
                }
            },
            _ => {
                proof {
                    N::lemma_subtrees_are_lower(tree);
                }
                let out = transform_down_up_node(child, f_down, f_up);
                let ghost ran = outs;
                let ghost made = outcome_model::<N>(out);
                proof {
                    if ran.len() > 0 {
                        assert(goes_on(ran.last()));
                    }
                    outs = ran.push(made);
                    assert forall|k: int| 0 <= k < outs.len() - 1 implies goes_on(
                        #[trigger] outs[k],
                    ) by {
                        assert(outs[k] == ran[k]);
                        if k == ran.len() - 1 {
                            assert(ran[k] == ran.last());
                        }
                    }
                    assert forall|k: int| 0 <= k < outs.len() implies can_remake::<N>(
                        down,
                        up,
                        kids[k],
                        #[trigger] outs[k],
                    ) by {
                        if k < ran.len() {
                            assert(outs[k] == ran[k]);
                        }
                    }
                }
                match out {
                    Err(e) => {
                        proof {
                            assert(outs.last() == made);
                            assert(is_run(outs, kids.len()));
                            assert(can_remake_children::<N>(down, up, tree, outs));
                        }
                        return (Err(e), Ghost(outs));
                    },
                    Ok(t) => {
                        proof {
                            lemma_gather_step(kids, ran, made->Ok_0);
                        }
                        tnr = t.tnr;
                        transformed = transformed || t.transformed;
                        data.push(t.data);
                        proof {
                            assert(models_of(data@) =~= gathered.push(t.data.model()));
                        }
                    },
                }
            },
        }
    }
    proof {
        assert(kids.take(kids.len() as int) =~= kids);
        assert(models_of(data@) =~= Seq::new(data@.len(), |i: int| data@[i].model()));
        if outs.len() < kids.len() {
            assert(tnr is Stop);
            assert(!goes_on(outs.last()));
        }
        assert(is_run(outs, kids.len()));
        assert(can_remake_children::<N>(down, up, tree, outs));
    }
    match shell.attach(data, transformed) {
        Ok(rebuilt) => (Ok(Transformed::new(rebuilt, transformed, tnr)), Ghost(outs)),
        Err(e) => (Err(e), Ghost(outs)),
    }
}

} // verus!
