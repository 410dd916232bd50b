//! What holds of every rewriting walk.
//!
//! `rewrite_calls` lists the runs of callbacks that a rewriting walk makes.
//! The walk is those runs and nothing else, and it flags a change if and
//! only if one of them did (`lemma_rewrite_is_its_calls`); it is depth
//! first where no callback signals (`lemma_rewrite_is_depth_first`); it
//! keeps to the signals (`lemma_rewrite_keeps_to_signals`); and it changes
//! nothing where the callbacks change nothing
//! (`lemma_rewrite_without_change`).

use vstd::prelude::*;
use crate::error::Failure;
use crate::laws::trail::{
    lemma_replay_both, lemma_replay_one, lemma_reports_both, lemma_reports_one, replay, reports,
    run, Call,
};
use crate::model::{Outcome, Reshape};
use crate::recursion::TreeNodeRecursion;
use crate::callback::{returns_within, says, Returns};
use crate::rewrite::{
    can_ascend, can_remake, can_remake_children, can_remake_from, leave, lemma_can_remake_widens,
    rebuild, remake, remake_children, reshaper, rewrite_spec, rewriter_post, rewriter_pre,
    transform_down_spec, transform_down_up_spec, transform_up_spec, TreeNodeRewriter,
};
use crate::siblings::{all_ok, changed_at, gather, goes_on, is_run};
use crate::structure::{DynTreeNode, TreeStructure};
use crate::transformed::{keep_change, Transformed};
use std::sync::Arc;

verus! {

/// The callback `f` leaves every node as it is: it returns the node
/// unchanged, with `Continue`, and gathers nothing.
pub open spec fn leaves_alone<S, M>(
    f: Reshape<S, M>,
) -> bool {
    forall|s: S, tree: M| #[trigger]
        f(s, tree) == (
            s,
            Ok::<Transformed<M>, Failure>(
                Transformed { data: tree, transformed: false, tnr: TreeNodeRecursion::Continue },
            ),
        )
}

/// Every node of `tree` is itself again when it is parted from
/// its children and built again around them, unchanged.
pub open spec fn rebuilds_to_itself<N: TreeStructure>(tree: N::Model) -> bool
    decreases N::height(tree),
{
    &&& if N::subtrees(tree).len() == 0 {
        N::detached(tree) == tree
    } else {
        N::attached(N::detached(tree), N::subtrees(tree), false) == Ok::<N::Model, Failure>(tree)
    }
    &&& forall|i: int|
        0 <= i < N::subtrees(tree).len() ==> {
            proof {
                N::lemma_subtrees_are_lower(tree);
            }
            rebuilds_to_itself::<N>(#[trigger] N::subtrees(tree)[i])
        }
}

/// The outcomes of children that were all left alone.
pub open spec fn left_alone<M>(children: Seq<M>) -> Seq<Outcome<M>> {
    Seq::new(
        children.len(),
        |i: int|
            Ok(
                Transformed {
                    data: children[i],
                    transformed: false,
                    tnr: TreeNodeRecursion::Continue,
                },
            ),
    )
}

/// Rewriting that changes nothing changes nothing. With callbacks that
/// leave every node alone, the tree comes back as it was, with no change
/// flagged and with `Continue`, provided that each of its nodes is itself
/// again when it is built again around its own children.
pub proof fn lemma_rewrite_without_change<S, N: TreeStructure>(
    pre: Reshape<S, N::Model>,
    post: Reshape<S, N::Model>,
    s: S,
    tree: N::Model,
)
    requires
        leaves_alone(pre),
        leaves_alone(post),
        rebuilds_to_itself::<N>(tree),
    ensures
        remake::<S, N>(pre, post, s, tree) == (
            s,
            Ok::<Transformed<N::Model>, Failure>(
                Transformed { data: tree, transformed: false, tnr: TreeNodeRecursion::Continue },
            ),
        ),
    decreases N::height(tree), 1int, 0int,
{
    assert(pre(s, tree).0 == s);
    lemma_rewrite_children_without_change::<S, N>(pre, post, s, tree, 0);
    let kids = N::subtrees(tree);
    let outs = left_alone(kids);
    assert(left_alone(kids.take(0)) =~= Seq::empty());
    assert(kids.take(kids.len() as int) =~= kids);
    if kids.len() > 0 {
        let g = gather(kids, outs);
        assert(g->Ok_0.data =~= kids);
        assert(outs.last() == outs[kids.len() - 1]);
        assert(forall|i: int| 0 <= i < outs.len() ==> !changed_at(outs, i));
    }
    assert(post(s, tree).0 == s);
}

/// `lemma_rewrite_without_change`, for the children of `tree` from the one at
/// index `from` on: each is left alone.
pub proof fn lemma_rewrite_children_without_change<S, N: TreeStructure>(
    pre: Reshape<S, N::Model>,
    post: Reshape<S, N::Model>,
    s: S,
    tree: N::Model,
    from: int,
)
    requires
        leaves_alone(pre),
        leaves_alone(post),
        rebuilds_to_itself::<N>(tree),
        0 <= from <= N::subtrees(tree).len(),
    ensures
        remake_children::<S, N>(
            pre,
            post,
            s,
            tree,
            from,
            left_alone(N::subtrees(tree).take(from)),
        ) == (
            s,
            left_alone(N::subtrees(tree)),
        ),
    decreases N::height(tree), 0int, N::subtrees(tree).len() - from,
{
    let kids = N::subtrees(tree);
    if from < kids.len() {
        N::lemma_subtrees_are_lower(tree);
        let child = kids[from];
        assert(rebuilds_to_itself::<N>(child));
        lemma_rewrite_without_change::<S, N>(pre, post, s, child);
        lemma_rewrite_children_without_change::<S, N>(pre, post, s, tree, from + 1);
        let out = remake::<S, N>(pre, post, s, child).1;
        assert(left_alone(kids.take(from)).push(out) =~= left_alone(kids.take(from + 1)));
    } else {
        assert(kids.take(from) =~= kids);
    }
}

/// The runs of callbacks that the rewriting walk of `tree`
/// makes, in order. The callback before the children runs on the node as
/// the walk finds it, the callback after them on the node built again
/// around its rewritten children.
pub open spec fn rewrite_calls<S, N: TreeStructure>(
    pre: Reshape<S, N::Model>,
    post: Reshape<S, N::Model>,
    s: S,
    tree: N::Model,
) -> Seq<Call<N::Model>>
    decreases N::height(tree), 1int, 0int,
{
    let (s1, down) = pre(s, tree);
    match down {
        Ok(t) => match t.tnr {
            TreeNodeRecursion::Continue => if N::height(t.data) <= N::height(tree) {
                let outs = remake_children::<S, N>(pre, post, s1, t.data, 0, Seq::empty()).1;
                let runs = seq![Call::Down(tree)] + rewrite_children_calls::<S, N>(
                    pre,
                    post,
                    s1,
                    t.data,
                    0,
                );
                match rebuild::<N>(t.data, outs) {
                    Ok(below) => if below.tnr is Continue {
                        runs + seq![Call::Up(below.data)]
                    } else {
                        runs
                    },
                    Err(_) => runs,
                }
            } else {
                seq![Call::Down(tree)]
            },
            TreeNodeRecursion::Jump => seq![Call::Down(tree), Call::Up(t.data)],
            TreeNodeRecursion::Stop => seq![Call::Down(tree)],
        },
        Err(_) => seq![Call::Down(tree)],
    }
}

/// The runs of callbacks that the rewriting walk of the children of `tree`
/// makes from the child at index `from` on, in order.
pub open spec fn rewrite_children_calls<S, N: TreeStructure>(
    pre: Reshape<S, N::Model>,
    post: Reshape<S, N::Model>,
    s: S,
    tree: N::Model,
    from: int,
) -> Seq<Call<N::Model>>
    decreases N::height(tree), 0int, N::subtrees(tree).len() - from,
{
    if 0 <= from < N::subtrees(tree).len() {
        proof {
            N::lemma_subtrees_are_lower(tree);
        }
        let (s1, out) = remake::<S, N>(pre, post, s, N::subtrees(tree)[from]);
        let here = rewrite_calls::<S, N>(pre, post, s, N::subtrees(tree)[from]);
        if goes_on(out) {
            here + rewrite_children_calls::<S, N>(pre, post, s1, tree, from + 1)
        } else {
            here
        }
    } else {
        Seq::empty()
    }
}

/// One of the outcomes `outs` reports a change.
pub open spec fn any_change<M>(outs: Seq<Outcome<M>>) -> bool {
    exists|i: int| 0 <= i < outs.len() && changed_at(outs, i)
}

/// A change among outcomes one after the other is a change among the first
/// or among the others.
pub proof fn lemma_any_change_both<M>(
    first: Seq<Outcome<M>>,
    then: Seq<Outcome<M>>,
)
    ensures
        any_change(first + then) == (any_change(first) || any_change(then)),
{
    let all = first + then;
    if any_change(all) {
        let i = choose|i: int| 0 <= i < all.len() && changed_at(all, i);
        if i < first.len() {
            assert(changed_at(first, i));
        } else {
            assert(changed_at(then, i - first.len()));
        }
    }
    if any_change(first) {
        let i = choose|i: int| 0 <= i < first.len() && changed_at(first, i);
        assert(changed_at(all, i));
    }
    if any_change(then) {
        let i = choose|i: int| 0 <= i < then.len() && changed_at(then, i);
        assert(all[first.len() + i] == then[i]);
        assert(changed_at(all, first.len() + i));
    }
}

/// A change in a single outcome.
pub proof fn lemma_any_change_one<M>(out: Outcome<M>)
    ensures
        any_change(seq![out]) == (out matches Ok(t) && t.transformed),
{
    let one = seq![out];
    if out matches Ok(t) && t.transformed {
        assert(changed_at(one, 0));
    }
}

/// The outcomes of children are gathered behind those that were there: the
/// walk of the children does not depend on `done`.
pub proof fn lemma_remake_children_after<S, N: TreeStructure>(
    pre: Reshape<S, N::Model>,
    post: Reshape<S, N::Model>,
    s: S,
    tree: N::Model,
    from: int,
    done: Seq<Outcome<N::Model>>,
)
    requires
        0 <= from <= N::subtrees(tree).len(),
    ensures
        remake_children::<S, N>(pre, post, s, tree, from, done) == (
            remake_children::<S, N>(pre, post, s, tree, from, Seq::empty()).0,
            done + remake_children::<S, N>(pre, post, s, tree, from, Seq::empty()).1,
        ),
    decreases N::subtrees(tree).len() - from,
{
    let none = Seq::<Outcome<N::Model>>::empty();
    if from < N::subtrees(tree).len() {
        let (s1, out) = remake::<S, N>(pre, post, s, N::subtrees(tree)[from]);
        if goes_on(out) {
            lemma_remake_children_after::<S, N>(pre, post, s1, tree, from + 1, done.push(out));
            lemma_remake_children_after::<S, N>(pre, post, s1, tree, from + 1, none.push(out));
            let rest = remake_children::<S, N>(pre, post, s1, tree, from + 1, none).1;
            assert(done.push(out) + rest =~= done + (none.push(out) + rest));
        } else {
            assert(done.push(out) =~= done + none.push(out));
        }
    } else {
        assert(done + none =~= done);
    }
}

/// The rewriting walk is its runs. The runs that `rewrite_calls` lists
/// make of what the walk had gathered what the walk has gathered at its
/// end. The first of them is the callback before the children, on the
/// root. Where the walk succeeds, it ends with the signal that the last run
/// returned, and its flag is set if and only if a run returned a set flag.
/// Where the last run fails, the walk fails in the same way.
pub proof fn lemma_rewrite_is_its_calls<S, N: TreeStructure>(
    pre: Reshape<S, N::Model>,
    post: Reshape<S, N::Model>,
    s: S,
    tree: N::Model,
)
    ensures
        ({
            let runs = rewrite_calls::<S, N>(pre, post, s, tree);
            let got = reports(pre, post, s, runs);
            let (end, result) = remake::<S, N>(pre, post, s, tree);
            &&& runs.len() > 0
            &&& runs[0] == Call::Down(tree)
            &&& got.len() == runs.len()
            &&& end == replay(pre, post, s, runs)
            &&& result matches Ok(t) ==> got.last() matches Ok(l) && l.tnr == t.tnr
                && t.transformed == any_change(got)
            &&& got.last() matches Err(e) ==> result == Err::<Transformed<N::Model>, Failure>(e)
        }),
    decreases N::height(tree), 1int, 0int,
{
    let (s1, down) = pre(s, tree);
    let first = seq![Call::Down(tree)];
    lemma_replay_one(pre, post, s, Call::Down(tree));
    lemma_reports_one(pre, post, s, Call::Down(tree));
    lemma_any_change_one(down);
    match down {
        Ok(t) => match t.tnr {
            TreeNodeRecursion::Continue => if N::height(t.data) <= N::height(tree) {
                let node = t.data;
                let kids = N::subtrees(node);
                let (s2, outs) = remake_children::<S, N>(pre, post, s1, node, 0, Seq::empty());
                let below_calls = rewrite_children_calls::<S, N>(pre, post, s1, node, 0);
                let below_got = reports(pre, post, s1, below_calls);
                lemma_rewrite_children_are_their_calls::<S, N>(pre, post, s1, node, 0);
                let runs = first + below_calls;
                lemma_replay_both(pre, post, s, first, below_calls);
                lemma_reports_both(pre, post, s, first, below_calls);
                lemma_any_change_both(seq![down], below_got);
                let runs_got = reports(pre, post, s, runs);
                assert(runs_got == seq![down] + below_got);
                if kids.len() > 0 {
                    assert(runs_got.last() == below_got.last());
                } else {
                    assert(runs =~= first);
                }
                match rebuild::<N>(node, outs) {
                    Ok(below) => {
                        if kids.len() > 0 {
                            assert(all_ok(outs)) by {
                                assert forall|k: int| 0 <= k < outs.len() implies (
                                #[trigger] outs[k]) is Ok by {
                                    if k < outs.len() - 1 {
                                        assert(goes_on(outs[k]));
                                    } else {
                                        assert(outs[k] == outs.last());
                                    }
                                }
                            }
                            assert(below.transformed == any_change(outs));
                        } else {
                            assert(!any_change(below_got));
                        }
                        if below.tnr is Continue {
                            let last = seq![Call::Up(below.data)];
                            let up = post(s2, below.data).1;
                            lemma_replay_one(pre, post, s2, Call::Up(below.data));
                            lemma_reports_one(pre, post, s2, Call::Up(below.data));
                            lemma_replay_both(pre, post, s, runs, last);
                            lemma_reports_both(pre, post, s, runs, last);
                            lemma_any_change_one(up);
                            lemma_any_change_both(runs_got, seq![up]);
                            assert(reports(pre, post, s, runs + last) == runs_got + seq![up]);
                            assert((runs_got + seq![up]).last() == up);
                        }
                    },
                    Err(_) => {},
                }
            },
            TreeNodeRecursion::Jump => {
                let last = seq![Call::Up(t.data)];
                let up = post(s1, t.data).1;
                lemma_replay_one(pre, post, s1, Call::Up(t.data));
                lemma_reports_one(pre, post, s1, Call::Up(t.data));
                lemma_replay_both(pre, post, s, first, last);
                lemma_reports_both(pre, post, s, first, last);
                lemma_any_change_one(up);
                lemma_any_change_both(seq![down], seq![up]);
                assert(seq![Call::Down(tree), Call::Up(t.data)] =~= first + last);
                assert((seq![down] + seq![up]).last() == up);
            },
            TreeNodeRecursion::Stop => {},
        },
        Err(_) => {},
    }
}

/// `lemma_rewrite_is_its_calls`, for the children of `tree` from the one at
/// index `from` on, with their outcomes: children are rewritten up to the
/// first whose outcome does not go on.
pub proof fn lemma_rewrite_children_are_their_calls<S, N: TreeStructure>(
    pre: Reshape<S, N::Model>,
    post: Reshape<S, N::Model>,
    s: S,
    tree: N::Model,
    from: int,
)
    requires
        0 <= from <= N::subtrees(tree).len(),
    ensures
        ({
            let (end, outs) = remake_children::<S, N>(pre, post, s, tree, from, Seq::empty());
            let runs = rewrite_children_calls::<S, N>(pre, post, s, tree, from);
            let got = reports(pre, post, s, runs);
            &&& got.len() == runs.len()
            &&& end == replay(pre, post, s, runs)
            &&& runs.len() == 0 <==> from == N::subtrees(tree).len()
            &&& outs.len() == 0 <==> from == N::subtrees(tree).len()
            &&& outs.len() <= N::subtrees(tree).len() - from
            &&& forall|k: int| 0 <= k < outs.len() - 1 ==> goes_on(#[trigger] outs[k])
            &&& outs.len() < N::subtrees(tree).len() - from ==> !goes_on(outs.last())
            &&& from < N::subtrees(tree).len() ==> (outs.last() matches Ok(t) ==> got.last() matches Ok(
                l,
            ) && l.tnr == t.tnr)
            &&& from < N::subtrees(tree).len() ==> (got.last() matches Err(e) ==> outs.last()
                == Err::<Transformed<N::Model>, Failure>(e))
            &&& all_ok(outs) ==> any_change(outs) == any_change(got)
        }),
    decreases N::height(tree), 0int, N::subtrees(tree).len() - from,
{
    let none = Seq::<Outcome<N::Model>>::empty();
    if from < N::subtrees(tree).len() {
        N::lemma_subtrees_are_lower(tree);
        let child = N::subtrees(tree)[from];
        let (s1, out) = remake::<S, N>(pre, post, s, child);
        let here = rewrite_calls::<S, N>(pre, post, s, child);
        let here_got = reports(pre, post, s, here);
        lemma_rewrite_is_its_calls::<S, N>(pre, post, s, child);
        lemma_any_change_one(out);
        if goes_on(out) {
            let rest = rewrite_children_calls::<S, N>(pre, post, s1, tree, from + 1);
            let rest_got = reports(pre, post, s1, rest);
            let (end, more) = remake_children::<S, N>(pre, post, s1, tree, from + 1, none);
            lemma_rewrite_children_are_their_calls::<S, N>(pre, post, s1, tree, from + 1);
            lemma_remake_children_after::<S, N>(pre, post, s1, tree, from + 1, none.push(out));
            lemma_replay_both(pre, post, s, here, rest);
            lemma_reports_both(pre, post, s, here, rest);
            lemma_any_change_both(here_got, rest_got);
            lemma_any_change_both(seq![out], more);
            let outs = remake_children::<S, N>(pre, post, s, tree, from, none).1;
            assert(none.push(out) =~= seq![out]);
            assert(outs == seq![out] + more);
            if rest.len() == 0 {
                assert(here + rest =~= here);
                assert(more.len() == 0);
                assert(outs =~= seq![out]);
            } else {
                assert((here_got + rest_got).last() == rest_got.last());
                assert(outs.last() == more.last());
            }
            assert forall|k: int| 0 <= k < outs.len() - 1 implies goes_on(#[trigger] outs[k]) by {
                if k > 0 {
                    assert(outs[k] == more[k - 1]);
                }
            }
            if all_ok(outs) {
                assert(all_ok(more)) by {
                    assert forall|k: int| 0 <= k < more.len() implies (#[trigger] more[k]) is Ok by {
                        assert(more[k] == outs[k + 1]);
                    }
                }
            }
        } else {
            let outs = remake_children::<S, N>(pre, post, s, tree, from, none).1;
            assert(outs =~= seq![out]);
        }
    } else {
        assert(reports(pre, post, s, Seq::<Call<N::Model>>::empty()).len() == 0);
    }
}

/// The outcome is a success with `Jump`.
pub open spec fn jumps<M>(out: Outcome<M>) -> bool {
    out matches Ok(t) && t.tnr is Jump
}

/// The runs `calls`, made one after the other, keep to the signals:
/// - nothing runs after a `Stop` or a failure: every run but the last
///   succeeds with `Continue` or `Jump`;
/// - after `Jump` from the callback before the children of a node, the
///   callback after the children runs next, on the very node that the first
///   returned;
/// - after `Jump` from the callback after the children of a node, no
///   callback after the children runs next: the next run, if there is one,
///   is the callback before the children, on another node. So the way up is
///   not taken on any ancestor of the node until a later child of one of
///   them has been walked.
pub open spec fn rewrites_keep_to_signals<S, M>(
    pre: Reshape<S, M>,
    post: Reshape<S, M>,
    s: S,
    calls: Seq<Call<M>>,
) -> bool {
    let got = reports(pre, post, s, calls);
    forall|i: int|
        #![trigger calls[i]]
        0 <= i < calls.len() ==> {
            &&& i < calls.len() - 1 ==> goes_on(got[i])
            &&& calls[i] is Down && jumps(got[i]) ==> i + 1 < calls.len() && calls[i + 1]
                == Call::Up(got[i]->Ok_0.data)
            &&& calls[i] is Up && jumps(got[i]) && i + 1 < calls.len() ==> calls[i + 1] is Down
        }
}

/// Runs that keep to the signals, followed by runs that keep to the
/// signals, keep to the signals if they do where they meet.
pub proof fn lemma_rewrites_keep_to_signals_both<S, M>(
    pre: Reshape<S, M>,
    post: Reshape<S, M>,
    s: S,
    first: Seq<Call<M>>,
    then: Seq<Call<M>>,
)
    requires
        first.len() > 0,
        rewrites_keep_to_signals(pre, post, s, first),
        rewrites_keep_to_signals(pre, post, replay(pre, post, s, first), then),
        then.len() > 0 ==> goes_on(reports(pre, post, s, first).last()),
        jumps(reports(pre, post, s, first).last()) ==> if first.last() is Down {
            then.len() > 0 && then[0] == Call::Up(reports(pre, post, s, first).last()->Ok_0.data)
        } else {
            then.len() > 0 ==> then[0] is Down
        },
    ensures
        rewrites_keep_to_signals(pre, post, s, first + then),
{
    lemma_reports_both(pre, post, s, first, then);
    lemma_reports_both(pre, post, replay(pre, post, s, first), then, Seq::empty());
    let all = first + then;
    let got = reports(pre, post, s, all);
    let got_first = reports(pre, post, s, first);
    let got_then = reports(pre, post, replay(pre, post, s, first), then);
    assert(then + Seq::<Call<M>>::empty() =~= then);
    assert forall|i: int| 0 <= i < all.len() implies {
        &&& i < all.len() - 1 ==> goes_on(got[i])
        &&& (#[trigger] all[i]) is Down && jumps(got[i]) ==> i + 1 < all.len() && all[i + 1]
            == Call::Up(got[i]->Ok_0.data)
        &&& all[i] is Up && jumps(got[i]) && i + 1 < all.len() ==> all[i + 1] is Down
    } by {
        if i < first.len() {
            assert(all[i] == first[i]);
            assert(got[i] == got_first[i]);
            if i + 1 < first.len() {
                assert(all[i + 1] == first[i + 1]);
            } else if then.len() > 0 {
                assert(all[i + 1] == then[0]);
                assert(first[i] == first.last());
            }
        } else {
            let j = i - first.len();
            assert(all[i] == then[j]);
            assert(got[i] == got_then[j]);
            if j + 1 < then.len() {
                assert(all[i + 1] == then[j + 1]);
            }
        }
    }
}

/// A single run keeps to the signals unless it is `Jump` from the callback
/// before the children.
pub proof fn lemma_rewrites_keep_to_signals_one<S, M>(
    pre: Reshape<S, M>,
    post: Reshape<S, M>,
    s: S,
    call: Call<M>,
)
    requires
        call is Down ==> !jumps(run(pre, post, s, call).1),
    ensures
        rewrites_keep_to_signals(pre, post, s, seq![call]),
{
    lemma_reports_one(pre, post, s, call);
}

/// Every rewriting walk keeps to the signals: nothing runs after a `Stop`
/// or a failure; `Jump` on the way down is followed at once by the way up
/// on the node as it was returned, with all that is below it untouched;
/// `Jump` on the way up is never followed by the way up on another node.
pub proof fn lemma_rewrite_keeps_to_signals<S, N: TreeStructure>(
    pre: Reshape<S, N::Model>,
    post: Reshape<S, N::Model>,
    s: S,
    tree: N::Model,
)
    ensures
        ({
            let runs = rewrite_calls::<S, N>(pre, post, s, tree);
            &&& rewrites_keep_to_signals(pre, post, s, runs)
            &&& jumps(remake::<S, N>(pre, post, s, tree).1) ==> runs.last() is Up
        }),
    decreases N::height(tree), 1int, 0int,
{
    let (s1, down) = pre(s, tree);
    let first = seq![Call::Down(tree)];
    lemma_rewrite_is_its_calls::<S, N>(pre, post, s, tree);
    lemma_replay_one(pre, post, s, Call::Down(tree));
    lemma_reports_one(pre, post, s, Call::Down(tree));
    match down {
        Ok(t) => match t.tnr {
            TreeNodeRecursion::Continue => if N::height(t.data) <= N::height(tree) {
                let node = t.data;
                let kids = N::subtrees(node);
                let (s2, outs) = remake_children::<S, N>(pre, post, s1, node, 0, Seq::empty());
                let below_calls = rewrite_children_calls::<S, N>(pre, post, s1, node, 0);
                let below_got = reports(pre, post, s1, below_calls);
                lemma_rewrites_keep_to_signals_one(pre, post, s, Call::Down(tree));
                lemma_rewrite_children_are_their_calls::<S, N>(pre, post, s1, node, 0);
                lemma_rewrite_children_keep_to_signals::<S, N>(pre, post, s1, node, 0);
                lemma_rewrites_keep_to_signals_both(pre, post, s, first, below_calls);
                let runs = first + below_calls;
                lemma_replay_both(pre, post, s, first, below_calls);
                lemma_reports_both(pre, post, s, first, below_calls);
                let runs_got = reports(pre, post, s, runs);
                assert(runs_got == seq![down] + below_got);
                if kids.len() > 0 {
                    assert(runs_got.last() == below_got.last());
                    assert(runs.last() == below_calls.last());
                } else {
                    assert(runs =~= first);
                }
                match rebuild::<N>(node, outs) {
                    Ok(below) => {
                        if below.tnr is Continue {
                            let last = seq![Call::Up(below.data)];
                            lemma_rewrites_keep_to_signals_one(
                                pre,
                                post,
                                s2,
                                Call::Up(below.data),
                            );
                            lemma_rewrites_keep_to_signals_both(pre, post, s, runs, last);
                        }
                    },
                    Err(_) => {},
                }
            } else {
                lemma_rewrites_keep_to_signals_one(pre, post, s, Call::Down(tree));
            },
            TreeNodeRecursion::Jump => {
                let last = seq![Call::Up(t.data)];
                let both = seq![Call::Down(tree), Call::Up(t.data)];
                assert(both =~= first + last);
                lemma_reports_one(pre, post, s1, Call::Up(t.data));
                lemma_reports_both(pre, post, s, first, last);
                assert(rewrites_keep_to_signals(pre, post, s, both)) by {
                    let got = reports(pre, post, s, both);
                    assert(got[0] == down);
                    assert(both[1] == Call::Up(t.data));
                }
            },
            TreeNodeRecursion::Stop => {
                lemma_rewrites_keep_to_signals_one(pre, post, s, Call::Down(tree));
            },
        },
        Err(_) => {
            lemma_rewrites_keep_to_signals_one(pre, post, s, Call::Down(tree));
        },
    }
}

/// `lemma_rewrite_keeps_to_signals`, for the children of `tree` from the one
/// at index `from` on.
pub proof fn lemma_rewrite_children_keep_to_signals<S, N: TreeStructure>(
    pre: Reshape<S, N::Model>,
    post: Reshape<S, N::Model>,
    s: S,
    tree: N::Model,
    from: int,
)
    requires
        0 <= from <= N::subtrees(tree).len(),
    ensures
        ({
            let runs = rewrite_children_calls::<S, N>(pre, post, s, tree, from);
            let got = reports(pre, post, s, runs);
            &&& rewrites_keep_to_signals(pre, post, s, runs)
            &&& from < N::subtrees(tree).len() ==> runs[0] is Down
            &&& from < N::subtrees(tree).len() && jumps(got.last()) ==> runs.last() is Up
        }),
    decreases N::height(tree), 0int, N::subtrees(tree).len() - from,
{
    if from < N::subtrees(tree).len() {
        N::lemma_subtrees_are_lower(tree);
        let child = N::subtrees(tree)[from];
        let (s1, out) = remake::<S, N>(pre, post, s, child);
        let here = rewrite_calls::<S, N>(pre, post, s, child);
        let here_got = reports(pre, post, s, here);
        lemma_rewrite_is_its_calls::<S, N>(pre, post, s, child);
        lemma_rewrite_keeps_to_signals::<S, N>(pre, post, s, child);
        assert(jumps(here_got.last()) ==> here.last() is Up) by {
            assert(here[here.len() - 1] == here.last());
        }
        if goes_on(out) {
            let rest = rewrite_children_calls::<S, N>(pre, post, s1, tree, from + 1);
            lemma_rewrite_children_are_their_calls::<S, N>(pre, post, s1, tree, from + 1);
            lemma_rewrite_children_keep_to_signals::<S, N>(pre, post, s1, tree, from + 1);
            lemma_replay_both(pre, post, s, here, rest);
            lemma_reports_both(pre, post, s, here, rest);
            lemma_rewrites_keep_to_signals_both(pre, post, s, here, rest);
            if rest.len() == 0 {
                assert(here + rest =~= here);
            } else {
                assert((here + rest).last() == rest.last());
            }
        }
    } else {
        assert(reports(pre, post, s, Seq::<Call<N::Model>>::empty()).len() == 0);
    }
}

/// The callback `f` always succeeds with `Continue`, and never returns a
/// node that is higher than the one it was given.
pub open spec fn always_goes_on<S, N: TreeStructure>(
    f: Reshape<S, N::Model>,
) -> bool {
    forall|s: S, tree: N::Model|
        {
            let out = (#[trigger] f(s, tree)).1;
            out is Ok && out->Ok_0.tnr is Continue && N::height(out->Ok_0.data) <= N::height(tree)
        }
}

/// The rewriting walk is depth first. With callbacks that always succeed
/// with `Continue`, the callback before the children runs on a node, then
/// every child of what it returned is rewritten, in order, then the
/// callback after the children runs on the node built again around them,
/// and the walk ends in `Continue`. Only a node that cannot be built again
/// makes the walk fail.
pub proof fn lemma_rewrite_is_depth_first<S, N: TreeStructure>(
    pre: Reshape<S, N::Model>,
    post: Reshape<S, N::Model>,
    s: S,
    tree: N::Model,
)
    requires
        always_goes_on::<S, N>(pre),
        always_goes_on::<S, N>(post),
    ensures
        ({
            let (s1, down) = pre(s, tree);
            let node = down->Ok_0.data;
            let outs = remake_children::<S, N>(pre, post, s1, node, 0, Seq::empty()).1;
            let done = remake::<S, N>(pre, post, s, tree).1;
            &&& all_ok(outs) ==> outs.len() == N::subtrees(node).len()
            &&& done matches Ok(t) ==> t.tnr is Continue
            &&& done is Ok ==> rebuild::<N>(node, outs) is Ok && rewrite_calls::<S, N>(pre, post, s, tree) == seq![
                Call::Down(tree),
            ] + rewrite_children_calls::<S, N>(pre, post, s1, node, 0) + seq![
                Call::Up(rebuild::<N>(node, outs)->Ok_0.data),
            ]
        }),
    decreases N::height(tree), 1int, 0int,
{
    let (s1, down) = pre(s, tree);
    let node = down->Ok_0.data;
    let (s2, outs) = remake_children::<S, N>(pre, post, s1, node, 0, Seq::empty());
    lemma_rewrite_children_are_depth_first::<S, N>(pre, post, s1, node, 0);
    if N::subtrees(node).len() > 0 && rebuild::<N>(node, outs) is Ok {
        assert(all_ok(outs)) by {
            lemma_rewrite_children_are_their_calls::<S, N>(pre, post, s1, node, 0);
            assert forall|k: int| 0 <= k < outs.len() implies (#[trigger] outs[k]) is Ok by {
                if k < outs.len() - 1 {
                    assert(goes_on(outs[k]));
                } else {
                    assert(outs[k] == outs.last());
                }
            }
        }
        assert(outs.last() == outs[outs.len() - 1]);
    }
    if rebuild::<N>(node, outs) is Ok {
        let below = rebuild::<N>(node, outs)->Ok_0;
        assert(post(s2, below.data).1 is Ok);
    }
}

/// `lemma_rewrite_is_depth_first`, for the children of `tree` from the one at
/// index `from` on: unless one of them fails, each of them is rewritten,
/// in order, and ends in `Continue`.
pub proof fn lemma_rewrite_children_are_depth_first<S, N: TreeStructure>(
    pre: Reshape<S, N::Model>,
    post: Reshape<S, N::Model>,
    s: S,
    tree: N::Model,
    from: int,
)
    requires
        always_goes_on::<S, N>(pre),
        always_goes_on::<S, N>(post),
        0 <= from <= N::subtrees(tree).len(),
    ensures
        ({
            let outs = remake_children::<S, N>(pre, post, s, tree, from, Seq::empty()).1;
            &&& all_ok(outs) ==> outs.len() == N::subtrees(tree).len() - from
            &&& forall|k: int|
                0 <= k < outs.len() ==> ((#[trigger] outs[k]) matches Ok(t) ==> t.tnr is Continue)
            &&& from < N::subtrees(tree).len() && remake::<S, N>(pre, post, s, N::subtrees(tree)[from]).1 is Ok
                ==> rewrite_children_calls::<S, N>(pre, post, s, tree, from) == rewrite_calls::<S, N>(
                pre,
                post,
                s,
                N::subtrees(tree)[from],
            ) + rewrite_children_calls::<S, N>(
                pre,
                post,
                remake::<S, N>(pre, post, s, N::subtrees(tree)[from]).0,
                tree,
                from + 1,
            )
        }),
    decreases N::height(tree), 0int, N::subtrees(tree).len() - from,
{
    let none = Seq::<Outcome<N::Model>>::empty();
    if from < N::subtrees(tree).len() {
        N::lemma_subtrees_are_lower(tree);
        let child = N::subtrees(tree)[from];
        let (s1, out) = remake::<S, N>(pre, post, s, child);
        lemma_rewrite_is_depth_first::<S, N>(pre, post, s, child);
        let outs = remake_children::<S, N>(pre, post, s, tree, from, none).1;
        if goes_on(out) {
            let more = remake_children::<S, N>(pre, post, s1, tree, from + 1, none).1;
            lemma_rewrite_children_are_depth_first::<S, N>(pre, post, s1, tree, from + 1);
            lemma_remake_children_after::<S, N>(pre, post, s1, tree, from + 1, none.push(out));
            assert(outs == none.push(out) + more);
            assert forall|k: int| 0 <= k < outs.len() implies ((#[trigger] outs[k]) matches Ok(
                t,
            ) ==> t.tnr is Continue) by {
                if k > 0 {
                    assert(outs[k] == more[k - 1]);
                }
            }
            if all_ok(outs) {
                assert(all_ok(more)) by {
                    assert forall|k: int| 0 <= k < more.len() implies (#[trigger] more[k]) is Ok by {
                        assert(more[k] == outs[k + 1]);
                    }
                }
            }
        } else {
            assert(outs =~= seq![out]);
            if all_ok(outs) {
                assert(outs[0] is Ok);
            }
        }
    }
}

/// A node that shares its children is itself again when nothing below it
/// has changed: it is handed back, and is not built again.
pub proof fn lemma_shared_nodes_rebuild_to_themselves<T: DynTreeNode + ?Sized>(tree: T::Model)
    ensures
        rebuilds_to_itself::<Arc<T>>(tree),
    decreases T::arc_height(tree),
{
    T::lemma_arc_children_are_lower(tree);
    assert forall|i: int| 0 <= i < T::arc_children_of(tree).len() implies rebuilds_to_itself::<
        Arc<T>,
    >(#[trigger] T::arc_children_of(tree)[i]) by {
        lemma_shared_nodes_rebuild_to_themselves::<T>(T::arc_children_of(tree)[i]);
    }
}

/// `lemma_rewrite_without_change`, for a rewriter: where both callbacks
/// hand every tree back unchanged with `Continue` and leave the rewriter
/// as it is, `rewrite` hands the tree back as it was, with no change
/// flagged.
pub proof fn lemma_rewriter_without_change<R: TreeNodeRewriter>(
    state: R::State,
    tree: <R::Node as TreeStructure>::Model,
)
    requires
        forall|s: R::State, t: <R::Node as TreeStructure>::Model| #[trigger]
            R::f_down_model(s, t) == (
                s,
                Ok::<Transformed<<R::Node as TreeStructure>::Model>, Failure>(
                    Transformed { data: t, transformed: false, tnr: TreeNodeRecursion::Continue },
                ),
            ),
        forall|s: R::State, t: <R::Node as TreeStructure>::Model| #[trigger]
            R::f_up_model(s, t) == (
                s,
                Ok::<Transformed<<R::Node as TreeStructure>::Model>, Failure>(
                    Transformed { data: t, transformed: false, tnr: TreeNodeRecursion::Continue },
                ),
            ),
        rebuilds_to_itself::<R::Node>(tree),
    ensures
        rewrite_spec::<R>(state, tree) == (
            state,
            Ok::<Transformed<<R::Node as TreeStructure>::Model>, Failure>(
                Transformed { data: tree, transformed: false, tnr: TreeNodeRecursion::Continue },
            ),
        ),
{
    assert(leaves_alone(rewriter_pre::<R>()));
    assert(leaves_alone(rewriter_post::<R>()));
    lemma_rewrite_without_change::<R::State, R::Node>(
        rewriter_pre::<R>(),
        rewriter_post::<R>(),
        state,
        tree,
    );
}

/// `lemma_rewrite_without_change`, for closures: with two closures that
/// hand every tree back unchanged with `Continue`, `transform_down_up`
/// hands the tree back as it was, with no change flagged.
pub proof fn lemma_transform_without_change<N: TreeStructure>(tree: N::Model)
    requires
        rebuilds_to_itself::<N>(tree),
    ensures
        transform_down_up_spec::<N>(leave(), leave(), tree) == Ok::<
            Transformed<N::Model>,
            Failure,
        >(Transformed { data: tree, transformed: false, tnr: TreeNodeRecursion::Continue }),
{
    assert(leaves_alone(reshaper(leave::<N::Model>())));
    lemma_rewrite_without_change::<(), N>(
        reshaper(leave::<N::Model>()),
        reshaper(leave::<N::Model>()),
        (),
        tree,
    );
}

/// `transform_down`, step by step: the closure runs on the tree; on
/// `Stop` and on a failure that is the end; on `Jump` the children are left
/// out and the tree is handed up with `Continue`; on `Continue` the
/// children of what the closure returned are rewritten in the same way, in
/// order, and the tree is built again around them, with the flag kept.
pub proof fn lemma_transform_down_step_by_step<N: TreeStructure>(
    g: spec_fn(N::Model) -> Outcome<N::Model>,
    tree: N::Model,
)
    ensures
        transform_down_spec::<N>(g, tree) == match g(tree) {
            Ok(t) => match t.tnr {
                TreeNodeRecursion::Continue => if N::height(t.data) <= N::height(tree) {
                    keep_change(
                        t.transformed,
                        rebuild::<N>(
                            t.data,
                            remake_children::<(), N>(
                                reshaper(g),
                                reshaper(leave()),
                                (),
                                t.data,
                                0,
                                Seq::empty(),
                            ).1,
                        ),
                    )
                } else {
                    Ok(t)
                },
                TreeNodeRecursion::Jump => Ok(
                    Transformed {
                        data: t.data,
                        transformed: t.transformed,
                        tnr: TreeNodeRecursion::Continue,
                    },
                ),
                TreeNodeRecursion::Stop => Ok(t),
            },
            Err(e) => Err(e),
        },
{
}

/// `transform_up`, step by step: the children of the tree are rewritten in
/// the same way, in order, and the tree is built again around them; if
/// that ends in `Continue`, the closure runs on the tree, and what it
/// returns keeps the flag; `Jump`, `Stop` and a failure are handed up as
/// they are, and the closure does not run.
pub proof fn lemma_transform_up_step_by_step<N: TreeStructure>(
    g: spec_fn(N::Model) -> Outcome<N::Model>,
    tree: N::Model,
)
    ensures
        transform_up_spec::<N>(g, tree) == match rebuild::<N>(
            tree,
            remake_children::<(), N>(reshaper(leave()), reshaper(g), (), tree, 0, Seq::empty()).1,
        ) {
            Ok(below) => match below.tnr {
                TreeNodeRecursion::Continue => keep_change(below.transformed, g(below.data)),
                _ => Ok(below),
            },
            Err(e) => Err(e),
        },
{
}

/// `Jump` on the way down goes no further than its node: `transform_down`
/// never ends in `Jump`.
pub proof fn lemma_transform_down_never_ends_in_jump<N: TreeStructure>(
    g: spec_fn(N::Model) -> Outcome<N::Model>,
    tree: N::Model,
)
    ensures
        !jumps(transform_down_spec::<N>(g, tree)),
    decreases N::height(tree), 1int, 0int,
{
    lemma_transform_down_step_by_step::<N>(g, tree);
    if g(tree) is Ok {
        let t = g(tree)->Ok_0;
        if t.tnr is Continue && N::height(t.data) <= N::height(tree) {
            let none = Seq::<Outcome<N::Model>>::empty();
            lemma_transform_down_children_never_end_in_jump::<N>(g, t.data, 0);
            let outs = remake_children::<(), N>(
                reshaper(g),
                reshaper(leave()),
                (),
                t.data,
                0,
                none,
            ).1;
            if outs.len() > 0 {
                assert(outs.last() == outs[outs.len() - 1]);
            }
        }
    }
}

/// `lemma_transform_down_never_ends_in_jump`, for the children of `tree`
/// from the one at index `from` on.
pub proof fn lemma_transform_down_children_never_end_in_jump<N: TreeStructure>(
    g: spec_fn(N::Model) -> Outcome<N::Model>,
    tree: N::Model,
    from: int,
)
    requires
        0 <= from <= N::subtrees(tree).len(),
    ensures
        ({
            let outs = remake_children::<(), N>(
                reshaper(g),
                reshaper(leave()),
                (),
                tree,
                from,
                Seq::empty(),
            ).1;
            forall|k: int| 0 <= k < outs.len() ==> !jumps(#[trigger] outs[k])
        }),
    decreases N::height(tree), 0int, N::subtrees(tree).len() - from,
{
    let none = Seq::<Outcome<N::Model>>::empty();
    if from < N::subtrees(tree).len() {
        N::lemma_subtrees_are_lower(tree);
        let child = N::subtrees(tree)[from];
        lemma_transform_down_never_ends_in_jump::<N>(g, child);
        let out = transform_down_spec::<N>(g, child);
        let outs = remake_children::<(), N>(reshaper(g), reshaper(leave()), (), tree, from, none).1;
        if goes_on(out) {
            let more = remake_children::<(), N>(
                reshaper(g),
                reshaper(leave()),
                (),
                tree,
                from + 1,
                none,
            ).1;
            lemma_transform_down_children_never_end_in_jump::<N>(g, tree, from + 1);
            lemma_remake_children_after::<(), N>(
                reshaper(g),
                reshaper(leave()),
                (),
                tree,
                from + 1,
                none.push(out),
            );
            assert forall|k: int| 0 <= k < outs.len() implies !jumps(#[trigger] outs[k]) by {
                if k > 0 {
                    assert(outs[k] == more[k - 1]);
                }
            }
        } else {
            assert(outs =~= seq![out]);
        }
    }
}

/// Rewriting with callbacks that are functions. Where the callback before
/// the children can only return, on each tree, what the function `g_down`
/// says, and the callback after them what `g_up` says, the rewriting walk
/// can only come to what `transform_down_up_spec` says for the two.
pub proof fn lemma_remake_of_functions<N: TreeStructure>(
    down: Returns<N::Model>,
    up: Returns<N::Model>,
    g_down: spec_fn(N::Model) -> Outcome<N::Model>,
    g_up: spec_fn(N::Model) -> Outcome<N::Model>,
    tree: N::Model,
    result: Outcome<N::Model>,
)
    requires
        returns_within(down, says(g_down)),
        returns_within(up, says(g_up)),
        can_remake::<N>(down, up, tree, result),
    ensures
        result == transform_down_up_spec::<N>(g_down, g_up, tree),
    decreases N::height(tree), 1int,
{
    let said_down = says(g_down);
    let said_up = says(g_up);
    lemma_can_remake_widens::<N>(down, up, said_down, said_up, tree, result);
    let d = choose|d: Outcome<N::Model>|
        #[trigger] said_down(tree, d) && can_remake_from::<N>(said_down, said_up, tree, d, result);
    assert(d == g_down(tree));
    if d is Ok {
        let t = d->Ok_0;
        match t.tnr {
            TreeNodeRecursion::Continue => {
                if N::height(t.data) <= N::height(tree) {
                    let outs = choose|outs: Seq<Outcome<N::Model>>|
                        can_remake_children::<N>(said_down, said_up, t.data, outs) && can_ascend(
                            said_up,
                            t.transformed,
                            #[trigger] rebuild::<N>(t.data, outs),
                            result,
                        );
                    assert forall|k: int| 0 <= k < outs.len() implies #[trigger] outs[k]
                        == transform_down_up_spec::<N>(g_down, g_up, N::subtrees(t.data)[k]) by {
                        N::lemma_subtrees_are_lower(t.data);
                        lemma_remake_of_functions::<N>(
                            said_down,
                            said_up,
                            g_down,
                            g_up,
                            N::subtrees(t.data)[k],
                            outs[k],
                        );
                    }
                    lemma_remake_children_of_functions::<N>(
                        g_down,
                        g_up,
                        t.data,
                        0,
                        Seq::empty(),
                        outs,
                    );
                    assert(Seq::<Outcome<N::Model>>::empty() + outs =~= outs);
                    if rebuild::<N>(t.data, outs) is Ok && rebuild::<N>(t.data, outs)->Ok_0.tnr
                        is Continue {
                        let below = rebuild::<N>(t.data, outs)->Ok_0;
                        let u = choose|u: Outcome<N::Model>|
                            #[trigger] said_up(below.data, u) && result == keep_change(
                                t.transformed,
                                keep_change(below.transformed, u),
                            );
                        assert(u == g_up(below.data));
                    }
                }
            },
            TreeNodeRecursion::Jump => {
                let u = choose|u: Outcome<N::Model>|
                    #[trigger] said_up(t.data, u) && result == keep_change(t.transformed, u);
                assert(u == g_up(t.data));
            },
            TreeNodeRecursion::Stop => {},
        }
    }
}

/// `lemma_remake_of_functions`, for the children of `tree` from the one at
/// index `from` on, when their walks come to `outs`.
pub proof fn lemma_remake_children_of_functions<N: TreeStructure>(
    g_down: spec_fn(N::Model) -> Outcome<N::Model>,
    g_up: spec_fn(N::Model) -> Outcome<N::Model>,
    tree: N::Model,
    from: int,
    done: Seq<Outcome<N::Model>>,
    outs: Seq<Outcome<N::Model>>,
)
    requires
        0 <= from <= N::subtrees(tree).len(),
        is_run(outs, (N::subtrees(tree).len() - from) as nat),
        forall|k: int|
            0 <= k < outs.len() ==> #[trigger] outs[k] == transform_down_up_spec::<N>(
                g_down,
                g_up,
                N::subtrees(tree)[from + k],
            ),
    ensures
        remake_children::<(), N>(reshaper(g_down), reshaper(g_up), (), tree, from, done).1 == done
            + outs,
    decreases N::subtrees(tree).len() - from,
{
    if from < N::subtrees(tree).len() {
        let first = outs[0];
        assert(first == transform_down_up_spec::<N>(g_down, g_up, N::subtrees(tree)[from + 0]));
        if goes_on(first) {
            let rest = outs.skip(1);
            assert forall|k: int| 0 <= k < rest.len() implies #[trigger] rest[k]
                == transform_down_up_spec::<N>(g_down, g_up, N::subtrees(tree)[from + 1 + k]) by {
                assert(rest[k] == outs[k + 1]);
            }
            assert forall|i: int| 0 <= i < rest.len() - 1 implies goes_on(#[trigger] rest[i]) by {
                assert(rest[i] == outs[i + 1]);
            }
            if rest.len() > 0 {
                assert(rest.last() == outs.last());
            }
            lemma_remake_children_of_functions::<N>(
                g_down,
                g_up,
                tree,
                from + 1,
                done.push(first),
                rest,
            );
            assert(done.push(first) + rest =~= done + outs);
        } else {
            if outs.len() > 1 {
                assert(goes_on(outs[0]));
            }
            assert(done.push(first) =~= done + outs);
        }
    } else {
        assert(done + outs =~= done);
    }
}

/// `Jump` on the way down goes no further than its node, whatever the
/// callback is: a rewriting walk with nothing to do after the children, as
/// `transform_down` is, never ends in `Jump`.
pub proof fn lemma_transform_down_cannot_end_in_jump<N: TreeStructure>(
    down: Returns<N::Model>,
    tree: N::Model,
    result: Outcome<N::Model>,
)
    requires
        can_remake::<N>(down, says(leave()), tree, result),
    ensures
        !jumps(result),
    decreases N::height(tree), 1int,
{
    let up = says(leave::<N::Model>());
    let d = choose|d: Outcome<N::Model>|
        #[trigger] down(tree, d) && can_remake_from::<N>(down, up, tree, d, result);
    if d is Ok {
        let t = d->Ok_0;
        match t.tnr {
            TreeNodeRecursion::Continue => {
                if N::height(t.data) <= N::height(tree) {
                    let outs = choose|outs: Seq<Outcome<N::Model>>|
                        can_remake_children::<N>(down, up, t.data, outs) && can_ascend(
                            up,
                            t.transformed,
                            #[trigger] rebuild::<N>(t.data, outs),
                            result,
                        );
                    if outs.len() > 0 {
                        N::lemma_subtrees_are_lower(t.data);
                        let k = outs.len() - 1;
                        assert(can_remake::<N>(down, up, N::subtrees(t.data)[k], outs[k]));
                        lemma_transform_down_cannot_end_in_jump::<N>(
                            down,
                            N::subtrees(t.data)[k],
                            outs[k],
                        );
                        assert(outs.last() == outs[k]);
                    }
                    if rebuild::<N>(t.data, outs) is Ok && rebuild::<N>(t.data, outs)->Ok_0.tnr
                        is Continue {
                        let below = rebuild::<N>(t.data, outs)->Ok_0;
                        let u = choose|u: Outcome<N::Model>|
                            #[trigger] up(below.data, u) && result == keep_change(
                                t.transformed,
                                keep_change(below.transformed, u),
                            );
                        assert(u == leave::<N::Model>()(below.data));
                    }
                }
            },
            TreeNodeRecursion::Jump => {
                let u = choose|u: Outcome<N::Model>|
                    #[trigger] up(t.data, u) && result == keep_change(t.transformed, u);
                assert(u == leave::<N::Model>()(t.data));
            },
            TreeNodeRecursion::Stop => {},
        }
    }
}

/// Rewriting that changes nothing changes nothing, for closures: where
/// both callbacks can only hand every tree back unchanged with `Continue`,
/// the rewriting walk can only hand the tree back as it was, with no
/// change flagged, provided that each of its nodes is itself again when it
/// is built again around its own children.
pub proof fn lemma_closures_without_change<N: TreeStructure>(
    down: Returns<N::Model>,
    up: Returns<N::Model>,
    tree: N::Model,
    result: Outcome<N::Model>,
)
    requires
        returns_within(down, says(leave())),
        returns_within(up, says(leave())),
        rebuilds_to_itself::<N>(tree),
        can_remake::<N>(down, up, tree, result),
    ensures
        result == Ok::<Transformed<N::Model>, Failure>(
            Transformed { data: tree, transformed: false, tnr: TreeNodeRecursion::Continue },
        ),
{
    lemma_remake_of_functions::<N>(down, up, leave(), leave(), tree, result);
    lemma_transform_without_change::<N>(tree);
}

/// `lemma_rewrite_is_its_calls` and `lemma_rewrite_keeps_to_signals`, for a
/// rewriter: `rewrite` leaves the rewriter holding what the runs of its
/// callbacks make of what it held; where it succeeds, it ends with the
/// signal that the last run returned and flags a change if and only if a
/// run did; and the runs keep to the signals.
pub proof fn lemma_rewriter_keeps_to_signals<R: TreeNodeRewriter>(
    state: R::State,
    tree: <R::Node as TreeStructure>::Model,
)
    ensures
        ({
            let pre = rewriter_pre::<R>();
            let post = rewriter_post::<R>();
            let runs = rewrite_calls::<R::State, R::Node>(pre, post, state, tree);
            let got = reports(pre, post, state, runs);
            let (end, result) = rewrite_spec::<R>(state, tree);
            &&& end == replay(pre, post, state, runs)
            &&& result matches Ok(t) ==> got.last() matches Ok(l) && l.tnr == t.tnr
                && t.transformed == any_change(got)
            &&& rewrites_keep_to_signals(pre, post, state, runs)
        }),
{
    lemma_rewrite_is_its_calls::<R::State, R::Node>(
        rewriter_pre::<R>(),
        rewriter_post::<R>(),
        state,
        tree,
    );
    lemma_rewrite_keeps_to_signals::<R::State, R::Node>(
        rewriter_pre::<R>(),
        rewriter_post::<R>(),
        state,
        tree,
    );
}

/// `Jump` on the way up passes an only child's parent by. Where the
/// callback before the children reports `Continue` on a tree and returns a
/// tree with a single child, and the rewriting walk of that child ends in
/// `Jump`, the callback after the children does not run on the parent: the
/// runs of the walk are the one run before the children and then those of
/// the child, and the walk ends in `Jump` unless the parent cannot be built
/// again. At each parent with no other child this holds again, as far as
/// the root.
pub proof fn lemma_rewrite_jump_passes_the_parent_by<S, N: TreeStructure>(
    pre: Reshape<S, N::Model>,
    post: Reshape<S, N::Model>,
    s: S,
    tree: N::Model,
)
    requires
        pre(s, tree).1 is Ok,
        pre(s, tree).1->Ok_0.tnr is Continue,
        N::height(pre(s, tree).1->Ok_0.data) <= N::height(tree),
        N::subtrees(pre(s, tree).1->Ok_0.data).len() == 1,
        jumps(
            remake::<S, N>(pre, post, pre(s, tree).0, N::subtrees(pre(s, tree).1->Ok_0.data)[0]).1,
        ),
    ensures
        ({
            let s1 = pre(s, tree).0;
            let child = N::subtrees(pre(s, tree).1->Ok_0.data)[0];
            let (end, result) = remake::<S, N>(pre, post, s, tree);
            &&& end == remake::<S, N>(pre, post, s1, child).0
            &&& result matches Ok(t) ==> t.tnr is Jump
            &&& rewrite_calls::<S, N>(pre, post, s, tree) == seq![Call::Down(tree)] + rewrite_calls::<
                S,
                N,
            >(pre, post, s1, child)
        }),
{
    let s1 = pre(s, tree).0;
    let node = pre(s, tree).1->Ok_0.data;
    let child = N::subtrees(node)[0];
    let none = Seq::<Outcome<N::Model>>::empty();
    let (s2, out) = remake::<S, N>(pre, post, s1, child);
    assert(remake_children::<S, N>(pre, post, s2, node, 1, none.push(out)) == (
        s2,
        none.push(out),
    ));
    assert(remake_children::<S, N>(pre, post, s1, node, 0, none) == (s2, none.push(out)));
    let outs = none.push(out);
    assert(outs.last() == out);
    let ahead = rewrite_calls::<S, N>(pre, post, s1, child);
    assert(rewrite_children_calls::<S, N>(pre, post, s2, node, 1) =~= Seq::<
        Call<N::Model>,
    >::empty());
    assert(rewrite_children_calls::<S, N>(pre, post, s1, node, 0) =~= ahead);
}

} // verus!
